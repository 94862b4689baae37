//! What the library knows of the player: its tracks, filetypes, battery and
//! storage, and the decisions made around a transfer. The USB session itself
//! lives with the application.

use vstd::prelude::*;
use crate::library::{LocalTrack, is_audio, is_audio_name};
use crate::music::{name_key};
use crate::order::{KeyView, SortKey, sort_ranked, sort_by_keys, item_views};
use crate::text::{
    ascii_lowercase,
    ascii_lowercase_chars,
    chars_of,
    extension,
    extension_of,
    owned,
    same_chars,
    sort_bytes_of,
};

verus! {

/// A track as the player lists it.
#[derive(Clone, Debug)]
pub struct DeviceTrack {
    pub id: u32,
    pub name: String,
    pub size: u64,
    /// Read back from MTP object properties. Empty means the device reported
    /// nothing for that field; the grouping layer decides what to show instead.
    pub title: String,
    pub artist: String,
    pub album: String,
}

/// The plain values of a `DeviceTrack`.
pub struct DeviceTrackModel {
    pub id: u32,
    pub name: Seq<char>,
    pub size: u64,
    pub title: Seq<char>,
    pub artist: Seq<char>,
    pub album: Seq<char>,
}

impl View for DeviceTrack {
    type V = DeviceTrackModel;

    open spec fn view(&self) -> DeviceTrackModel {
        DeviceTrackModel {
            id: self.id,
            name: self.name@,
            size: self.size,
            title: self.title@,
            artist: self.artist@,
            album: self.album@,
        }
    }
}

/// The views of a sequence of device tracks.
pub open spec fn device_models(s: Seq<DeviceTrack>) -> Seq<DeviceTrackModel> {
    s.map_values(|t: DeviceTrack| t@)
}

/// Stand-in album name for tracks whose tags carry none. The Zen builds its
/// album menu from the AlbumName property, and a track sent without one is
/// filed nowhere and becomes unreachable on the player — so an obviously
/// placeholder album beats no album at all.
pub const UNKNOWN_ALBUM: &'static str = "unknown";


// ---------------------------------------------------------------------------
// Battery and storage
// ---------------------------------------------------------------------------

#[derive(Clone, Debug, PartialEq, Eq, Structural)]
pub enum Battery {
    /// Carries the device's raw pair as well as the percentage, because the
    /// scale is the device's own (the Zen counts to 255, not 100) and a bare
    /// percentage gives no way to tell a real reading from a misparsed one.
    Level { current: u8, max: u8 },
    ExternalPower,
}

/// The charge as a percentage of the device's own scale, capped at 100;
/// none on external power or when the scale is zero.
pub open spec fn battery_percent(b: Battery) -> Option<u8> {
    match b {
        Battery::Level { current, max } => if max > 0 {
            let p = current as nat * 100 / max as nat;
            Some((if p < 100 { p } else { 100 }) as u8)
        } else {
            None
        },
        Battery::ExternalPower => None,
    }
}

impl Battery {
    pub fn percent(&self) -> (p: Option<u8>)
        ensures
            p == battery_percent(*self),
    {
        match self {
            Battery::Level { current, max } => {
                if *max > 0 {
                    let c = *current as u32;
                    let m = *max as u32;
                    let p = c * 100 / m;
                    let capped = if p < 100 {
                        p
                    } else {
                        100
                    };
                    Some(capped as u8)
                } else {
                    None
                }
            },
            Battery::ExternalPower => None,
        }
    }
}

#[derive(Clone, Debug)]
pub struct DeviceInfo {
    pub model: String,
    pub manufacturer: String,
    pub storage: String,
    pub capacity: u64,
    pub free: u64,
    pub battery: Option<Battery>,
}

impl Default for DeviceInfo {
    fn default() -> (info: Self)
        ensures
            info.model@.len() == 0,
            info.manufacturer@.len() == 0,
            info.storage@.len() == 0,
            info.capacity == 0,
            info.free == 0,
            info.battery is None,
    {
        DeviceInfo {
            model: String::new(),
            manufacturer: String::new(),
            storage: String::new(),
            capacity: 0,
            free: 0,
            battery: None,
        }
    }
}

/// What one storage pool of the device reports.
pub struct StorageReport {
    pub capacity: u64,
    pub free: u64,
    pub description: Option<String>,
}

/// The label a pool is shown under: its description, else "Storage".
pub open spec fn pool_label(p: StorageReport) -> Seq<char> {
    match p.description {
        Some(d) => d@,
        None => "Storage"@,
    }
}

/// The first non-empty pool label, or empty when there is none.
pub open spec fn storage_label(pools: Seq<StorageReport>) -> Seq<char>
    decreases pools.len(),
{
    if pools.len() == 0 {
        Seq::empty()
    } else if storage_label(pools.drop_last()).len() > 0 {
        storage_label(pools.drop_last())
    } else {
        pool_label(pools.last())
    }
}

/// Total capacity of some pools.
pub open spec fn total_capacity(pools: Seq<StorageReport>) -> nat
    decreases pools.len(),
{
    if pools.len() == 0 {
        0
    } else {
        total_capacity(pools.drop_last()) + pools.last().capacity as nat
    }
}

/// Total free space of some pools.
pub open spec fn total_free(pools: Seq<StorageReport>) -> nat
    decreases pools.len(),
{
    if pools.len() == 0 {
        0
    } else {
        total_free(pools.drop_last()) + pools.last().free as nat
    }
}

proof fn lemma_pool_totals(pools: Seq<StorageReport>, k: int)
    requires
        0 <= k <= pools.len(),
    ensures
        total_capacity(pools.take(k)) <= total_capacity(pools),
        total_free(pools.take(k)) <= total_free(pools),
    decreases pools.len() - k,
{
    if k < pools.len() {
        assert(pools.take(k + 1).drop_last() =~= pools.take(k));
        lemma_pool_totals(pools, k + 1);
    } else {
        assert(pools.take(k) =~= pools);
    }
}

/// The device's identity, battery and storage: capacities and free space
/// are summed over its pools, and the storage is named after the first pool
/// that has a label.
pub fn device_info(
    model: String,
    manufacturer: String,
    battery: Option<Battery>,
    pools: &Vec<StorageReport>,
) -> (info: DeviceInfo)
    requires
        total_capacity(pools@) <= u64::MAX,
        total_free(pools@) <= u64::MAX,
    ensures
        info.model == model,
        info.manufacturer == manufacturer,
        info.battery == battery,
        info.capacity == total_capacity(pools@),
        info.free == total_free(pools@),
        info.storage@ == storage_label(pools@),
{
    let mut capacity: u64 = 0;
    let mut free: u64 = 0;
    let mut storage = String::new();
    for i in 0..pools.len()
        invariant
            total_capacity(pools@) <= u64::MAX,
            total_free(pools@) <= u64::MAX,
            capacity == total_capacity(pools@.take(i as int)),
            free == total_free(pools@.take(i as int)),
            storage@ == storage_label(pools@.take(i as int)),
    {
        proof {
            assert(pools@.take(i + 1).drop_last() =~= pools@.take(i as int));
            assert(pools@.take(i + 1).last() == pools@[i as int]);
            lemma_pool_totals(pools@, i + 1);
        }
        capacity = capacity + pools[i].capacity;
        free = free + pools[i].free;
        if storage.as_str().is_empty() {
            storage = match &pools[i].description {
                Some(d) => d.clone(),
                None => owned("Storage"),
            };
        }
    }
    assert(pools@.take(pools@.len() as int) =~= pools@);
    DeviceInfo { model, manufacturer, storage, capacity, free, battery }
}

// ---------------------------------------------------------------------------
// Filetypes
// ---------------------------------------------------------------------------

/// The MTP filetypes a device reports.
#[derive(Clone, Copy, Debug, PartialEq, Eq, Structural)]
pub enum Filetype {
    Folder,
    Wav,
    Mp3,
    Wma,
    Ogg,
    Audible,
    Mp4,
    UndefAudio,
    Wmv,
    Avi,
    Mpeg,
    Asf,
    Qt,
    UndefVideo,
    Jpeg,
    Jfif,
    Tiff,
    Bmp,
    Gif,
    Pict,
    Png,
    VCalendar1,
    VCalendar2,
    VCard2,
    VCard3,
    WindowsImageFormat,
    WinExec,
    Text,
    Html,
    Firmware,
    Aac,
    MediaCard,
    Flac,
    Mp2,
    M4a,
    Doc,
    Xml,
    Xls,
    Ppt,
    Mht,
    Jp2,
    Jpx,
    Album,
    Playlist,
    Unknown,
}

/// The filetypes the app treats as music when a device declares them.
pub open spec fn is_audio_filetype(t: Filetype) -> bool {
    match t {
        Filetype::Mp3 | Filetype::Wma | Filetype::Wav | Filetype::Ogg | Filetype::Flac
        | Filetype::M4a | Filetype::Aac | Filetype::Mp4 | Filetype::Mp2
        | Filetype::UndefAudio => true,
        _ => false,
    }
}

/// Whether a device object counts as music: a declared audio filetype, or
/// an `Unknown` one whose name has an audio extension.
pub open spec fn is_music_object(t: Filetype, name: Seq<char>) -> bool {
    is_audio_filetype(t) || (t == Filetype::Unknown && is_audio_name(name))
}

/// Whether a device object should appear as music.
///
/// The declared MTP filetype is not enough on its own: tracks put on the device
/// by other software often come back as `Unknown`, and filtering those out
/// hides files that really are there — invisible in the tree, undeletable, and
/// still taking up space. So fall back to the extension, which also keeps the
/// device's own `Unknown` files (WMPInfo.xml, DevIcon.fil) out.
pub fn is_audio_object(ftype: &Filetype, name: &str) -> (r: bool)
    ensures
        r == is_music_object(*ftype, name@),
{
    match ftype {
        Filetype::Mp3 | Filetype::Wma | Filetype::Wav | Filetype::Ogg | Filetype::Flac
        | Filetype::M4a | Filetype::Aac | Filetype::Mp4 | Filetype::Mp2
        | Filetype::UndefAudio => true,
        Filetype::Unknown => is_audio(name),
        _ => false,
    }
}

/// The filetype a file is sent as, by its extension in any ASCII case;
/// undefined audio for anything else.
pub open spec fn filetype_named(name: Seq<char>) -> Filetype {
    match extension(name) {
        Some(e) => {
            let x = ascii_lowercase(e);
            if x == "mp3"@ {
                Filetype::Mp3
            } else if x == "wma"@ {
                Filetype::Wma
            } else if x == "wav"@ {
                Filetype::Wav
            } else if x == "ogg"@ {
                Filetype::Ogg
            } else if x == "flac"@ {
                Filetype::Flac
            } else if x == "m4a"@ {
                Filetype::M4a
            } else if x == "aac"@ {
                Filetype::Aac
            } else if x == "mp4"@ {
                Filetype::Mp4
            } else if x == "mp2"@ {
                Filetype::Mp2
            } else {
                Filetype::UndefAudio
            }
        },
        None => Filetype::UndefAudio,
    }
}

/// Whatever a file is named, it is sent as an audio filetype, so the device
/// lists what the app sends as music when it is read back.
pub proof fn lemma_sent_files_list_as_music(sent_name: Seq<char>, listed_name: Seq<char>)
    ensures
        is_audio_filetype(filetype_named(sent_name)),
        is_music_object(filetype_named(sent_name), listed_name),
{
}

fn is_word(x: &[char], word: &str) -> (r: bool)
    ensures
        r == (x@ == word@),
{
    let w = chars_of(word);
    same_chars(x, w.as_slice())
}

/// The filetype a file called `name` is sent as.
pub fn filetype_for(name: &str) -> (t: Filetype)
    ensures
        t == filetype_named(name@),
{
    let cs = chars_of(name);
    match extension_of(cs.as_slice()) {
        Some(e) => {
            let x = ascii_lowercase_chars(e.as_slice());
            let x = x.as_slice();
            if is_word(x, "mp3") {
                Filetype::Mp3
            } else if is_word(x, "wma") {
                Filetype::Wma
            } else if is_word(x, "wav") {
                Filetype::Wav
            } else if is_word(x, "ogg") {
                Filetype::Ogg
            } else if is_word(x, "flac") {
                Filetype::Flac
            } else if is_word(x, "m4a") {
                Filetype::M4a
            } else if is_word(x, "aac") {
                Filetype::Aac
            } else if is_word(x, "mp4") {
                Filetype::Mp4
            } else if is_word(x, "mp2") {
                Filetype::Mp2
            } else {
                Filetype::UndefAudio
            }
        },
        None => Filetype::UndefAudio,
    }
}

/// The extension a playable filetype is known by, if it is one.
pub open spec fn filetype_extension(t: Filetype) -> Option<Seq<char>> {
    match t {
        Filetype::Mp3 => Some("mp3"@),
        Filetype::Wma => Some("wma"@),
        Filetype::Wav => Some("wav"@),
        Filetype::Ogg => Some("ogg"@),
        Filetype::Flac => Some("flac"@),
        Filetype::M4a => Some("m4a"@),
        Filetype::Aac => Some("aac"@),
        Filetype::Mp4 => Some("mp4"@),
        Filetype::Mp2 => Some("mp2"@),
        Filetype::Audible => Some("aa"@),
        _ => None,
    }
}

fn extension_for(t: Filetype) -> (e: Option<&'static str>)
    ensures
        match filetype_extension(t) {
            Some(x) => e matches Some(s) && s@ == x,
            None => e is None,
        },
{
    match t {
        Filetype::Mp3 => Some("mp3"),
        Filetype::Wma => Some("wma"),
        Filetype::Wav => Some("wav"),
        Filetype::Ogg => Some("ogg"),
        Filetype::Flac => Some("flac"),
        Filetype::M4a => Some("m4a"),
        Filetype::Aac => Some("aac"),
        Filetype::Mp4 => Some("mp4"),
        Filetype::Mp2 => Some("mp2"),
        Filetype::Audible => Some("aa"),
        _ => None,
    }
}

/// The extensions of the playable filetypes among `types`, in order.
pub open spec fn extensions_of(types: Seq<Filetype>) -> Seq<Seq<char>>
    decreases types.len(),
{
    if types.len() == 0 {
        Seq::empty()
    } else {
        match filetype_extension(types.last()) {
            Some(x) => extensions_of(types.drop_last()).push(x),
            None => extensions_of(types.drop_last()),
        }
    }
}

/// Audio extensions a device accepts, from the filetypes it reports. The
/// Zen Micro reports only nine filetypes in total and FLAC, OGG and M4A are
/// not among them, so trusting a hardcoded list would queue files it can
/// never play.
pub fn supported_extensions(types: &Vec<Filetype>) -> (out: Vec<String>)
    ensures
        out@.map_values(|s: String| s@) == extensions_of(types@),
{
    let mut out: Vec<String> = Vec::new();
    for i in 0..types.len()
        invariant
            out@.map_values(|s: String| s@) == extensions_of(types@.take(i as int)),
    {
        proof {
            assert(types@.take(i + 1).drop_last() =~= types@.take(i as int));
            assert(types@.take(i + 1).last() == types@[i as int]);
        }
        let ghost before = out@;
        match extension_for(types[i]) {
            Some(e) => {
                out.push(owned(e));
                assert(out@.map_values(|s: String| s@) =~= before.map_values(|s: String| s@).push(
                    e@,
                ));
            },
            None => {},
        }
    }
    assert(types@.take(types@.len() as int) =~= types@);
    out
}

// ---------------------------------------------------------------------------
// Listing and sending
// ---------------------------------------------------------------------------

/// How deep below the music folder the listing looks; the bound keeps a
/// pathological device tree from stalling the UI.
pub const MAX_FOLDER_DEPTH: u32 = 4;

/// What the listing does with an object found at some depth.
#[derive(Clone, Copy, Debug, PartialEq, Eq, Structural)]
pub enum ListingAction {
    /// A folder to look inside, one level deeper.
    Descend,
    /// A music object to list.
    Keep,
    /// Anything else.
    Skip,
}

pub open spec fn listing_action_spec(t: Filetype, name: Seq<char>, depth: u32) -> ListingAction {
    if t == Filetype::Folder {
        if depth < MAX_FOLDER_DEPTH {
            ListingAction::Descend
        } else {
            ListingAction::Skip
        }
    } else if is_music_object(t, name) {
        ListingAction::Keep
    } else {
        ListingAction::Skip
    }
}

/// Folders are entered while under the depth bound; music objects are
/// listed.
pub fn listing_action(ftype: Filetype, name: &str, depth: u32) -> (a: ListingAction)
    ensures
        a == listing_action_spec(ftype, name@, depth),
{
    if ftype == Filetype::Folder {
        if depth < MAX_FOLDER_DEPTH {
            ListingAction::Descend
        } else {
            ListingAction::Skip
        }
    } else if is_audio_object(&ftype, name) {
        ListingAction::Keep
    } else {
        ListingAction::Skip
    }
}

/// The order the device listing is kept in: by lowercase file name.
pub open spec fn device_rank() -> spec_fn(DeviceTrackModel) -> KeyView {
    |t: DeviceTrackModel| name_key(t.name)
}

/// Sorts device tracks stably by lowercase file name.
pub fn sort_device_tracks(tracks: &mut Vec<DeviceTrack>)
    ensures
        final(tracks)@.len() == old(tracks)@.len(),
        forall|i: int|
            0 <= i < final(tracks)@.len() ==> (#[trigger] final(tracks)@[i])@ == sort_ranked(
                device_models(old(tracks)@),
                device_rank(),
            )[i],
{
    let mut items: Vec<DeviceTrack> = Vec::new();
    std::mem::swap(&mut items, tracks);
    let ghost orig = items@;
    let mut keyed: Vec<(SortKey, DeviceTrack)> = Vec::new();
    for t in it: items.into_iter()
        invariant
            it.seq() == orig,
            keyed@.len() == it.index(),
            forall|i: int| 0 <= i < keyed@.len() ==> (#[trigger] keyed@[i]).1 == orig[i],
            forall|i: int|
                0 <= i < keyed@.len() ==> (#[trigger] keyed@[i]).0@ == device_rank()(
                    keyed@[i].1@,
                ),
    {
        let key = SortKey::text(sort_bytes_of(t.name.as_str()));
        keyed.push((key, t));
    }
    assert(item_views(keyed@) =~= device_models(orig));
    let sorted = sort_by_keys(keyed, Ghost(device_rank()));
    *tracks = sorted;
}

/// Why a track cannot be sent.
#[derive(Clone, Debug, PartialEq, Eq, Structural)]
pub enum SendRefusal {
    /// The device reported no storage at all.
    NoStorage,
    /// Even the roomiest storage, `pool`, has less room than the track needs.
    NotEnoughSpace { pool: usize, free: u64 },
}

/// The pool with the most free space; of several equally free, the last.
pub open spec fn is_roomiest(free: Seq<u64>, i: int) -> bool {
    &&& 0 <= i < free.len()
    &&& forall|j: int| 0 <= j < i ==> free[j] <= free[i]
    &&& forall|j: int| i < j < free.len() ==> free[j] < free[i]
}

/// Where a track of `size` bytes goes among pools with `free` bytes each:
/// the roomiest pool, if it has room.
pub fn plan_send(free: &Vec<u64>, size: u64) -> (r: Result<usize, SendRefusal>)
    ensures
        free@.len() == 0 <==> r == Err::<usize, SendRefusal>(SendRefusal::NoStorage),
        r matches Ok(i) ==> is_roomiest(free@, i as int) && free@[i as int] >= size,
        r matches Err(SendRefusal::NotEnoughSpace { pool: i, free: f }) ==> is_roomiest(
            free@,
            i as int,
        ) && free@[i as int] == f && f < size,
{
    if free.len() == 0 {
        return Err(SendRefusal::NoStorage);
    }
    let mut best: usize = 0;
    for i in 1..free.len()
        invariant
            1 <= free@.len(),
            best < i <= free@.len(),
            forall|j: int| 0 <= j < i ==> free@[j] <= free@[best as int],
            forall|j: int| best < j < i ==> free@[j] < free@[best as int],
    {
        if free[i] >= free[best] {
            best = i;
        }
    }
    if free[best] < size {
        let f = free[best];
        assert(is_roomiest(free@, best as int));
        Err(SendRefusal::NotEnoughSpace { pool: best, free: f })
    } else {
        Ok(best)
    }
}

/// The metadata a sent track is tagged with. The Zen builds its music menus
/// from these MTP properties, not from the file itself.
pub struct TrackProperties {
    pub filetype: Filetype,
    pub name: String,
    /// Also written as the album artist.
    pub artist: Option<String>,
    pub album: String,
    pub genre: Option<String>,
    pub track: Option<u16>,
    /// Milliseconds.
    pub duration: Option<u32>,
}

/// The properties of a sent track: its title; its artist and genre when
/// set; its album, or the placeholder album; its track number and duration
/// when non-zero, clamped to what the properties can hold.
pub open spec fn properties_ok(p: TrackProperties, t: crate::library::LocalTrackModel) -> bool {
    &&& p.filetype == filetype_named(t.file_name)
    &&& p.name@ == t.title
    &&& (if t.artist.len() == 0 { p.artist is None } else { p.artist matches Some(a) && a@ == t.artist })
    &&& p.album@ == (if t.album.len() == 0 { UNKNOWN_ALBUM@ } else { t.album })
    &&& (if t.genre.len() == 0 { p.genre is None } else { p.genre matches Some(g) && g@ == t.genre })
    &&& p.track == (if t.track_no > 0 {
        Some((if t.track_no < 0xffff { t.track_no } else { 0xffff }) as u16)
    } else {
        None
    })
    &&& p.duration == (if t.duration > 0 {
        Some((if t.duration < 0xffff_ffff { t.duration } else { 0xffff_ffff }) as u32)
    } else {
        None
    })
}

/// What a sent track is tagged with.
pub fn track_properties(track: &LocalTrack) -> (p: TrackProperties)
    ensures
        properties_ok(p, track@),
{
    let artist = if track.artist.as_str().is_empty() {
        None
    } else {
        Some(track.artist.clone())
    };
    let album = if track.album.as_str().is_empty() {
        owned(UNKNOWN_ALBUM)
    } else {
        track.album.clone()
    };
    let genre = if track.genre.as_str().is_empty() {
        None
    } else {
        Some(track.genre.clone())
    };
    let number = if track.track_no > 0 {
        let n = if track.track_no < 0xffff {
            track.track_no
        } else {
            0xffff
        };
        Some(n as u16)
    } else {
        None
    };
    let duration = if track.duration > 0 {
        let d = if track.duration < 0xffff_ffff {
            track.duration
        } else {
            0xffff_ffff
        };
        Some(d as u32)
    } else {
        None
    };
    TrackProperties {
        filetype: filetype_for(track.file_name.as_str()),
        name: track.title.clone(),
        artist,
        album,
        genre,
        track: number,
        duration,
    }
}

/// A sent track's length is written in milliseconds, exactly when it fits
/// the property and clamped to its largest value when it does not, and
/// left unwritten when unknown; its track number likewise; its name is its
/// title.
pub proof fn lemma_sent_length_and_number(p: TrackProperties, t: crate::library::LocalTrackModel)
    requires
        properties_ok(p, t),
    ensures
        0 < t.duration <= u32::MAX ==> p.duration == Some(t.duration as u32),
        t.duration > u32::MAX ==> p.duration == Some(u32::MAX),
        t.duration == 0 ==> p.duration is None,
        0 < t.track_no <= u16::MAX ==> p.track == Some(t.track_no as u16),
        t.track_no > u16::MAX ==> p.track == Some(u16::MAX),
        t.track_no == 0 ==> p.track is None,
        p.name@ == t.title,
{
}

} // verus!
