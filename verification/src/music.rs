//! The tree of music on the player: artists, their albums, and the tracks in
//! each, with the check marks used to pick tracks for deletion.

use vstd::prelude::*;
use crate::mtp::{DeviceTrack, DeviceTrackModel, device_models, UNKNOWN_ALBUM};
use crate::order::{KeyView, SortKey, sort_ranked, sort_by_keys, item_views};
use crate::text::{
    trim,
    trim_chars,
    chars_of,
    string_of,
    ascii_case_eq,
    chars_eq_ignore_ascii_case,
    sort_bytes,
    sort_bytes_of,
};

verus! {

pub const UNKNOWN_ARTIST: &'static str = "unknown artist";

#[derive(Clone, Copy, PartialEq, Eq, Debug, Structural)]
pub enum NodeKind {
    Artist,
    Album,
    Track,
}

#[derive(Clone, Copy, PartialEq, Eq, Debug, Structural)]
pub enum CheckState {
    Unchecked,
    Partial,
    Checked,
}

#[derive(Clone, Copy, PartialEq, Eq, Debug, Structural)]
pub enum NodePath {
    Artist(usize),
    Album(usize, usize),
    Track(usize, usize, usize),
}

#[derive(Debug)]
pub struct TrackNode {
    pub id: u32,
    pub title: String,
    pub size: u64,
    pub checked: bool,
}

#[derive(Debug)]
pub struct AlbumNode {
    pub name: String,
    pub expanded: bool,
    pub tracks: Vec<TrackNode>,
}

#[derive(Debug)]
pub struct ArtistNode {
    pub name: String,
    pub expanded: bool,
    pub albums: Vec<AlbumNode>,
}

#[derive(Debug)]
pub struct MusicTree {
    pub artists: Vec<ArtistNode>,
}

pub struct TrackModel {
    pub id: u32,
    pub title: Seq<char>,
    pub size: u64,
    pub checked: bool,
}

pub struct AlbumModel {
    pub name: Seq<char>,
    pub expanded: bool,
    pub tracks: Seq<TrackModel>,
}

pub struct ArtistModel {
    pub name: Seq<char>,
    pub expanded: bool,
    pub albums: Seq<AlbumModel>,
}

impl View for TrackNode {
    type V = TrackModel;

    open spec fn view(&self) -> TrackModel {
        TrackModel { id: self.id, title: self.title@, size: self.size, checked: self.checked }
    }
}

impl View for AlbumNode {
    type V = AlbumModel;

    open spec fn view(&self) -> AlbumModel {
        AlbumModel {
            name: self.name@,
            expanded: self.expanded,
            tracks: self.tracks@.map_values(|t: TrackNode| t@),
        }
    }
}

impl View for ArtistNode {
    type V = ArtistModel;

    open spec fn view(&self) -> ArtistModel {
        ArtistModel {
            name: self.name@,
            expanded: self.expanded,
            albums: self.albums@.map_values(|a: AlbumNode| a@),
        }
    }
}

impl View for MusicTree {
    type V = Seq<ArtistModel>;

    open spec fn view(&self) -> Seq<ArtistModel> {
        self.artists@.map_values(|a: ArtistNode| a@)
    }
}

impl Default for MusicTree {
    fn default() -> (tree: Self)
        ensures
            tree@ == Seq::<ArtistModel>::empty(),
    {
        let tree = MusicTree { artists: Vec::new() };
        assert(tree@ =~= Seq::<ArtistModel>::empty());
        tree
    }
}

// ---------------------------------------------------------------------------
// How tracks are grouped
// ---------------------------------------------------------------------------

/// A tag trimmed of whitespace, or `fallback` when nothing is left.
pub open spec fn label(raw: Seq<char>, fallback: Seq<char>) -> Seq<char> {
    if trim(raw).len() == 0 {
        fallback
    } else {
        trim(raw)
    }
}

/// The artist a track is filed under.
pub open spec fn artist_label(t: DeviceTrackModel) -> Seq<char> {
    label(t.artist, UNKNOWN_ARTIST@)
}

/// The album a track is filed under.
pub open spec fn album_label(t: DeviceTrackModel) -> Seq<char> {
    label(t.album, UNKNOWN_ALBUM@)
}

/// The title a track is shown under: its trimmed title tag, else its file
/// name.
pub open spec fn track_title(t: DeviceTrackModel) -> Seq<char> {
    if trim(t.title).len() == 0 {
        t.name
    } else {
        trim(t.title)
    }
}

/// The node a device track becomes, unchecked.
pub open spec fn track_model(t: DeviceTrackModel) -> TrackModel {
    TrackModel { id: t.id, title: track_title(t), size: t.size, checked: false }
}

/// The nodes device tracks become.
pub open spec fn track_models(s: Seq<DeviceTrackModel>) -> Seq<TrackModel> {
    s.map_values(|t: DeviceTrackModel| track_model(t))
}

/// The artist a track is filed under, as a function.
pub open spec fn artist_key() -> spec_fn(DeviceTrackModel) -> Seq<char> {
    |t: DeviceTrackModel| artist_label(t)
}

/// The album a track is filed under, as a function.
pub open spec fn album_key() -> spec_fn(DeviceTrackModel) -> Seq<char> {
    |t: DeviceTrackModel| album_label(t)
}

/// The artists device tracks are filed under.
pub open spec fn artist_labels(s: Seq<DeviceTrackModel>) -> Seq<Seq<char>> {
    s.map_values(artist_key())
}

/// The albums device tracks are filed under.
pub open spec fn album_labels(s: Seq<DeviceTrackModel>) -> Seq<Seq<char>> {
    s.map_values(album_key())
}

/// The items whose `key` matches `name` ignoring ASCII case.
pub open spec fn matches_name<X>(key: spec_fn(X) -> Seq<char>, name: Seq<char>) -> spec_fn(X) -> bool {
    |x: X| ascii_case_eq(key(x), name)
}

/// Both predicates hold.
pub open spec fn both<X>(p: spec_fn(X) -> bool, q: spec_fn(X) -> bool) -> spec_fn(X) -> bool {
    |x: X| p(x) && q(x)
}

/// One step of `distinct_names`: `x` joins unless a name already there
/// matches it ignoring ASCII case.
pub open spec fn distinct_step(prev: Seq<Seq<char>>, x: Seq<char>) -> Seq<Seq<char>> {
    if exists|i: int| 0 <= i < prev.len() && ascii_case_eq(#[trigger] prev[i], x) {
        prev
    } else {
        prev.push(x)
    }
}

/// The names in `names` that differ ignoring ASCII case, each spelled as it
/// first appears, in order of first appearance.
pub open spec fn distinct_names(names: Seq<Seq<char>>) -> Seq<Seq<char>>
    decreases names.len(),
{
    if names.len() == 0 {
        Seq::empty()
    } else {
        distinct_step(distinct_names(names.drop_last()), names.last())
    }
}

/// Tracks filed under artist `a`.
pub open spec fn of_artist(a: Seq<char>) -> spec_fn(DeviceTrackModel) -> bool {
    matches_name(artist_key(), a)
}

/// Tracks filed under album `b` of artist `a`.
pub open spec fn of_album(a: Seq<char>, b: Seq<char>) -> spec_fn(DeviceTrackModel) -> bool {
    both(of_artist(a), matches_name(album_key(), b))
}

/// The artists of a track list.
pub open spec fn artist_names(ts: Seq<DeviceTrackModel>) -> Seq<Seq<char>> {
    distinct_names(artist_labels(ts))
}

/// The albums of artist `a` in a track list.
pub open spec fn album_names(ts: Seq<DeviceTrackModel>, a: Seq<char>) -> Seq<Seq<char>> {
    distinct_names(album_labels(ts.filter(of_artist(a))))
}

/// Album `b` of artist `a`, its tracks in list order.
pub open spec fn grouped_album(ts: Seq<DeviceTrackModel>, a: Seq<char>, b: Seq<char>) -> AlbumModel {
    AlbumModel {
        name: b,
        expanded: false,
        tracks: track_models(ts.filter(of_album(a, b))),
    }
}

/// Artist `a` with its albums in order of first appearance.
pub open spec fn grouped_artist(ts: Seq<DeviceTrackModel>, a: Seq<char>) -> ArtistModel {
    ArtistModel {
        name: a,
        expanded: false,
        albums: album_names(ts, a).map_values(|b: Seq<char>| grouped_album(ts, a, b)),
    }
}

/// The tracks grouped by artist then album, each in order of first
/// appearance.
pub open spec fn grouped(ts: Seq<DeviceTrackModel>) -> Seq<ArtistModel> {
    artist_names(ts).map_values(|a: Seq<char>| grouped_artist(ts, a))
}

/// The key a name sorts by: its lowercase form.
pub open spec fn name_key(s: Seq<char>) -> KeyView {
    (sort_bytes(s), Seq::empty(), 0u32, Seq::empty())
}

pub open spec fn track_rank() -> spec_fn(TrackModel) -> KeyView {
    |t: TrackModel| name_key(t.title)
}

pub open spec fn album_rank() -> spec_fn(AlbumModel) -> KeyView {
    |b: AlbumModel| name_key(b.name)
}

pub open spec fn artist_rank() -> spec_fn(ArtistModel) -> KeyView {
    |a: ArtistModel| name_key(a.name)
}

/// An album with its tracks stably sorted by lowercase title.
pub open spec fn arrange_album(b: AlbumModel) -> AlbumModel {
    AlbumModel { name: b.name, expanded: b.expanded, tracks: sort_ranked(b.tracks, track_rank()) }
}

/// Albums with their tracks sorted.
pub open spec fn arranged_albums(s: Seq<AlbumModel>) -> Seq<AlbumModel> {
    s.map_values(|b: AlbumModel| arrange_album(b))
}

/// An artist with its albums, and their tracks, stably sorted by lowercase
/// name.
pub open spec fn arrange_artist(a: ArtistModel) -> ArtistModel {
    ArtistModel {
        name: a.name,
        expanded: a.expanded,
        albums: sort_ranked(arranged_albums(a.albums), album_rank()),
    }
}

/// Artists with their albums and tracks sorted.
pub open spec fn arranged_artists(s: Seq<ArtistModel>) -> Seq<ArtistModel> {
    s.map_values(|a: ArtistModel| arrange_artist(a))
}

/// The tree `build` makes of a track list: grouped by artist then album,
/// every level stably sorted by lowercase name, all collapsed and unchecked.
pub open spec fn built(ts: Seq<DeviceTrackModel>) -> Seq<ArtistModel> {
    sort_ranked(arranged_artists(grouped(ts)), artist_rank())
}

// ---------------------------------------------------------------------------
// Check marks, sizes and rows
// ---------------------------------------------------------------------------

/// One visible line of the flattened tree.
pub struct Row {
    pub kind: NodeKind,
    pub depth: i32,
    pub label: String,
    /// Zero for a track row, which shows only its size.
    pub track_count: i32,
    pub size: u64,
    pub check: CheckState,
    pub expanded: bool,
}

pub struct RowModel {
    pub kind: NodeKind,
    pub depth: i32,
    pub label: Seq<char>,
    pub track_count: i32,
    pub size: u64,
    pub check: CheckState,
    pub expanded: bool,
}

impl View for Row {
    type V = RowModel;

    open spec fn view(&self) -> RowModel {
        RowModel {
            kind: self.kind,
            depth: self.depth,
            label: self.label@,
            track_count: self.track_count,
            size: self.size,
            check: self.check,
            expanded: self.expanded,
        }
    }
}

/// The check state a single track shows.
pub open spec fn state_of(checked: bool) -> CheckState {
    if checked {
        CheckState::Checked
    } else {
        CheckState::Unchecked
    }
}

/// The state of a node from its children's: partial when any child is, or
/// when some are checked and some not; otherwise checked when any is, and
/// unchecked when none is (a node with no children is unchecked).
pub open spec fn combined(states: Seq<CheckState>) -> CheckState {
    if states.contains(CheckState::Partial) || (states.contains(CheckState::Checked)
        && states.contains(CheckState::Unchecked)) {
        CheckState::Partial
    } else if states.contains(CheckState::Checked) {
        CheckState::Checked
    } else {
        CheckState::Unchecked
    }
}

pub open spec fn track_states(ts: Seq<TrackModel>) -> Seq<CheckState> {
    ts.map_values(|t: TrackModel| state_of(t.checked))
}

pub open spec fn album_state(b: AlbumModel) -> CheckState {
    combined(track_states(b.tracks))
}

pub open spec fn album_states(bs: Seq<AlbumModel>) -> Seq<CheckState> {
    bs.map_values(|b: AlbumModel| album_state(b))
}

pub open spec fn artist_state(a: ArtistModel) -> CheckState {
    combined(album_states(a.albums))
}

/// Total bytes of some tracks.
pub open spec fn tracks_size(ts: Seq<TrackModel>) -> nat
    decreases ts.len(),
{
    if ts.len() == 0 {
        0
    } else {
        tracks_size(ts.drop_last()) + ts.last().size as nat
    }
}

/// Total bytes of some albums.
pub open spec fn albums_size(bs: Seq<AlbumModel>) -> nat
    decreases bs.len(),
{
    if bs.len() == 0 {
        0
    } else {
        albums_size(bs.drop_last()) + tracks_size(bs.last().tracks)
    }
}

/// Number of tracks in some albums.
pub open spec fn albums_track_count(bs: Seq<AlbumModel>) -> nat
    decreases bs.len(),
{
    if bs.len() == 0 {
        0
    } else {
        albums_track_count(bs.drop_last()) + bs.last().tracks.len()
    }
}

/// Every artist's total size fits in a `u64`, and its track count in a
/// `usize`.
pub open spec fn totals_fit(s: Seq<ArtistModel>) -> bool {
    forall|i: int|
        0 <= i < s.len() ==> albums_size((#[trigger] s[i]).albums) <= u64::MAX
            && albums_track_count(s[i].albums) <= usize::MAX
}

pub open spec fn artist_row(a: ArtistModel) -> RowModel {
    RowModel {
        kind: NodeKind::Artist,
        depth: 0,
        label: a.name,
        track_count: albums_track_count(a.albums) as i32,
        size: albums_size(a.albums) as u64,
        check: artist_state(a),
        expanded: a.expanded,
    }
}

pub open spec fn album_row(b: AlbumModel) -> RowModel {
    RowModel {
        kind: NodeKind::Album,
        depth: 1,
        label: b.name,
        track_count: b.tracks.len() as i32,
        size: tracks_size(b.tracks) as u64,
        check: album_state(b),
        expanded: b.expanded,
    }
}

pub open spec fn track_row(t: TrackModel) -> RowModel {
    RowModel {
        kind: NodeKind::Track,
        depth: 2,
        label: t.title,
        track_count: 0,
        size: t.size,
        check: state_of(t.checked),
        expanded: false,
    }
}

/// The rows of the tracks of album `bi` of artist `ai`.
pub open spec fn track_rows(ai: int, bi: int, ts: Seq<TrackModel>) -> Seq<(RowModel, NodePath)> {
    ts.map(|ti: int, t: TrackModel| (track_row(t), NodePath::Track(ai as usize, bi as usize, ti as usize)))
}

/// The rows of album `bi` of artist `ai`: its own, then its tracks' when it
/// is expanded.
pub open spec fn album_rows(ai: int, bi: int, b: AlbumModel) -> Seq<(RowModel, NodePath)> {
    seq![(album_row(b), NodePath::Album(ai as usize, bi as usize))] + if b.expanded {
        track_rows(ai, bi, b.tracks)
    } else {
        Seq::empty()
    }
}

/// The rows of the albums of artist `ai`.
pub open spec fn albums_rows(ai: int, bs: Seq<AlbumModel>) -> Seq<(RowModel, NodePath)>
    decreases bs.len(),
{
    if bs.len() == 0 {
        Seq::empty()
    } else {
        albums_rows(ai, bs.drop_last()) + album_rows(ai, bs.len() - 1, bs.last())
    }
}

/// The rows of artist `ai`: its own, then its albums' when it is expanded.
pub open spec fn artist_rows(ai: int, a: ArtistModel) -> Seq<(RowModel, NodePath)> {
    seq![(artist_row(a), NodePath::Artist(ai as usize))] + if a.expanded {
        albums_rows(ai, a.albums)
    } else {
        Seq::empty()
    }
}

/// Every visible row of a tree, with the node each one shows.
pub open spec fn tree_rows(s: Seq<ArtistModel>) -> Seq<(RowModel, NodePath)>
    decreases s.len(),
{
    if s.len() == 0 {
        Seq::empty()
    } else {
        tree_rows(s.drop_last()) + artist_rows(s.len() - 1, s.last())
    }
}

/// An album's tracks with their check marks set to `c`.
pub open spec fn album_checked(b: AlbumModel, c: bool) -> AlbumModel {
    AlbumModel {
        name: b.name,
        expanded: b.expanded,
        tracks: b.tracks.map_values(
            |t: TrackModel| TrackModel { id: t.id, title: t.title, size: t.size, checked: c },
        ),
    }
}

/// An artist's tracks with their check marks set to `c`.
pub open spec fn artist_checked(a: ArtistModel, c: bool) -> ArtistModel {
    ArtistModel {
        name: a.name,
        expanded: a.expanded,
        albums: a.albums.map_values(|b: AlbumModel| album_checked(b, c)),
    }
}

/// The tree after checking (or unchecking) the node at `path` and all
/// beneath it; a path that names no node changes nothing.
pub open spec fn with_checked(s: Seq<ArtistModel>, path: NodePath, c: bool) -> Seq<ArtistModel> {
    match path {
        NodePath::Artist(ai) => if ai < s.len() {
            s.update(ai as int, artist_checked(s[ai as int], c))
        } else {
            s
        },
        NodePath::Album(ai, bi) => if ai < s.len() && bi < s[ai as int].albums.len() {
            let a = s[ai as int];
            s.update(
                ai as int,
                ArtistModel {
                    name: a.name,
                    expanded: a.expanded,
                    albums: a.albums.update(bi as int, album_checked(a.albums[bi as int], c)),
                },
            )
        } else {
            s
        },
        NodePath::Track(ai, bi, ti) => if ai < s.len() && bi < s[ai as int].albums.len() && ti
            < s[ai as int].albums[bi as int].tracks.len() {
            let a = s[ai as int];
            let b = a.albums[bi as int];
            let t = b.tracks[ti as int];
            s.update(
                ai as int,
                ArtistModel {
                    name: a.name,
                    expanded: a.expanded,
                    albums: a.albums.update(
                        bi as int,
                        AlbumModel {
                            name: b.name,
                            expanded: b.expanded,
                            tracks: b.tracks.update(
                                ti as int,
                                TrackModel { id: t.id, title: t.title, size: t.size, checked: c },
                            ),
                        },
                    ),
                },
            )
        } else {
            s
        },
    }
}

/// The tree after flipping whether the artist or album at `path` is
/// expanded; a track path, or one that names no node, changes nothing.
pub open spec fn with_toggled(s: Seq<ArtistModel>, path: NodePath) -> Seq<ArtistModel> {
    match path {
        NodePath::Artist(ai) => if ai < s.len() {
            let a = s[ai as int];
            s.update(ai as int, ArtistModel { name: a.name, expanded: !a.expanded, albums: a.albums })
        } else {
            s
        },
        NodePath::Album(ai, bi) => if ai < s.len() && bi < s[ai as int].albums.len() {
            let a = s[ai as int];
            let b = a.albums[bi as int];
            s.update(
                ai as int,
                ArtistModel {
                    name: a.name,
                    expanded: a.expanded,
                    albums: a.albums.update(
                        bi as int,
                        AlbumModel { name: b.name, expanded: !b.expanded, tracks: b.tracks },
                    ),
                },
            )
        } else {
            s
        },
        NodePath::Track(..) => s,
    }
}

/// An artist and all its albums expanded, or all collapsed.
pub open spec fn artist_expanded(a: ArtistModel, e: bool) -> ArtistModel {
    ArtistModel {
        name: a.name,
        expanded: e,
        albums: a.albums.map_values(
            |b: AlbumModel| AlbumModel { name: b.name, expanded: e, tracks: b.tracks },
        ),
    }
}

/// The tracks of some albums, in order.
pub open spec fn albums_tracks(bs: Seq<AlbumModel>) -> Seq<TrackModel>
    decreases bs.len(),
{
    if bs.len() == 0 {
        Seq::empty()
    } else {
        albums_tracks(bs.drop_last()) + bs.last().tracks
    }
}

/// Every track of a tree, artist by artist and album by album.
pub open spec fn all_tracks(s: Seq<ArtistModel>) -> Seq<TrackModel>
    decreases s.len(),
{
    if s.len() == 0 {
        Seq::empty()
    } else {
        all_tracks(s.drop_last()) + albums_tracks(s.last().albums)
    }
}

/// Whether a track is checked.
pub open spec fn is_checked() -> spec_fn(TrackModel) -> bool {
    |t: TrackModel| t.checked
}

/// The ids of some tracks.
pub open spec fn ids_of(ts: Seq<TrackModel>) -> Seq<u32> {
    ts.map_values(|t: TrackModel| t.id)
}

/// The ids of the checked tracks of a tree, in tree order.
pub open spec fn checked_ids_of(s: Seq<ArtistModel>) -> Seq<u32> {
    ids_of(all_tracks(s).filter(is_checked()))
}

/// The rows pushed so far are those of `expected`.
pub open spec fn rows_match(rows: Seq<Row>, paths: Seq<NodePath>, expected: Seq<(RowModel, NodePath)>) -> bool {
    &&& rows.len() == expected.len()
    &&& paths.len() == expected.len()
    &&& forall|i: int| 0 <= i < rows.len() ==> (#[trigger] rows[i])@ == expected[i].0 && paths[i] == expected[i].1
}

// ---------------------------------------------------------------------------
// Building
// ---------------------------------------------------------------------------

/// The views of a sequence of character vectors.
pub open spec fn char_seqs(v: Seq<Vec<char>>) -> Seq<Seq<char>> {
    v.map_values(|c: Vec<char>| c@)
}

fn label_chars(raw: &str, fallback: &str) -> (out: Vec<char>)
    ensures
        out@ == label(raw@, fallback@),
{
    let raw_chars = chars_of(raw);
    let t = trim_chars(raw_chars.as_slice());
    if t.len() == 0 {
        chars_of(fallback)
    } else {
        t
    }
}

fn add_distinct(names: &mut Vec<Vec<char>>, x: &[char])
    ensures
        char_seqs(final(names)@) == distinct_step(char_seqs(old(names)@), x@),
{
    let ghost prev = char_seqs(names@);
    let n = names.len();
    for i in 0..n
        invariant
            n == names@.len(),
            prev == char_seqs(names@),
            forall|k: int| 0 <= k < i ==> !ascii_case_eq(#[trigger] prev[k], x@),
    {
        if chars_eq_ignore_ascii_case(names[i].as_slice(), x) {
            assert(ascii_case_eq(prev[i as int], x@));
            return;
        }
    }
    assert(!exists|k: int| 0 <= k < prev.len() && ascii_case_eq(#[trigger] prev[k], x@));
    names.push(vstd::slice::slice_to_vec(x));
    assert(char_seqs(names@) =~= prev.push(x@));
}

fn track_node(t: &DeviceTrack) -> (node: TrackNode)
    ensures
        node@ == track_model(t@),
{
    let raw = chars_of(t.title.as_str());
    let title = trim_chars(raw.as_slice());
    let title = if title.len() == 0 {
        t.name.clone()
    } else {
        string_of(title.as_slice())
    };
    TrackNode { id: t.id, title, size: t.size, checked: false }
}

/// The filing labels of every track, in list order.
fn labels_of(tracks: &[DeviceTrack]) -> (out: (Vec<Vec<char>>, Vec<Vec<char>>))
    ensures
        out.0@.len() == tracks@.len(),
        out.1@.len() == tracks@.len(),
        forall|k: int|
            0 <= k < tracks@.len() ==> (#[trigger] out.0@[k])@ == artist_label(tracks@[k]@)
                && out.1@[k]@ == album_label(tracks@[k]@),
{
    let mut artists: Vec<Vec<char>> = Vec::new();
    let mut albums: Vec<Vec<char>> = Vec::new();
    let n = tracks.len();
    let mut k: usize = 0;
    while k < n
        invariant
            n == tracks@.len(),
            k <= n,
            artists@.len() == k,
            albums@.len() == k,
            forall|j: int|
                0 <= j < k ==> (#[trigger] artists@[j])@ == artist_label(tracks@[j]@)
                    && albums@[j]@ == album_label(tracks@[j]@),
        decreases n - k,
    {
        let x = label_chars(tracks[k].artist.as_str(), UNKNOWN_ARTIST);
        let y = label_chars(tracks[k].album.as_str(), UNKNOWN_ALBUM);
        artists.push(x);
        albums.push(y);
        k = k + 1;
    }
    (artists, albums)
}

/// The filing labels are those of the tracks.
pub open spec fn labels_match(
    tracks: Seq<DeviceTrack>,
    artist_of: Seq<Vec<char>>,
    album_of: Seq<Vec<char>>,
) -> bool {
    &&& artist_of.len() == tracks.len()
    &&& album_of.len() == tracks.len()
    &&& forall|k: int|
        0 <= k < tracks.len() ==> (#[trigger] artist_of[k])@ == artist_label(tracks[k]@)
            && album_of[k]@ == album_label(tracks[k]@)
}

fn build_album(
    tracks: &[DeviceTrack],
    artist_of: &Vec<Vec<char>>,
    album_of: &Vec<Vec<char>>,
    a: &[char],
    b: &[char],
) -> (node: AlbumNode)
    requires
        labels_match(tracks@, artist_of@, album_of@),
    ensures
        node@ == arrange_album(grouped_album(device_models(tracks@), a@, b@)),
{
    let ghost ts = device_models(tracks@);
    let ghost pred = of_album(a@, b@);
    let mut keyed: Vec<(SortKey, TrackNode)> = Vec::new();
    for k in 0..tracks.len()
        invariant
            labels_match(tracks@, artist_of@, album_of@),
            ts == device_models(tracks@),
            pred == of_album(a@, b@),
            item_views(keyed@) == track_models(ts.take(k as int).filter(pred)),
            forall|i: int|
                0 <= i < keyed@.len() ==> (#[trigger] keyed@[i]).0@ == track_rank()(
                    keyed@[i].1@,
                ),
    {
        proof {
            ts.take(k as int).lemma_filter_push(ts[k as int], pred);
            assert(ts.take(k + 1) =~= ts.take(k as int).push(ts[k as int]));
            assert(ts[k as int] == tracks@[k as int]@);
        }
        if chars_eq_ignore_ascii_case(artist_of[k].as_slice(), a)
            && chars_eq_ignore_ascii_case(album_of[k].as_slice(), b) {
            let node = track_node(&tracks[k]);
            let key = SortKey::text(sort_bytes_of(node.title.as_str()));
            let ghost before = keyed@;
            keyed.push((key, node));
            assert(item_views(keyed@) =~= item_views(before).push(keyed@[before.len() as int].1@));
            assert(track_models(ts.take(k + 1).filter(pred)) =~= track_models(
                ts.take(k as int).filter(pred),
            ).push(track_model(ts[k as int])));
        }
    }
    assert(ts.take(tracks@.len() as int) =~= ts);
    let ghost group = grouped_album(ts, a@, b@);
    assert(item_views(keyed@) =~= group.tracks);
    let sorted = sort_by_keys(keyed, Ghost(track_rank()));
    let node = AlbumNode { name: string_of(b), expanded: false, tracks: sorted };
    assert(node@.tracks =~= sort_ranked(group.tracks, track_rank()));
    node
}

fn build_artist(
    tracks: &[DeviceTrack],
    artist_of: &Vec<Vec<char>>,
    album_of: &Vec<Vec<char>>,
    a: &[char],
) -> (node: ArtistNode)
    requires
        labels_match(tracks@, artist_of@, album_of@),
    ensures
        node@ == arrange_artist(grouped_artist(device_models(tracks@), a@)),
{
    let ghost ts = device_models(tracks@);
    let ghost pred = of_artist(a@);
    let mut names: Vec<Vec<char>> = Vec::new();
    for k in 0..tracks.len()
        invariant
            labels_match(tracks@, artist_of@, album_of@),
            ts == device_models(tracks@),
            pred == of_artist(a@),
            char_seqs(names@) == distinct_names(album_labels(ts.take(k as int).filter(pred))),
    {
        proof {
            ts.take(k as int).lemma_filter_push(ts[k as int], pred);
            assert(ts.take(k + 1) =~= ts.take(k as int).push(ts[k as int]));
            assert(ts[k as int] == tracks@[k as int]@);
        }
        let ghost before = album_labels(ts.take(k as int).filter(pred));
        if chars_eq_ignore_ascii_case(artist_of[k].as_slice(), a) {
            add_distinct(&mut names, album_of[k].as_slice());
            assert(album_labels(ts.take(k + 1).filter(pred)) =~= before.push(
                album_label(ts[k as int]),
            ));
            assert(before.push(album_label(ts[k as int])).drop_last() =~= before);
        } else {
            assert(album_labels(ts.take(k + 1).filter(pred)) =~= before);
        }
    }
    assert(ts.take(tracks@.len() as int) =~= ts);
    let ghost group = grouped_artist(ts, a@);
    assert(char_seqs(names@) =~= album_names(ts, a@));
    let mut keyed: Vec<(SortKey, AlbumNode)> = Vec::new();
    for j in 0..names.len()
        invariant
            labels_match(tracks@, artist_of@, album_of@),
            ts == device_models(tracks@),
            group == grouped_artist(ts, a@),
            char_seqs(names@) == album_names(ts, a@),
            keyed@.len() == j,
            forall|i: int|
                0 <= i < j ==> (#[trigger] keyed@[i]).1@ == arrange_album(group.albums[i]),
            forall|i: int| 0 <= i < j ==> (#[trigger] keyed@[i]).0@ == album_rank()(keyed@[i].1@),
    {
        let album = build_album(tracks, artist_of, album_of, a, names[j].as_slice());
        let key = SortKey::text(sort_bytes_of(album.name.as_str()));
        keyed.push((key, album));
    }
    assert(item_views(keyed@) =~= arranged_albums(group.albums));
    let sorted = sort_by_keys(keyed, Ghost(album_rank()));
    let node = ArtistNode { name: string_of(a), expanded: false, albums: sorted };
    assert(node@.albums =~= arrange_artist(group).albums);
    node
}


proof fn lemma_tracks_size_prefix(ts: Seq<TrackModel>, k: int)
    requires
        0 <= k <= ts.len(),
    ensures
        tracks_size(ts.take(k)) <= tracks_size(ts),
        k < ts.len() ==> tracks_size(ts.take(k + 1)) == tracks_size(ts.take(k)) + ts[k].size,
    decreases ts.len() - k,
{
    if k < ts.len() {
        assert(ts.take(k + 1).drop_last() =~= ts.take(k));
        lemma_tracks_size_prefix(ts, k + 1);
    } else {
        assert(ts.take(k) =~= ts);
    }
}

proof fn lemma_albums_prefix(bs: Seq<AlbumModel>, k: int)
    requires
        0 <= k <= bs.len(),
    ensures
        albums_size(bs.take(k)) <= albums_size(bs),
        albums_track_count(bs.take(k)) <= albums_track_count(bs),
        k < bs.len() ==> albums_size(bs.take(k + 1)) == albums_size(bs.take(k)) + tracks_size(
            bs[k].tracks,
        ),
        k < bs.len() ==> albums_track_count(bs.take(k + 1)) == albums_track_count(bs.take(k))
            + bs[k].tracks.len(),
        k < bs.len() ==> tracks_size(bs[k].tracks) <= albums_size(bs),
    decreases bs.len() - k,
{
    if k < bs.len() {
        assert(bs.take(k + 1).drop_last() =~= bs.take(k));
        lemma_albums_prefix(bs, k + 1);
    } else {
        assert(bs.take(k) =~= bs);
    }
}

proof fn lemma_rows_push(rows: Seq<Row>, paths: Seq<NodePath>, expected: Seq<(RowModel, NodePath)>, r: Row, p: NodePath)
    requires
        rows_match(rows, paths, expected),
    ensures
        rows_match(rows.push(r), paths.push(p), expected.push((r@, p))),
{
    let e = expected.push((r@, p));
    assert forall|i: int| 0 <= i < rows.len() + 1 implies (#[trigger] rows.push(r)[i])@ == e[i].0 && paths.push(p)[i] == e[i].1 by {
        if i < rows.len() {
            assert(rows.push(r)[i] == rows[i]);
        }
    }
}

/// The check state a node shows for its children's states.
fn combine(states: &Vec<CheckState>) -> (r: CheckState)
    ensures
        r == combined(states@),
{
    let mut any_checked = false;
    let mut any_unchecked = false;
    let n = states.len();
    for i in 0..n
        invariant
            n == states@.len(),
            any_checked == exists|j: int| 0 <= j < i && #[trigger] states@[j] == CheckState::Checked,
            any_unchecked == exists|j: int| 0 <= j < i && #[trigger] states@[j] == CheckState::Unchecked,
            forall|j: int| 0 <= j < i ==> #[trigger] states@[j] != CheckState::Partial,
            !(any_checked && any_unchecked),
    {
        match states[i] {
            CheckState::Partial => {
                assert(states@[i as int] == CheckState::Partial);
                assert(states@.contains(CheckState::Partial));
                return CheckState::Partial;
            },
            CheckState::Checked => any_checked = true,
            CheckState::Unchecked => any_unchecked = true,
        }
        if any_checked && any_unchecked {
            proof {
                let a = choose|j: int| 0 <= j < i + 1 && #[trigger] states@[j] == CheckState::Checked;
                let b = choose|j: int| 0 <= j < i + 1 && #[trigger] states@[j] == CheckState::Unchecked;
                assert(states@.contains(CheckState::Checked));
                assert(states@.contains(CheckState::Unchecked));
            }
            return CheckState::Partial;
        }
    }
    assert(!states@.contains(CheckState::Partial));
    if any_checked {
        proof {
            let a = choose|j: int| 0 <= j < n && #[trigger] states@[j] == CheckState::Checked;
            assert(states@.contains(CheckState::Checked));
            assert(!states@.contains(CheckState::Unchecked));
        }
        CheckState::Checked
    } else {
        assert(!states@.contains(CheckState::Checked));
        CheckState::Unchecked
    }
}

impl AlbumNode {
    fn check_state(&self) -> (r: CheckState)
        ensures
            r == album_state(self@),
    {
        let mut states: Vec<CheckState> = Vec::new();
        for k in 0..self.tracks.len()
            invariant
                states@ == track_states(self@.tracks.take(k as int)),
        {
            states.push(if self.tracks[k].checked {
                CheckState::Checked
            } else {
                CheckState::Unchecked
            });
            assert(track_states(self@.tracks.take(k + 1)) =~= track_states(self@.tracks.take(k as int)).push(state_of(self@.tracks[k as int].checked)));
        }
        assert(self@.tracks.take(self.tracks@.len() as int) =~= self@.tracks);
        combine(&states)
    }

    fn size(&self) -> (r: u64)
        requires
            tracks_size(self@.tracks) <= u64::MAX,
        ensures
            r == tracks_size(self@.tracks),
    {
        let mut total: u64 = 0;
        for k in 0..self.tracks.len()
            invariant
                tracks_size(self@.tracks) <= u64::MAX,
                total == tracks_size(self@.tracks.take(k as int)),
        {
            proof {
                lemma_tracks_size_prefix(self@.tracks, k + 1);
                lemma_tracks_size_prefix(self@.tracks, k as int);
            }
            total = total + self.tracks[k].size;
        }
        assert(self@.tracks.take(self.tracks@.len() as int) =~= self@.tracks);
        total
    }

    fn set_all_checked(&mut self, checked: bool)
        ensures
            final(self)@ == album_checked(old(self)@, checked),
    {
        let n = self.tracks.len();
        for k in 0..n
            invariant
                n == self.tracks@.len() == old(self).tracks@.len(),
                self.name == old(self).name,
                self.expanded == old(self).expanded,
                forall|j: int| 0 <= j < n ==> (#[trigger] self.tracks@[j])@ == (if j < k {
                    TrackModel { checked: checked, ..old(self).tracks@[j]@ }
                } else {
                    old(self).tracks@[j]@
                }),
        {
            self.tracks[k].checked = checked;
        }
        assert(self@.tracks =~= album_checked(old(self)@, checked).tracks);
    }
}

impl ArtistNode {
    fn check_state(&self) -> (r: CheckState)
        ensures
            r == artist_state(self@),
    {
        let mut states: Vec<CheckState> = Vec::new();
        for j in 0..self.albums.len()
            invariant
                states@ == album_states(self@.albums.take(j as int)),
        {
            states.push(self.albums[j].check_state());
            assert(album_states(self@.albums.take(j + 1)) =~= album_states(self@.albums.take(j as int)).push(album_state(self@.albums[j as int])));
        }
        assert(self@.albums.take(self.albums@.len() as int) =~= self@.albums);
        combine(&states)
    }

    fn track_count(&self) -> (r: usize)
        requires
            albums_track_count(self@.albums) <= usize::MAX,
        ensures
            r == albums_track_count(self@.albums),
    {
        let mut total: usize = 0;
        for j in 0..self.albums.len()
            invariant
                albums_track_count(self@.albums) <= usize::MAX,
                total == albums_track_count(self@.albums.take(j as int)),
        {
            proof {
                lemma_albums_prefix(self@.albums, j + 1);
                lemma_albums_prefix(self@.albums, j as int);
            }
            total = total + self.albums[j].tracks.len();
        }
        assert(self@.albums.take(self.albums@.len() as int) =~= self@.albums);
        total
    }

    fn size(&self) -> (r: u64)
        requires
            albums_size(self@.albums) <= u64::MAX,
        ensures
            r == albums_size(self@.albums),
    {
        let mut total: u64 = 0;
        for j in 0..self.albums.len()
            invariant
                albums_size(self@.albums) <= u64::MAX,
                total == albums_size(self@.albums.take(j as int)),
        {
            proof {
                lemma_albums_prefix(self@.albums, j + 1);
                lemma_albums_prefix(self@.albums, j as int);
            }
            total = total + self.albums[j].size();
        }
        assert(self@.albums.take(self.albums@.len() as int) =~= self@.albums);
        total
    }

    fn set_all_checked(&mut self, checked: bool)
        ensures
            final(self)@ == artist_checked(old(self)@, checked),
    {
        let n = self.albums.len();
        for j in 0..n
            invariant
                n == self.albums@.len() == old(self).albums@.len(),
                self.name == old(self).name,
                self.expanded == old(self).expanded,
                forall|i: int| 0 <= i < n ==> (#[trigger] self.albums@[i])@ == (if i < j {
                    album_checked(old(self).albums@[i]@, checked)
                } else {
                    old(self).albums@[i]@
                }),
        {
            self.albums[j].set_all_checked(checked);
        }
        assert(self@.albums =~= artist_checked(old(self)@, checked).albums);
    }
}

impl MusicTree {
    /// Groups tracks by artist then album. Tracks whose tags are missing are
    /// filed under explicit placeholder names rather than dropped, so nothing
    /// on the device is invisible in the tree.
    pub fn build(tracks: &[DeviceTrack]) -> (tree: Self)
        ensures
            tree@ == built(device_models(tracks@)),
    {
        let ghost ts = device_models(tracks@);
        let (artist_of, album_of) = labels_of(tracks);
        let mut names: Vec<Vec<char>> = Vec::new();
        for k in 0..tracks.len()
            invariant
                labels_match(tracks@, artist_of@, album_of@),
                ts == device_models(tracks@),
                char_seqs(names@) == distinct_names(artist_labels(ts.take(k as int))),
        {
            let ghost before = artist_labels(ts.take(k as int));
            add_distinct(&mut names, artist_of[k].as_slice());
            proof {
                assert(ts[k as int] == tracks@[k as int]@);
                assert(artist_labels(ts.take(k + 1)) =~= before.push(
                    artist_label(ts[k as int]),
                ));
                assert(before.push(artist_label(ts[k as int])).drop_last() =~= before);
            }
        }
        assert(ts.take(tracks@.len() as int) =~= ts);
        let ghost groups = grouped(ts);
        assert(char_seqs(names@) =~= artist_names(ts));
        let mut keyed: Vec<(SortKey, ArtistNode)> = Vec::new();
        for j in 0..names.len()
            invariant
                labels_match(tracks@, artist_of@, album_of@),
                ts == device_models(tracks@),
                groups == grouped(ts),
                char_seqs(names@) == artist_names(ts),
                keyed@.len() == j,
                forall|i: int|
                    0 <= i < j ==> (#[trigger] keyed@[i]).1@ == arrange_artist(groups[i]),
                forall|i: int|
                    0 <= i < j ==> (#[trigger] keyed@[i]).0@ == artist_rank()(keyed@[i].1@),
        {
            let artist = build_artist(tracks, &artist_of, &album_of, names[j].as_slice());
            let key = SortKey::text(sort_bytes_of(artist.name.as_str()));
            keyed.push((key, artist));
        }
        assert(item_views(keyed@) =~= arranged_artists(groups));
        let sorted = sort_by_keys(keyed, Ghost(artist_rank()));
        let tree = MusicTree { artists: sorted };
        assert(tree@ =~= built(ts));
        tree
    }
}


impl MusicTree {
    /// Flattens the visible rows, returning the path each row maps back to so
    /// the UI can address nodes by row index.
    pub fn rows(&self) -> (out: (Vec<Row>, Vec<NodePath>))
        requires
            totals_fit(self@),
        ensures
            rows_match(out.0@, out.1@, tree_rows(self@)),
    {
        let ghost view = self@;
        let mut rows: Vec<Row> = Vec::new();
        let mut paths: Vec<NodePath> = Vec::new();
        let n = self.artists.len();
        for ai in 0..n
            invariant
                n == self.artists@.len(),
                view == self@,
                totals_fit(view),
                rows_match(rows@, paths@, tree_rows(view.take(ai as int))),
        {
            let artist = &self.artists[ai];
            let ghost a = view[ai as int];
            assert(a == artist@);
            let count = artist.track_count();
            let row = Row {
                kind: NodeKind::Artist,
                depth: 0,
                label: artist.name.clone(),
                track_count: count as i32,
                size: artist.size(),
                check: artist.check_state(),
                expanded: artist.expanded,
            };
            let ghost head = tree_rows(view.take(ai as int)).push((row@, NodePath::Artist(ai)));
            proof {
                lemma_rows_push(rows@, paths@, tree_rows(view.take(ai as int)), row, NodePath::Artist(ai));
                assert(row@ == artist_row(a));
            }
            rows.push(row);
            paths.push(NodePath::Artist(ai));
            proof {
                assert(view.take(ai + 1).drop_last() =~= view.take(ai as int));
                assert(view.take(ai + 1).last() == a);
            }
            if artist.expanded {
                let m = artist.albums.len();
                for bi in 0..m
                    invariant
                        m == artist.albums@.len(),
                        a == artist@,
                        albums_size(a.albums) <= u64::MAX,
                        rows_match(rows@, paths@, head + albums_rows(ai as int, a.albums.take(bi as int))),
                {
                    let album = &artist.albums[bi];
                    let ghost b = a.albums[bi as int];
                    assert(b == album@);
                    proof {
                        lemma_albums_prefix(a.albums, bi as int);
                    }
                    let row = Row {
                        kind: NodeKind::Album,
                        depth: 1,
                        label: album.name.clone(),
                        track_count: album.tracks.len() as i32,
                        size: album.size(),
                        check: album.check_state(),
                        expanded: album.expanded,
                    };
                    let ghost mid = head + albums_rows(ai as int, a.albums.take(bi as int));
                    proof {
                        lemma_rows_push(rows@, paths@, mid, row, NodePath::Album(ai, bi));
                        assert(row@ == album_row(b));
                    }
                    rows.push(row);
                    paths.push(NodePath::Album(ai, bi));
                    let ghost mid2 = mid.push((row@, NodePath::Album(ai, bi)));
                    if album.expanded {
                        let t = album.tracks.len();
                        for ti in 0..t
                            invariant
                                t == album.tracks@.len(),
                                b == album@,
                                rows_match(rows@, paths@, mid2 + track_rows(ai as int, bi as int, b.tracks.take(ti as int))),
                        {
                            let track = &album.tracks[ti];
                            let row = Row {
                                kind: NodeKind::Track,
                                depth: 2,
                                label: track.title.clone(),
                                track_count: 0,
                                size: track.size,
                                check: if track.checked {
                                    CheckState::Checked
                                } else {
                                    CheckState::Unchecked
                                },
                                expanded: false,
                            };
                            proof {
                                lemma_rows_push(rows@, paths@, mid2 + track_rows(ai as int, bi as int, b.tracks.take(ti as int)), row, NodePath::Track(ai, bi, ti));
                                assert(row@ == track_row(b.tracks[ti as int]));
                                assert(track_rows(ai as int, bi as int, b.tracks.take(ti + 1)) =~= track_rows(ai as int, bi as int, b.tracks.take(ti as int)).push((track_row(b.tracks[ti as int]), NodePath::Track(ai, bi, ti))));
                                assert((mid2 + track_rows(ai as int, bi as int, b.tracks.take(ti as int))).push((row@, NodePath::Track(ai, bi, ti))) =~= mid2 + track_rows(ai as int, bi as int, b.tracks.take(ti + 1)));
                            }
                            rows.push(row);
                            paths.push(NodePath::Track(ai, bi, ti));
                        }
                        assert(b.tracks.take(t as int) =~= b.tracks);
                    }
                    proof {
                        assert(a.albums.take(bi + 1).drop_last() =~= a.albums.take(bi as int));
                        assert(a.albums.take(bi + 1).last() == b);
                        assert(albums_rows(ai as int, a.albums.take(bi + 1)) == albums_rows(ai as int, a.albums.take(bi as int)) + album_rows(ai as int, bi as int, b));
                        if album.expanded {
                            assert(mid2 + track_rows(ai as int, bi as int, b.tracks) =~= head + albums_rows(ai as int, a.albums.take(bi + 1)));
                        } else {
                            assert(mid2 + track_rows(ai as int, bi as int, b.tracks.take(0)) =~= head + albums_rows(ai as int, a.albums.take(bi + 1))) by {
                                assert(track_rows(ai as int, bi as int, b.tracks.take(0)) =~= Seq::empty());
                            }
                            assert(mid2 =~= head + albums_rows(ai as int, a.albums.take(bi + 1)));
                        }
                    }
                }
                proof {
                    assert(a.albums.take(m as int) =~= a.albums);
                    assert(head + albums_rows(ai as int, a.albums) =~= tree_rows(view.take(ai + 1)));
                }
            } else {
                assert(head =~= tree_rows(view.take(ai + 1)));
            }
        }
        assert(view.take(n as int) =~= view);
        (rows, paths)
    }

    pub fn toggle_expanded(&mut self, path: NodePath)
        ensures
            final(self)@ == with_toggled(old(self)@, path),
    {
        match path {
            NodePath::Artist(ai) => {
                if ai < self.artists.len() {
                    let e = self.artists[ai].expanded;
                    self.artists[ai].expanded = !e;
                    assert(self@ =~= with_toggled(old(self)@, path));
                } else {
                    assert(self@ =~= with_toggled(old(self)@, path));
                }
            },
            NodePath::Album(ai, bi) => {
                if ai < self.artists.len() && bi < self.artists[ai].albums.len() {
                    let e = self.artists[ai].albums[bi].expanded;
                    self.artists[ai].albums[bi].expanded = !e;
                    assert(self@[ai as int].albums =~= with_toggled(old(self)@, path)[ai as int].albums);
                    assert(self@ =~= with_toggled(old(self)@, path));
                } else {
                    assert(self@ =~= with_toggled(old(self)@, path));
                }
            },
            NodePath::Track(..) => {
                assert(self@ =~= with_toggled(old(self)@, path));
            },
        }
    }

    /// Checking a node applies to everything beneath it, which is the whole
    /// point of the tree: select an artist, delete the lot.
    pub fn set_checked(&mut self, path: NodePath, checked: bool)
        ensures
            final(self)@ == with_checked(old(self)@, path, checked),
    {
        match path {
            NodePath::Artist(ai) => {
                if ai < self.artists.len() {
                    self.artists[ai].set_all_checked(checked);
                }
                assert(self@ =~= with_checked(old(self)@, path, checked));
            },
            NodePath::Album(ai, bi) => {
                if ai < self.artists.len() && bi < self.artists[ai].albums.len() {
                    self.artists[ai].albums[bi].set_all_checked(checked);
                    assert(self@[ai as int].albums =~= with_checked(old(self)@, path, checked)[ai as int].albums);
                }
                assert(self@ =~= with_checked(old(self)@, path, checked));
            },
            NodePath::Track(ai, bi, ti) => {
                if ai < self.artists.len() && bi < self.artists[ai].albums.len() && ti
                    < self.artists[ai].albums[bi].tracks.len() {
                    self.artists[ai].albums[bi].tracks[ti].checked = checked;
                    assert(self@[ai as int].albums[bi as int].tracks =~= with_checked(old(self)@, path, checked)[ai as int].albums[bi as int].tracks);
                    assert(self@[ai as int].albums =~= with_checked(old(self)@, path, checked)[ai as int].albums);
                }
                assert(self@ =~= with_checked(old(self)@, path, checked));
            },
        }
    }

    pub fn set_all_checked(&mut self, checked: bool)
        ensures
            final(self)@ == old(self)@.map_values(|a: ArtistModel| artist_checked(a, checked)),
    {
        let n = self.artists.len();
        for i in 0..n
            invariant
                n == self.artists@.len() == old(self).artists@.len(),
                forall|j: int| 0 <= j < n ==> (#[trigger] self.artists@[j])@ == (if j < i {
                    artist_checked(old(self).artists@[j]@, checked)
                } else {
                    old(self).artists@[j]@
                }),
        {
            self.artists[i].set_all_checked(checked);
        }
        assert(self@ =~= old(self)@.map_values(|a: ArtistModel| artist_checked(a, checked)));
    }

    pub fn set_all_expanded(&mut self, expanded: bool)
        ensures
            final(self)@ == old(self)@.map_values(|a: ArtistModel| artist_expanded(a, expanded)),
    {
        let n = self.artists.len();
        for i in 0..n
            invariant
                n == self.artists@.len() == old(self).artists@.len(),
                forall|j: int| 0 <= j < n ==> (#[trigger] self.artists@[j])@ == (if j < i {
                    artist_expanded(old(self).artists@[j]@, expanded)
                } else {
                    old(self).artists@[j]@
                }),
        {
            let ghost prev = self.artists@[i as int]@;
            assert(prev == old(self)@[i as int]);
            self.artists[i].expanded = expanded;
            assert(self.artists@[i as int]@.albums =~= prev.albums);
            let m = self.artists[i].albums.len();
            for j in 0..m
                invariant
                    m == self.artists@[i as int].albums@.len() == prev.albums.len(),
                    n == self.artists@.len() == old(self).artists@.len(),
                    i < n,
                    prev == old(self)@[i as int],
                    self.artists@[i as int]@.name == prev.name,
                    self.artists@[i as int]@.expanded == expanded,
                    forall|k: int| 0 <= k < m ==> (#[trigger] self.artists@[i as int].albums@[k])@ == (if k < j {
                        AlbumModel { expanded: expanded, ..prev.albums[k] }
                    } else {
                        prev.albums[k]
                    }),
                    forall|k: int| 0 <= k < n && k != i ==> (#[trigger] self.artists@[k])@ == (if k < i {
                        artist_expanded(old(self).artists@[k]@, expanded)
                    } else {
                        old(self).artists@[k]@
                    }),
            {
                self.artists[i].albums[j].expanded = expanded;
            }
            assert(self.artists@[i as int]@ =~= artist_expanded(old(self).artists@[i as int]@, expanded)) by {
                assert(self.artists@[i as int]@.albums =~= artist_expanded(old(self).artists@[i as int]@, expanded).albums);
            }
        }
        assert(self@ =~= old(self)@.map_values(|a: ArtistModel| artist_expanded(a, expanded)));
    }

    /// Every track in the tree, artist by artist and album by album.
    pub fn tracks(&self) -> (out: Vec<&TrackNode>)
        ensures
            out@.len() == all_tracks(self@).len(),
            forall|i: int| 0 <= i < out@.len() ==> (#[trigger] out@[i])@ == all_tracks(self@)[i],
    {
        let ghost view = self@;
        let mut out: Vec<&TrackNode> = Vec::new();
        let n = self.artists.len();
        for ai in 0..n
            invariant
                n == self.artists@.len(),
                view == self@,
                out@.len() == all_tracks(view.take(ai as int)).len(),
                forall|i: int| 0 <= i < out@.len() ==> (#[trigger] out@[i])@ == all_tracks(view.take(ai as int))[i],
        {
            let artist = &self.artists[ai];
            let ghost a = view[ai as int];
            let ghost head = all_tracks(view.take(ai as int));
            assert(a == artist@);
            let m = artist.albums.len();
            for bi in 0..m
                invariant
                    m == artist.albums@.len(),
                    a == artist@,
                    out@.len() == (head + albums_tracks(a.albums.take(bi as int))).len(),
                    forall|i: int| 0 <= i < out@.len() ==> (#[trigger] out@[i])@ == (head + albums_tracks(a.albums.take(bi as int)))[i],
            {
                let album = &artist.albums[bi];
                let ghost b = a.albums[bi as int];
                let ghost mid = head + albums_tracks(a.albums.take(bi as int));
                assert(b == album@);
                let t = album.tracks.len();
                for ti in 0..t
                    invariant
                        t == album.tracks@.len(),
                        b == album@,
                        out@.len() == (mid + b.tracks.take(ti as int)).len(),
                        forall|i: int| 0 <= i < out@.len() ==> (#[trigger] out@[i])@ == (mid + b.tracks.take(ti as int))[i],
                {
                    out.push(&album.tracks[ti]);
                    assert(mid + b.tracks.take(ti + 1) =~= (mid + b.tracks.take(ti as int)).push(b.tracks[ti as int]));
                }
                proof {
                    assert(b.tracks.take(t as int) =~= b.tracks);
                    assert(a.albums.take(bi + 1).drop_last() =~= a.albums.take(bi as int));
                    assert(mid + b.tracks =~= head + albums_tracks(a.albums.take(bi + 1)));
                }
            }
            proof {
                assert(a.albums.take(m as int) =~= a.albums);
                assert(view.take(ai + 1).drop_last() =~= view.take(ai as int));
                assert(head + albums_tracks(a.albums) =~= all_tracks(view.take(ai + 1)));
            }
        }
        assert(view.take(n as int) =~= view);
        out
    }

    /// The ids of the checked tracks, in tree order.
    pub fn checked_ids(&self) -> (out: Vec<u32>)
        ensures
            out@ == checked_ids_of(self@),
    {
        let all = self.tracks();
        let ghost ts = all_tracks(self@);
        let mut out: Vec<u32> = Vec::new();
        for k in 0..all.len()
            invariant
                all@.len() == ts.len(),
                ts == all_tracks(self@),
                forall|i: int| 0 <= i < all@.len() ==> (#[trigger] all@[i])@ == ts[i],
                out@ == ids_of(ts.take(k as int).filter(is_checked())),
        {
            proof {
                ts.take(k as int).lemma_filter_push(ts[k as int], is_checked());
                assert(ts.take(k + 1) =~= ts.take(k as int).push(ts[k as int]));
                assert(all@[k as int]@ == ts[k as int]);
            }
            if all[k].checked {
                out.push(all[k].id);
                assert(ids_of(ts.take(k + 1).filter(is_checked())) =~= ids_of(ts.take(k as int).filter(is_checked())).push(ts[k as int].id));
            }
        }
        assert(ts.take(all@.len() as int) =~= ts);
        out
    }

    /// The number of tracks in the tree.
    pub fn track_count(&self) -> (n: usize)
        ensures
            n == all_tracks(self@).len(),
    {
        self.tracks().len()
    }
}


impl ArtistNode {
    /// Whether this artist's total size fits a `u64` and its track count a
    /// `usize`.
    fn totals_fit(&self) -> (r: bool)
        ensures
            r == (albums_size(self@.albums) <= u64::MAX && albums_track_count(self@.albums)
                <= usize::MAX),
    {
        let ghost bs = self@.albums;
        let mut size: u64 = 0;
        let mut count: usize = 0;
        let m = self.albums.len();
        for j in 0..m
            invariant
                m == self.albums@.len(),
                bs == self@.albums,
                size == albums_size(bs.take(j as int)),
                count == albums_track_count(bs.take(j as int)),
        {
            proof {
                lemma_albums_prefix(bs, j as int);
                lemma_albums_prefix(bs, j + 1);
            }
            let album = &self.albums[j];
            let ghost ts = bs[j as int].tracks;
            assert(ts == album@.tracks);
            let t = album.tracks.len();
            if count > usize::MAX - t {
                return false;
            }
            count = count + t;
            let mut k: usize = 0;
            while k < t
                invariant
                    k <= t == album.tracks@.len(),
                    ts == album@.tracks,
                    bs == self@.albums,
                    size == albums_size(bs.take(j as int)) + tracks_size(ts.take(k as int)),
                    albums_size(bs.take(j + 1)) == albums_size(bs.take(j as int)) + tracks_size(ts),
                    albums_size(bs.take(j + 1)) <= albums_size(bs),
                decreases t - k,
            {
                proof {
                    lemma_tracks_size_prefix(ts, k as int);
                    lemma_tracks_size_prefix(ts, k + 1);
                }
                assert(ts[k as int].size == album.tracks@[k as int].size);
                if size > u64::MAX - album.tracks[k].size {
                    assert(albums_size(bs) > u64::MAX);
                    return false;
                }
                size = size + album.tracks[k].size;
                k = k + 1;
            }
            assert(ts.take(t as int) =~= ts);
        }
        assert(bs.take(m as int) =~= bs);
        true
    }
}

impl MusicTree {
    /// Whether every artist's total size fits a `u64` and its track count a
    /// `usize`, as the rows' totals need.
    pub fn sizes_fit(&self) -> (r: bool)
        ensures
            r == totals_fit(self@),
    {
        let n = self.artists.len();
        for i in 0..n
            invariant
                n == self.artists@.len(),
                forall|j: int| 0 <= j < i ==> albums_size((#[trigger] self@[j]).albums) <= u64::MAX
                    && albums_track_count(self@[j].albums) <= usize::MAX,
        {
            if !self.artists[i].totals_fit() {
                assert(self@[i as int] == self.artists@[i as int]@);
                return false;
            }
        }
        true
    }
}

} // verus!
