//! Local music files: which files count as audio, the track a file's tags
//! describe, and the order a scanned library is listed in.

use vstd::prelude::*;
use std::path::PathBuf;
use crate::order::{KeyView, SortKey, sort_ranked, sort_by_keys, item_views};
use crate::text::{
    ascii_lowercase,
    ascii_lowercase_chars,
    chars_of,
    extension,
    extension_of,
    file_name,
    last_of,
    lemma_ascii_lowercase_keeps_marks,
    lemma_ascii_lowercase_shape,
    lemma_file_name_lowercase,
    lemma_last_of,
    same_chars,
    sort_bytes,
    sort_bytes_of,
};

verus! {

/// `PathBuf` is carried through the library unread; the application resolves
/// paths against the file system.
#[verifier::external_type_specification]
#[verifier::external_body]
pub struct ExPathBuf(PathBuf);

/// `PathBuf::clone`: the copy names the same path.
pub assume_specification[ <PathBuf as Clone>::clone ](p: &PathBuf) -> (q: PathBuf)
    ensures
        q == *p,
;

/// A local audio file and what its tags say.
#[derive(Clone, Debug)]
pub struct LocalTrack {
    pub path: PathBuf,
    pub file_name: String,
    pub title: String,
    pub artist: String,
    pub album: String,
    pub genre: String,
    pub track_no: u32,
    /// Playing time in milliseconds; zero when it could not be read.
    pub duration: u64,
    pub size: u64,
    /// False when the file carried no usable title tag, so `title` is really the
    /// filename. Such a track still transfers, but shows up on the Zen under its
    /// filename, which is worth warning about before sending.
    pub tagged: bool,
}

pub struct LocalTrackModel {
    pub path: PathBuf,
    pub file_name: Seq<char>,
    pub title: Seq<char>,
    pub artist: Seq<char>,
    pub album: Seq<char>,
    pub genre: Seq<char>,
    pub track_no: u32,
    pub duration: u64,
    pub size: u64,
    pub tagged: bool,
}

impl View for LocalTrack {
    type V = LocalTrackModel;

    open spec fn view(&self) -> LocalTrackModel {
        LocalTrackModel {
            path: self.path,
            file_name: self.file_name@,
            title: self.title@,
            artist: self.artist@,
            album: self.album@,
            genre: self.genre@,
            track_no: self.track_no,
            duration: self.duration,
            size: self.size,
            tagged: self.tagged,
        }
    }
}

/// The views of some local tracks.
pub open spec fn local_models(s: Seq<LocalTrack>) -> Seq<LocalTrackModel> {
    s.map_values(|t: LocalTrack| t@)
}

pub const AUDIO_EXTENSIONS: [&'static str; 9] = [
    "mp3",
    "wma",
    "wav",
    "ogg",
    "flac",
    "m4a",
    "aac",
    "mp4",
    "mp2",
];

/// Whether `e` is one of the audio extensions, compared exactly.
pub open spec fn is_audio_extension(e: Seq<char>) -> bool {
    exists|i: int| 0 <= i < 9 && (#[trigger] AUDIO_EXTENSIONS[i])@ == e
}

/// Whether a file name has an audio extension, in any ASCII case.
pub open spec fn is_audio_name(name: Seq<char>) -> bool {
    match extension(name) {
        Some(e) => is_audio_extension(ascii_lowercase(e)),
        None => false,
    }
}

/// Whether the characters `e` are one of the audio extensions.
pub fn audio_extension(e: &[char]) -> (r: bool)
    ensures
        r == is_audio_extension(e@),
{
    let mut i: usize = 0;
    while i < 9
        invariant
            i <= 9,
            forall|j: int| 0 <= j < i ==> (#[trigger] AUDIO_EXTENSIONS[j])@ != e@,
        decreases 9 - i,
    {
        let candidate = chars_of(AUDIO_EXTENSIONS[i]);
        if same_chars(candidate.as_slice(), e) {
            return true;
        }
        i = i + 1;
    }
    false
}

/// Whether the file called `name` is audio, judged by its extension in any
/// ASCII case.
pub fn is_audio(name: &str) -> (r: bool)
    ensures
        r == is_audio_name(name@),
{
    let cs = chars_of(name);
    match extension_of(cs.as_slice()) {
        Some(e) => {
            let lower = ascii_lowercase_chars(e.as_slice());
            audio_extension(lower.as_slice())
        },
        None => false,
    }
}

/// What a file's primary tag (or, failing that, its first tag) holds.
pub struct TagInfo {
    pub title: Option<String>,
    pub artist: Option<String>,
    pub album: Option<String>,
    pub genre: Option<String>,
    pub track: Option<u32>,
}

/// The tag a file's fields are read from: its primary tag, or failing that
/// the first tag it carries.
pub fn tag_to_read(primary: Option<TagInfo>, first: Option<TagInfo>) -> (t: Option<TagInfo>)
    ensures
        t == (if primary is Some {
            primary
        } else {
            first
        }),
{
    match primary {
        Some(tag) => Some(tag),
        None => first,
    }
}

/// A tag field's text, or empty when the field is absent.
pub open spec fn text_or_empty(field: Option<String>) -> Seq<char> {
    match field {
        Some(s) => s@,
        None => Seq::empty(),
    }
}

fn take_or_empty(field: Option<String>) -> (out: String)
    ensures
        out@ == text_or_empty(field),
{
    match field {
        Some(s) => s,
        None => String::new(),
    }
}

/// The track a file describes. A file whose tags carry a title is tagged
/// and takes its fields from them, missing ones empty (track number zero);
/// any other file falls back to its file stem as title and is untagged —
/// the Zen shows the title field, so an empty one would leave the track
/// unidentifiable on the device.
pub fn track_from_tags(
    path: PathBuf,
    file_name: String,
    stem: String,
    size: u64,
    duration: u64,
    tag: Option<TagInfo>,
) -> (t: LocalTrack)
    ensures
        t@.path == path,
        t@.file_name == file_name@,
        t@.size == size,
        t@.duration == duration,
        match tag {
            Some(info) => match info.title {
                Some(title) => {
                    &&& t@.tagged
                    &&& t@.title == title@
                    &&& t@.artist == text_or_empty(info.artist)
                    &&& t@.album == text_or_empty(info.album)
                    &&& t@.genre == text_or_empty(info.genre)
                    &&& t@.track_no == (match info.track {
                        Some(n) => n,
                        None => 0u32,
                    })
                },
                None => !t@.tagged && t@.title == stem@ && t@.artist.len() == 0
                    && t@.album.len() == 0 && t@.genre.len() == 0 && t@.track_no == 0,
            },
            None => !t@.tagged && t@.title == stem@ && t@.artist.len() == 0 && t@.album.len()
                == 0 && t@.genre.len() == 0 && t@.track_no == 0,
        },
{
    let untagged = LocalTrack {
        path,
        file_name,
        title: stem,
        artist: String::new(),
        album: String::new(),
        genre: String::new(),
        track_no: 0,
        duration,
        size,
        tagged: false,
    };
    match tag {
        Some(info) => match info.title {
            Some(title) => {
                let track_no = match info.track {
                    Some(n) => n,
                    None => 0,
                };
                LocalTrack {
                    title,
                    artist: take_or_empty(info.artist),
                    album: take_or_empty(info.album),
                    genre: take_or_empty(info.genre),
                    track_no,
                    tagged: true,
                    ..untagged
                }
            },
            None => untagged,
        },
        None => untagged,
    }
}

/// The order a local library is listed in: by lowercase artist, then
/// lowercase album, then track number, then lowercase title.
pub open spec fn local_rank() -> spec_fn(LocalTrackModel) -> KeyView {
    |t: LocalTrackModel| (sort_bytes(t.artist), sort_bytes(t.album), t.track_no, sort_bytes(t.title))
}

/// Sorts tracks stably by artist, album, track number and title, ignoring
/// case.
pub fn sort_tracks(tracks: &mut Vec<LocalTrack>)
    ensures
        final(tracks)@.len() == old(tracks)@.len(),
        forall|i: int|
            0 <= i < final(tracks)@.len() ==> (#[trigger] final(tracks)@[i])@ == sort_ranked(
                local_models(old(tracks)@),
                local_rank(),
            )[i],
{
    let mut items: Vec<LocalTrack> = Vec::new();
    std::mem::swap(&mut items, tracks);
    let ghost orig = items@;
    let mut keyed: Vec<(SortKey, LocalTrack)> = Vec::new();
    for t in it: items.into_iter()
        invariant
            it.seq() == orig,
            keyed@.len() == it.index(),
            forall|i: int| 0 <= i < keyed@.len() ==> (#[trigger] keyed@[i]).1 == orig[i],
            forall|i: int|
                0 <= i < keyed@.len() ==> (#[trigger] keyed@[i]).0@ == local_rank()(
                    keyed@[i].1@,
                ),
    {
        let key = SortKey {
            first: sort_bytes_of(t.artist.as_str()),
            second: sort_bytes_of(t.album.as_str()),
            number: t.track_no,
            last: sort_bytes_of(t.title.as_str()),
        };
        keyed.push((key, t));
    }
    assert(item_views(keyed@) =~= local_models(orig));
    let sorted = sort_by_keys(keyed, Ghost(local_rank()));
    *tracks = sorted;
}

/// Whether a file counts as audio does not depend on the case of its name.
pub proof fn lemma_audio_check_ignores_case(name: Seq<char>)
    ensures
        is_audio_name(ascii_lowercase(name)) == is_audio_name(name),
{
    lemma_file_name_lowercase(name);
    match file_name(name) {
        Some(f) => {
            lemma_ascii_lowercase_keeps_marks(f, '.');
            lemma_ascii_lowercase_shape(f);
            lemma_last_of(f, '.');
            let d = last_of(f, '.');
            if d > 0 && f != seq!['.', '.'] {
                let e = f.skip(d + 1);
                assert(ascii_lowercase(f).skip(d + 1) =~= ascii_lowercase(e));
                lemma_ascii_lowercase_shape(e);
            }
        },
        None => {},
    }
}

/// The nine audio extensions, in any ASCII case, make a file audio, and no
/// other name is.
pub proof fn lemma_the_audio_extensions(name: Seq<char>)
    ensures
        forall|i: int|
            0 <= i < 9 && extension(name) == Some((#[trigger] AUDIO_EXTENSIONS[i])@) ==> is_audio_name(name),
        is_audio_name(name) == match extension(name) {
            Some(e) => {
                let x = ascii_lowercase(e);
                ||| x == "mp3"@
                ||| x == "wma"@
                ||| x == "wav"@
                ||| x == "ogg"@
                ||| x == "flac"@
                ||| x == "m4a"@
                ||| x == "aac"@
                ||| x == "mp4"@
                ||| x == "mp2"@
            },
            None => false,
        },
{
    reveal_strlit("mp3");
    reveal_strlit("wma");
    reveal_strlit("wav");
    reveal_strlit("ogg");
    reveal_strlit("flac");
    reveal_strlit("m4a");
    reveal_strlit("aac");
    reveal_strlit("mp4");
    reveal_strlit("mp2");
    assert forall|i: int| 0 <= i < 9 implies ascii_lowercase((#[trigger] AUDIO_EXTENSIONS[i])@)
        == AUDIO_EXTENSIONS[i]@ by {
        let e = AUDIO_EXTENSIONS[i]@;
        assert(ascii_lowercase(e) =~= e);
    }
    assert(AUDIO_EXTENSIONS[0]@ == "mp3"@);
    assert(AUDIO_EXTENSIONS[1]@ == "wma"@);
    assert(AUDIO_EXTENSIONS[2]@ == "wav"@);
    assert(AUDIO_EXTENSIONS[3]@ == "ogg"@);
    assert(AUDIO_EXTENSIONS[4]@ == "flac"@);
    assert(AUDIO_EXTENSIONS[5]@ == "m4a"@);
    assert(AUDIO_EXTENSIONS[6]@ == "aac"@);
    assert(AUDIO_EXTENSIONS[7]@ == "mp4"@);
    assert(AUDIO_EXTENSIONS[8]@ == "mp2"@);
}

} // verus!
