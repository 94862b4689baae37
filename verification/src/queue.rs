//! The transfer queue: what was dropped on the app, and for each entry
//! whether it can go to the player and why not.

use vstd::prelude::*;
use std::path::PathBuf;
use crate::library::{LocalTrack, LocalTrackModel, is_audio, is_audio_name};
use crate::text::{
    ascii_lowercase,
    ascii_lowercase_chars,
    chars_of,
    extension,
    extension_of,
    lowercased,
    same_chars,
    to_lowercase,
};

verus! {

#[derive(Clone, Debug, PartialEq, Eq, Structural)]
pub enum Issue {
    Ready,
    /// Transferable, but the Zen will list it under its filename.
    NoTags,
    UnsupportedFormat,
    /// A real audio file, but not a format this particular device accepts.
    UnsupportedByDevice,
    Unreadable,
    AlreadyOnDevice,
    NotEnoughSpace,
}

/// Whether an entry with this issue stays behind when the queue is sent.
pub open spec fn blocks(issue: Issue) -> bool {
    !(issue == Issue::Ready || issue == Issue::NoTags)
}

/// The mark shown beside an entry.
pub open spec fn issue_glyph(issue: Issue) -> Seq<char> {
    match issue {
        Issue::Ready => "✓"@,
        Issue::NoTags => "⚠"@,
        _ => "✕"@,
    }
}

/// The explanation shown beside an entry.
pub open spec fn issue_message(issue: Issue) -> Seq<char> {
    match issue {
        Issue::Ready => ""@,
        Issue::NoTags => "No tags — will show as the filename"@,
        Issue::UnsupportedFormat => "Not an audio file"@,
        Issue::UnsupportedByDevice => "The ZEN cannot play this format"@,
        Issue::Unreadable => "Could not read this file"@,
        Issue::AlreadyOnDevice => "Already on the ZEN"@,
        Issue::NotEnoughSpace => "Not enough space on the ZEN"@,
    }
}

impl Issue {
    /// Whether this entry is excluded from the transfer. `NoTags` is advisory:
    /// the file still plays on the Zen, it just shows an ugly title.
    pub fn blocks_transfer(&self) -> (r: bool)
        ensures
            r == blocks(*self),
    {
        match self {
            Issue::Ready | Issue::NoTags => false,
            _ => true,
        }
    }

    pub fn glyph(&self) -> (g: &'static str)
        ensures
            g@ == issue_glyph(*self),
    {
        match self {
            Issue::Ready => "✓",
            Issue::NoTags => "⚠",
            _ => "✕",
        }
    }

    pub fn message(&self) -> (m: &'static str)
        ensures
            m@ == issue_message(*self),
    {
        match self {
            Issue::Ready => "",
            Issue::NoTags => "No tags — will show as the filename",
            Issue::UnsupportedFormat => "Not an audio file",
            Issue::UnsupportedByDevice => "The ZEN cannot play this format",
            Issue::Unreadable => "Could not read this file",
            Issue::AlreadyOnDevice => "Already on the ZEN",
            Issue::NotEnoughSpace => "Not enough space on the ZEN",
        }
    }
}

#[derive(Clone, Debug)]
pub struct QueuedFile {
    pub path: PathBuf,
    pub name: String,
    pub size: u64,
    /// `None` when the file could not be parsed, in which case `issue` explains why.
    pub track: Option<LocalTrack>,
    pub issue: Issue,
}

pub struct QueuedModel {
    pub path: PathBuf,
    pub name: Seq<char>,
    pub size: u64,
    pub track: Option<LocalTrackModel>,
    pub issue: Issue,
}

impl View for QueuedFile {
    type V = QueuedModel;

    open spec fn view(&self) -> QueuedModel {
        QueuedModel {
            path: self.path,
            name: self.name@,
            size: self.size,
            track: match self.track {
                Some(t) => Some(t@),
                None => None,
            },
            issue: self.issue,
        }
    }
}

/// The views of some queue entries.
pub open spec fn queued_models(s: Seq<QueuedFile>) -> Seq<QueuedModel> {
    s.map_values(|f: QueuedFile| f@)
}

/// What the device contributes to evaluation. Without one (`None` where a
/// device is expected) the duplicate and space checks cannot be made yet.
pub struct DeviceState {
    pub free_space: u64,
    /// Lowercased names of the tracks already on the device.
    pub track_names: Vec<String>,
    /// Lowercase extensions the device reported as supported. Empty means it
    /// told us nothing, in which case the check is skipped rather than
    /// rejecting everything.
    pub supported_extensions: Vec<String>,
}

pub struct DeviceStateModel {
    pub free_space: u64,
    pub track_names: Seq<Seq<char>>,
    pub supported_extensions: Seq<Seq<char>>,
}

/// The views of some strings.
pub open spec fn string_views(s: Seq<String>) -> Seq<Seq<char>> {
    s.map_values(|x: String| x@)
}

impl View for DeviceState {
    type V = DeviceStateModel;

    open spec fn view(&self) -> DeviceStateModel {
        DeviceStateModel {
            free_space: self.free_space,
            track_names: string_views(self.track_names@),
            supported_extensions: string_views(self.supported_extensions@),
        }
    }
}

/// The device's view, if there is a device.
pub open spec fn device_model(device: Option<&DeviceState>) -> Option<DeviceStateModel> {
    match device {
        Some(d) => Some(d@),
        None => None,
    }
}

// ---------------------------------------------------------------------------
// Evaluation
// ---------------------------------------------------------------------------

/// The extension a queued name is checked against: its extension in ASCII
/// lowercase, or nothing when it has none.
pub open spec fn extension_key(name: Seq<char>) -> Seq<char> {
    match extension(name) {
        Some(e) => ascii_lowercase(e),
        None => Seq::empty(),
    }
}

/// One entry's verdict, given the bytes already committed to the entries
/// before it, and the bytes committed after it. An entry that could not be
/// parsed keeps its issue; the rest are checked against the device's
/// formats, its tracks, then its free space, and only a passing entry
/// commits its size.
pub open spec fn step(device: Option<DeviceStateModel>, committed: nat, f: QueuedModel) -> (Issue, nat) {
    match f.track {
        None => (f.issue, committed),
        Some(t) => {
            let passed = if t.tagged {
                Issue::Ready
            } else {
                Issue::NoTags
            };
            match device {
                Some(d) => if d.supported_extensions.len() > 0 && !d.supported_extensions.contains(
                    extension_key(f.name),
                ) {
                    (Issue::UnsupportedByDevice, committed)
                } else if d.track_names.contains(lowercased(f.name)) {
                    (Issue::AlreadyOnDevice, committed)
                } else if committed + f.size > d.free_space {
                    (Issue::NotEnoughSpace, committed)
                } else {
                    (passed, committed + f.size as nat)
                },
                None => (passed, committed + f.size as nat),
            }
        },
    }
}

/// The verdicts for a queue, in order, and the bytes they commit.
pub open spec fn evaluation(files: Seq<QueuedModel>, device: Option<DeviceStateModel>) -> (Seq<Issue>, nat)
    decreases files.len(),
{
    if files.len() == 0 {
        (Seq::empty(), 0)
    } else {
        let (issues, committed) = evaluation(files.drop_last(), device);
        let (issue, after) = step(device, committed, files.last());
        (issues.push(issue), after)
    }
}

/// Total bytes of some queue entries.
pub open spec fn queue_size(files: Seq<QueuedModel>) -> nat
    decreases files.len(),
{
    if files.len() == 0 {
        0
    } else {
        queue_size(files.drop_last()) + files.last().size as nat
    }
}

proof fn lemma_evaluation_shape(files: Seq<QueuedModel>, device: Option<DeviceStateModel>)
    ensures
        evaluation(files, device).0.len() == files.len(),
        evaluation(files, device).1 <= queue_size(files),
    decreases files.len(),
{
    if files.len() > 0 {
        lemma_evaluation_shape(files.drop_last(), device);
    }
}

proof fn lemma_queue_size_prefix(files: Seq<QueuedModel>, k: int)
    requires
        0 <= k <= files.len(),
    ensures
        queue_size(files.take(k)) <= queue_size(files),
        k < files.len() ==> queue_size(files.take(k + 1)) == queue_size(files.take(k)) + files[k].size,
    decreases files.len() - k,
{
    if k < files.len() {
        assert(files.take(k + 1).drop_last() =~= files.take(k));
        lemma_queue_size_prefix(files, k + 1);
    } else {
        assert(files.take(k) =~= files);
    }
}

/// Whether evaluation adds this entry's size to the bytes committed before
/// it: a parsed entry that the device, when there is one, can play and does
/// not hold already.
pub open spec fn reaches_space_check(device: Option<DeviceStateModel>, f: QueuedModel) -> bool {
    &&& f.track is Some
    &&& match device {
        Some(d) => !(d.supported_extensions.len() > 0 && !d.supported_extensions.contains(
            extension_key(f.name),
        )) && !d.track_names.contains(lowercased(f.name)),
        None => true,
    }
}

/// Every sum evaluation forms, of the bytes committed before an entry and
/// the entry's size, fits in a `u64`.
pub open spec fn sums_fit(files: Seq<QueuedModel>, device: Option<DeviceStateModel>) -> bool {
    forall|i: int|
        0 <= i < files.len() && reaches_space_check(device, #[trigger] files[i]) ==> evaluation(
            files.take(i),
            device,
        ).1 + files[i].size <= u64::MAX
}

/// A queue whose sizes sum within a `u64` has every sum evaluation forms
/// within it too.
pub proof fn lemma_sums_fit_within_size(files: Seq<QueuedModel>, device: Option<DeviceStateModel>)
    requires
        queue_size(files) <= u64::MAX,
    ensures
        sums_fit(files, device),
{
    assert forall|i: int| 0 <= i < files.len() && reaches_space_check(device, #[trigger] files[i]) implies evaluation(
        files.take(i),
        device,
    ).1 + files[i].size <= u64::MAX by {
        lemma_evaluation_shape(files.take(i), device);
        lemma_queue_size_prefix(files, i);
        lemma_queue_size_prefix(files, i + 1);
    }
}

/// Whether `list` holds a string equal to `x`.
fn contains_text(list: &Vec<String>, x: &[char]) -> (r: bool)
    ensures
        r == string_views(list@).contains(x@),
{
    let n = list.len();
    for i in 0..n
        invariant
            n == list@.len(),
            forall|j: int| 0 <= j < i ==> (#[trigger] list@[j])@ != x@,
    {
        let candidate = chars_of(list[i].as_str());
        if same_chars(candidate.as_slice(), x) {
            assert(string_views(list@)[i as int] == x@);
            return true;
        }
    }
    assert forall|j: int| 0 <= j < string_views(list@).len() implies string_views(list@)[j] != x@ by {
        assert(list@[j]@ != x@);
    }
    false
}

/// The characters a queued name's extension is checked as.
fn extension_key_of(name: &str) -> (out: Vec<char>)
    ensures
        out@ == extension_key(name@),
{
    let cs = chars_of(name);
    match extension_of(cs.as_slice()) {
        Some(e) => ascii_lowercase_chars(e.as_slice()),
        None => Vec::new(),
    }
}

/// Recomputes every entry's issue. Must run whenever the queue or the device
/// state changes, since space and duplicate checks depend on both. Only the
/// issues change.
pub fn evaluate(files: &mut Vec<QueuedFile>, device: Option<&DeviceState>)
    requires
        sums_fit(queued_models(old(files)@), device_model(device)),
    ensures
        final(files)@.len() == old(files)@.len(),
        forall|i: int|
            0 <= i < final(files)@.len() ==> (#[trigger] final(files)@[i])@ == (QueuedModel {
                issue: evaluation(queued_models(old(files)@), device_model(device)).0[i],
                ..old(files)@[i]@
            }),
{
    let ghost orig = queued_models(files@);
    let ghost dev = device_model(device);
    proof {
        lemma_evaluation_shape(orig, dev);
    }
    let mut committed: u64 = 0;
    let n = files.len();
    for i in 0..n
        invariant
            n == files@.len() == orig.len(),
            orig == queued_models(old(files)@),
            dev == device_model(device),
            sums_fit(orig, dev),
            evaluation(orig, dev).0.len() == orig.len(),
            committed == evaluation(orig.take(i as int), dev).1,
            forall|j: int|
                0 <= j < n ==> (#[trigger] files@[j])@ == (if j < i {
                    (QueuedModel { issue: evaluation(orig.take(i as int), dev).0[j], ..orig[j] })
                } else {
                    orig[j]
                }),
    {
        let ghost pre = orig.take(i as int);
        proof {
            assert(orig.take(i + 1).drop_last() =~= pre);
            assert(orig.take(i + 1).last() == orig[i as int]);
            lemma_evaluation_shape(pre, dev);
            assert(files@[i as int]@ == orig[i as int]);
        }
        if files[i].track.is_some() {
            let untagged = match &files[i].track {
                Some(t) => !t.tagged,
                None => false,
            };
            let issue = match device {
                Some(d) => {
                    let ext = extension_key_of(files[i].name.as_str());
                    if d.supported_extensions.len() > 0 && !contains_text(
                        &d.supported_extensions,
                        ext.as_slice(),
                    ) {
                        Issue::UnsupportedByDevice
                    } else {
                        let lower = to_lowercase(files[i].name.as_str());
                        let lower_chars = chars_of(lower.as_str());
                        if contains_text(&d.track_names, lower_chars.as_slice()) {
                            Issue::AlreadyOnDevice
                        } else if committed + files[i].size > d.free_space {
                            Issue::NotEnoughSpace
                        } else {
                            committed = committed + files[i].size;
                            if untagged {
                                Issue::NoTags
                            } else {
                                Issue::Ready
                            }
                        }
                    }
                },
                None => {
                    committed = committed + files[i].size;
                    if untagged {
                        Issue::NoTags
                    } else {
                        Issue::Ready
                    }
                },
            };
            files[i].issue = issue;
        }
        proof {
            assert(evaluation(orig.take(i + 1), dev).0 =~= evaluation(pre, dev).0.push(
                evaluation(orig.take(i + 1), dev).0[i as int],
            ));
        }
    }
    assert(orig.take(n as int) =~= orig);
}

/// Indices of the entries that will be sent, in queue order.
pub open spec fn sendable(issues: Seq<Issue>) -> Seq<usize>
    decreases issues.len(),
{
    if issues.len() == 0 {
        Seq::empty()
    } else if blocks(issues.last()) {
        sendable(issues.drop_last())
    } else {
        sendable(issues.drop_last()).push((issues.len() - 1) as usize)
    }
}

/// The issues of some queue entries.
pub open spec fn issues_of(files: Seq<QueuedModel>) -> Seq<Issue> {
    files.map_values(|f: QueuedModel| f.issue)
}

/// Indices of the entries whose issue does not block the transfer.
pub fn transferable(files: &Vec<QueuedFile>) -> (out: Vec<usize>)
    ensures
        out@ == sendable(issues_of(queued_models(files@))),
{
    let ghost issues = issues_of(queued_models(files@));
    let mut out: Vec<usize> = Vec::new();
    for i in 0..files.len()
        invariant
            issues == issues_of(queued_models(files@)),
            out@ == sendable(issues.take(i as int)),
    {
        proof {
            assert(issues.take(i + 1).drop_last() =~= issues.take(i as int));
            assert(issues.take(i + 1).last() == files@[i as int].issue);
        }
        if !files[i].issue.blocks_transfer() {
            out.push(i);
        }
    }
    assert(issues.take(files@.len() as int) =~= issues);
    out
}

/// The entries a transfer sends are exactly those whose issue does not
/// block it, each once, in queue order.
pub proof fn lemma_sendable_is_the_unblocked(issues: Seq<Issue>)
    requires
        issues.len() <= usize::MAX,
    ensures
        forall|k: int|
            0 <= k < sendable(issues).len() ==> (#[trigger] sendable(issues)[k]) < issues.len()
                && !blocks(issues[sendable(issues)[k] as int]),
        forall|k: int, l: int|
            0 <= k < l < sendable(issues).len() ==> (#[trigger] sendable(issues)[k]) < (
            #[trigger] sendable(issues)[l]),
        forall|i: int| 0 <= i < issues.len() && !blocks(#[trigger] issues[i]) ==> sendable(issues).contains(i as usize),
    decreases issues.len(),
{
    if issues.len() > 0 {
        let prev = issues.drop_last();
        lemma_sendable_is_the_unblocked(prev);
        let sp = sendable(prev);
        let s = sendable(issues);
        let n = issues.len() - 1;
        assert forall|k: int| 0 <= k < s.len() implies (#[trigger] s[k]) < issues.len() && !blocks(
            issues[s[k] as int],
        ) by {
            if k < sp.len() {
                assert(s[k] == sp[k]);
                assert(prev[sp[k] as int] == issues[sp[k] as int]);
            }
        }
        assert forall|k: int, l: int| 0 <= k < l < s.len() implies (#[trigger] s[k]) < (#[trigger] s[l]) by {
            assert(s[k] == sp[k]);
            assert(sp[k] < prev.len());
            if l < sp.len() {
                assert(s[l] == sp[l]);
            }
        }
        assert forall|i: int| 0 <= i < issues.len() && !blocks(#[trigger] issues[i]) implies s.contains(
            i as usize,
        ) by {
            if i < n {
                assert(prev[i] == issues[i]);
                assert(sp.contains(i as usize));
                let k = choose|k: int| 0 <= k < sp.len() && sp[k] == i as usize;
                assert(s[k] == sp[k]);
            } else {
                assert(s[s.len() - 1] == i as usize);
            }
        }
    }
}

/// Total bytes of the queue.
pub fn total_size(files: &Vec<QueuedFile>) -> (total: u64)
    requires
        queue_size(queued_models(files@)) <= u64::MAX,
    ensures
        total == queue_size(queued_models(files@)),
{
    let ghost models = queued_models(files@);
    let mut total: u64 = 0;
    for i in 0..files.len()
        invariant
            models == queued_models(files@),
            queue_size(models) <= u64::MAX,
            total == queue_size(models.take(i as int)),
    {
        proof {
            lemma_queue_size_prefix(models, i as int);
            lemma_queue_size_prefix(models, i + 1);
        }
        total = total + files[i].size;
    }
    assert(models.take(files@.len() as int) =~= models);
    total
}

// ---------------------------------------------------------------------------
// Building entries
// ---------------------------------------------------------------------------

/// What reading one dropped path gave: a folder's scanned tracks, or a single
/// file with its name, its size on disk, and its track when it is audio and
/// could be read.
pub enum Dropped {
    Folder(Vec<LocalTrack>),
    File { path: PathBuf, name: String, size: u64, track: Option<LocalTrack> },
}

/// A scanned track, queued ready to send.
pub open spec fn entry_of_track(t: LocalTrackModel) -> QueuedModel {
    QueuedModel { path: t.path, name: t.file_name, size: t.size, track: Some(t), issue: Issue::Ready }
}

/// A single dropped file's entry: a file that is not audio is kept with its
/// reason rather than dropped; an audio file that could not be read is
/// unreadable; otherwise it is ready, sized as its track says.
pub open spec fn entry_of_file(
    path: PathBuf,
    name: Seq<char>,
    size: u64,
    track: Option<LocalTrackModel>,
) -> QueuedModel {
    if !is_audio_name(name) {
        QueuedModel { path, name, size, track: None, issue: Issue::UnsupportedFormat }
    } else {
        match track {
            Some(t) => QueuedModel { path, name, size: t.size, track: Some(t), issue: Issue::Ready },
            None => QueuedModel { path, name, size, track: None, issue: Issue::Unreadable },
        }
    }
}

/// Scanned tracks, each queued ready to send.
pub open spec fn track_entries(ts: Seq<LocalTrack>) -> Seq<QueuedModel> {
    ts.map_values(|t: LocalTrack| entry_of_track(t@))
}

/// The entries one dropped path gives.
pub open spec fn dropped_entries(d: Dropped) -> Seq<QueuedModel> {
    match d {
        Dropped::Folder(tracks) => track_entries(tracks@),
        Dropped::File { path, name, size, track } => seq![
            entry_of_file(
                path,
                name@,
                size,
                match track {
                    Some(t) => Some(t@),
                    None => None,
                },
            ),
        ],
    }
}

/// The entries of all dropped paths, in order.
pub open spec fn all_entries(ds: Seq<Dropped>) -> Seq<QueuedModel>
    decreases ds.len(),
{
    if ds.len() == 0 {
        Seq::empty()
    } else {
        all_entries(ds.drop_last()) + dropped_entries(ds.last())
    }
}

/// A scanned track, queued ready to send.
pub fn entry_from_track(track: LocalTrack) -> (f: QueuedFile)
    ensures
        f@ == entry_of_track(track@),
{
    QueuedFile {
        path: track.path.clone(),
        name: track.file_name.clone(),
        size: track.size,
        track: Some(track),
        issue: Issue::Ready,
    }
}

/// The entry for one dropped file.
pub fn entry_for(path: PathBuf, name: String, size: u64, track: Option<LocalTrack>) -> (f: QueuedFile)
    ensures
        f@ == entry_of_file(
            path,
            name@,
            size,
            match track {
                Some(t) => Some(t@),
                None => None,
            },
        ),
{
    if !is_audio(name.as_str()) {
        return QueuedFile { path, name, size, track: None, issue: Issue::UnsupportedFormat };
    }
    match track {
        Some(t) => {
            let size = t.size;
            QueuedFile { path, name, size, track: Some(t), issue: Issue::Ready }
        },
        None => QueuedFile { path, name, size, track: None, issue: Issue::Unreadable },
    }
}

/// Expands dropped paths into queue entries. A dropped folder gives one
/// ready entry per scanned track; a dropped non-audio file is kept in the
/// queue so the person can see why it was rejected rather than having it
/// silently vanish.
pub fn entries_for_paths(paths: Vec<Dropped>) -> (out: Vec<QueuedFile>)
    ensures
        queued_models(out@) == all_entries(paths@),
{
    let ghost orig = paths@;
    let mut out: Vec<QueuedFile> = Vec::new();
    for d in it: paths.into_iter()
        invariant
            it.seq() == orig,
            queued_models(out@) == all_entries(orig.take(it.index() as int)),
    {
        let ghost k = it.index() as int;
        let ghost before = queued_models(out@);
        proof {
            assert(orig.take(k + 1).drop_last() =~= orig.take(k));
            assert(orig.take(k + 1).last() == d);
        }
        match d {
            Dropped::Folder(tracks) => {
                let ghost ts = tracks@;
                for t in jt: tracks.into_iter()
                    invariant
                        jt.seq() == ts,
                        queued_models(out@) == before + track_entries(ts.take(jt.index() as int)),
                {
                    let ghost j = jt.index() as int;
                    assert(t == ts[j]);
                    let ghost prev = out@;
                    let f = entry_from_track(t);
                    out.push(f);
                    assert(queued_models(out@) =~= queued_models(prev).push(f@));
                    assert(track_entries(ts.take(j + 1)) =~= track_entries(ts.take(j)).push(
                        entry_of_track(ts[j]@),
                    ));
                    assert(queued_models(out@) =~= before + track_entries(ts.take(j + 1)));
                }
                assert(ts.take(ts.len() as int) =~= ts);
                assert(queued_models(out@) =~= all_entries(orig.take(k + 1)));
            },
            Dropped::File { path, name, size, track } => {
                let f = entry_for(path, name, size, track);
                out.push(f);
                assert(queued_models(out@) =~= all_entries(orig.take(k + 1)));
            },
        }
    }
    assert(orig.take(orig.len() as int) =~= orig);
    out
}

// ---------------------------------------------------------------------------
// What evaluation promises
// ---------------------------------------------------------------------------

pub proof fn lemma_evaluation_prefix(files: Seq<QueuedModel>, device: Option<DeviceStateModel>, i: int)
    requires
        0 <= i < files.len(),
    ensures
        evaluation(files, device).0[i] == step(device, evaluation(files.take(i), device).1, files[i]).0,
    decreases files.len(),
{
    lemma_evaluation_shape(files.drop_last(), device);
    if i < files.len() - 1 {
        lemma_evaluation_prefix(files.drop_last(), device, i);
        assert(files.drop_last().take(i) =~= files.take(i));
        assert(files.drop_last()[i] == files[i]);
    } else {
        assert(files.take(i) =~= files.drop_last());
    }
}

/// An entry that could not be parsed keeps the reason it was given, with or
/// without a device.
pub proof fn lemma_unparsed_entries_keep_their_reason(
    files: Seq<QueuedModel>,
    device: Option<DeviceStateModel>,
)
    ensures
        forall|i: int|
            0 <= i < files.len() && files[i].track is None ==> #[trigger] evaluation(files, device).0[i]
                == files[i].issue,
{
    assert forall|i: int| 0 <= i < files.len() && files[i].track is None implies #[trigger] evaluation(
        files,
        device,
    ).0[i] == files[i].issue by {
        lemma_evaluation_prefix(files, device, i);
    }
}

/// Without a device nothing that was parsed is held back: each such entry
/// is ready, or merely warned about when it has no tags.
pub proof fn lemma_without_a_device_nothing_is_blocked(files: Seq<QueuedModel>)
    ensures
        forall|i: int|
            0 <= i < files.len() && files[i].track is Some ==> #[trigger] evaluation(files, None).0[i]
                == (if files[i].track->0.tagged {
                Issue::Ready
            } else {
                Issue::NoTags
            }),
{
    assert forall|i: int| 0 <= i < files.len() && files[i].track is Some implies #[trigger] evaluation(
        files,
        None,
    ).0[i] == (if files[i].track->0.tagged {
        Issue::Ready
    } else {
        Issue::NoTags
    }) by {
        lemma_evaluation_prefix(files, None, i);
    }
}

/// A device that reported no formats turns nothing away for its format:
/// the check is skipped rather than rejecting everything.
pub proof fn lemma_a_quiet_device_rejects_no_format(files: Seq<QueuedModel>, device: DeviceStateModel)
    requires
        device.supported_extensions.len() == 0,
    ensures
        forall|i: int|
            0 <= i < files.len() && files[i].track is Some ==> #[trigger] evaluation(
                files,
                Some(device),
            ).0[i] != Issue::UnsupportedByDevice,
{
    assert forall|i: int| 0 <= i < files.len() && files[i].track is Some implies #[trigger] evaluation(
        files,
        Some(device),
    ).0[i] != Issue::UnsupportedByDevice by {
        lemma_evaluation_prefix(files, Some(device), i);
    }
}

/// The bytes of the parsed entries that the verdicts let through.
pub open spec fn passing_size(files: Seq<QueuedModel>, issues: Seq<Issue>) -> nat
    decreases files.len(),
{
    if files.len() == 0 {
        0
    } else {
        passing_size(files.drop_last(), issues.take(files.len() - 1)) + if files.last().track is Some
            && !blocks(issues[files.len() - 1]) {
            files.last().size as nat
        } else {
            0
        }
    }
}

proof fn lemma_passing_size_congruent(files: Seq<QueuedModel>, a: Seq<Issue>, b: Seq<Issue>)
    requires
        a.len() >= files.len(),
        b.len() >= files.len(),
        forall|i: int| 0 <= i < files.len() ==> a[i] == b[i],
    ensures
        passing_size(files, a) == passing_size(files, b),
    decreases files.len(),
{
    if files.len() > 0 {
        let n = files.len() - 1;
        lemma_passing_size_congruent(files.drop_last(), a.take(n), b.take(n));
    }
}

/// The bytes evaluation commits are those of the parsed entries it lets
/// through; with a device they never exceed its free space, so everything
/// sent fits on it.
pub proof fn lemma_what_passes_fits(files: Seq<QueuedModel>, device: Option<DeviceStateModel>)
    ensures
        evaluation(files, device).1 == passing_size(files, evaluation(files, device).0),
        device is Some ==> evaluation(files, device).1 <= device->0.free_space,
    decreases files.len(),
{
    if files.len() > 0 {
        let prev = files.drop_last();
        lemma_what_passes_fits(prev, device);
        lemma_evaluation_shape(prev, device);
        let e = evaluation(files, device).0;
        let ep = evaluation(prev, device).0;
        assert(e.take(prev.len() as int) =~= ep);
        let (issue, after) = step(device, evaluation(prev, device).1, files.last());
        assert(e[prev.len() as int] == issue);
        match files.last().track {
            None => {},
            Some(t) => {
                match device {
                    Some(d) => {},
                    None => {},
                }
            },
        }
    }
}

/// The queue with each entry's issue replaced by the one given for it.
pub open spec fn with_issues(files: Seq<QueuedModel>, issues: Seq<Issue>) -> Seq<QueuedModel> {
    files.map(|i: int, f: QueuedModel| QueuedModel { issue: issues[i], ..f })
}

/// Evaluating a queue whose issues were just evaluated changes nothing: the
/// verdicts depend on the entries and the device, not on earlier verdicts.
pub proof fn lemma_evaluation_is_stable(files: Seq<QueuedModel>, device: Option<DeviceStateModel>)
    ensures
        evaluation(with_issues(files, evaluation(files, device).0), device) == evaluation(files, device),
    decreases files.len(),
{
    let e = evaluation(files, device);
    let w = with_issues(files, e.0);
    if files.len() > 0 {
        let prev = files.drop_last();
        lemma_evaluation_is_stable(prev, device);
        lemma_evaluation_shape(prev, device);
        let ep = evaluation(prev, device);
        assert(e.0.take(prev.len() as int) =~= ep.0);
        assert(w.drop_last() =~= with_issues(prev, ep.0));
        assert(w.last() == QueuedModel { issue: e.0[prev.len() as int], ..files.last() });
        assert(evaluation(w, device).0 =~= e.0);
    } else {
        assert(evaluation(w, device).0 =~= e.0);
    }
}

} // verus!
