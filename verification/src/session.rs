//! The state behind the app's window and the decisions made on each command:
//! the queue, the device's listing and the music tree. The application runs
//! the loop, talks to the device and the UI, and hands the results back here.

use vstd::prelude::*;
use std::path::PathBuf;
use crate::mtp::{Battery, DeviceInfo, DeviceTrack, DeviceTrackModel, battery_percent, device_models};
use crate::music::{
    CheckState,
    MusicTree,
    NodePath,
    Row,
    all_tracks,
    built,
    checked_ids_of,
    rows_match,
    totals_fit,
    tree_rows,
    with_checked,
    with_toggled,
};
use crate::queue::{
    DeviceState,
    QueuedFile,
    QueuedModel,
    blocks,
    device_model,
    evaluate,
    evaluation,
    issue_glyph,
    issue_message,
    issues_of,
    queue_size,
    queued_models,
    sendable,
    string_views,
    total_size,
    transferable,
};
use crate::status;
use crate::text::{chars_of, decimal, decimal_string, lowercased, owned, string_of, to_lowercase, trim, trim_chars};

verus! {

/// `PathBuf`'s `==`. The library never looks inside a path: it takes a
/// path's value to be what `==` compares (its components), so equal paths
/// are one value.
pub assume_specification[ <PathBuf as PartialEq>::eq ](a: &PathBuf, b: &PathBuf) -> (r: bool)
    ensures
        r == (*a == *b),
;

/// Everything the window shows that the library decides.
pub struct Session {
    pub queue: Vec<QueuedFile>,
    pub device: Vec<DeviceTrack>,
    pub supported_extensions: Vec<String>,
    pub tree: MusicTree,
    /// Maps each visible row index to its node, rebuilt whenever the rows are,
    /// so the indices the UI sends back always refer to the rows it shows.
    pub paths: Vec<NodePath>,
    pub free_space: u64,
    pub capacity: u64,
    /// Whether a device session is open.
    pub connected: bool,
}

/// The device's contribution to queue evaluation: none without a device,
/// else its free space, its track names lowercased and its extensions.
pub open spec fn device_state_for(
    connected: bool,
    free_space: u64,
    device: Seq<DeviceTrackModel>,
    extensions: Seq<Seq<char>>,
) -> Option<crate::queue::DeviceStateModel> {
    if connected {
        Some(
            crate::queue::DeviceStateModel {
                free_space,
                track_names: lowered_names(device),
                supported_extensions: extensions,
            },
        )
    } else {
        None
    }
}

/// The names of device tracks, lowercased.
pub open spec fn lowered_names(device: Seq<DeviceTrackModel>) -> Seq<Seq<char>> {
    device.map_values(|t: DeviceTrackModel| lowercased(t.name))
}

/// The status a queue shows: nothing queued; everything sendable; nothing
/// sendable; or some entries skipped.
pub open spec fn queue_status(count: nat, sendable_count: nat) -> i32 {
    if count == 0 {
        status::NONE
    } else if sendable_count == count {
        status::READY
    } else if sendable_count == 0 {
        status::NONE_SENDABLE
    } else {
        status::READY_SKIPPING
    }
}

/// The queue's figures after evaluation.
pub struct QueueSummary {
    pub count: usize,
    pub transferable: usize,
    pub blocked: usize,
    pub total_size: u64,
    pub code: i32,
}

/// What the music pane shows.
pub struct MusicSummary {
    pub rows: Vec<Row>,
    pub checked: usize,
    pub total: usize,
}

/// What the device pane shows, apart from the storage chart.
pub struct DeviceSummary {
    pub name: String,
    pub detail: String,
    /// 0 unknown, 1 on battery, 2 on external power.
    pub battery_state: i32,
    pub battery_percent: i32,
    pub battery_current: i32,
    pub battery_max: i32,
    pub used: u64,
    pub track_count: usize,
}

/// The name a device is shown under: "MTP device" when it gives no model;
/// the model alone when it gives no manufacturer; else both.
pub open spec fn device_name(model: Seq<char>, manufacturer: Seq<char>) -> Seq<char> {
    if model.len() == 0 {
        "MTP device"@
    } else if manufacturer.len() == 0 {
        model
    } else {
        manufacturer + " "@ + model
    }
}

/// The battery as the UI takes it: state, percent, raw reading and scale.
pub open spec fn battery_fields(b: Option<Battery>) -> (i32, i32, i32, i32) {
    match b {
        Some(Battery::Level { current, max }) => (
            1,
            match battery_percent(Battery::Level { current, max }) {
                Some(p) => p as i32,
                None => 0,
            },
            current as i32,
            max as i32,
        ),
        Some(Battery::ExternalPower) => (2, 0, 0, 0),
        None => (0, 0, 0, 0),
    }
}

/// Whether some entry of `s` has the path `path`.
pub open spec fn has_path(s: Seq<QueuedFile>, path: PathBuf) -> bool {
    exists|j: int| 0 <= j < s.len() && (#[trigger] s[j]).path == path
}

/// The candidates that join a queue, in order: each joins unless an entry
/// already queued, or a candidate that joined before it, has its path.
pub open spec fn fresh_entries(queue: Seq<QueuedFile>, added: Seq<QueuedFile>) -> Seq<QueuedFile>
    decreases added.len(),
{
    if added.len() == 0 {
        Seq::empty()
    } else {
        let prev = fresh_entries(queue, added.drop_last());
        if has_path(queue + prev, added.last().path) {
            prev
        } else {
            prev.push(added.last())
        }
    }
}

/// The queue after dropping entries: a file is queued once however often it
/// is dropped, in one drop or several.
pub open spec fn with_added(queue: Seq<QueuedFile>, added: Seq<QueuedFile>) -> Seq<QueuedFile> {
    queue + fresh_entries(queue, added)
}

/// No two entries share a path.
pub open spec fn distinct_paths(s: Seq<QueuedFile>) -> bool {
    forall|i: int, j: int| 0 <= i < j < s.len() ==> (#[trigger] s[i]).path != (#[trigger] s[j]).path
}

/// The queue after a transfer: sent files leave it, anything that failed
/// stays so it can be retried.
pub open spec fn without_sent(queue: Seq<QueuedFile>, sent: Seq<PathBuf>) -> Seq<QueuedFile> {
    queue.filter(|f: QueuedFile| !sent.contains(f.path))
}

fn device_name_of(model: &String, manufacturer: &String) -> (name: String)
    ensures
        name@ == device_name(model@, manufacturer@),
{
    if model.as_str().is_empty() {
        owned("MTP device")
    } else if manufacturer.as_str().is_empty() {
        model.clone()
    } else {
        let mut cs = chars_of(manufacturer.as_str());
        let mut space = chars_of(" ");
        cs.append(&mut space);
        let mut m = chars_of(model.as_str());
        cs.append(&mut m);
        string_of(cs.as_slice())
    }
}

impl Session {
    pub fn new() -> (s: Self)
        ensures
            s.queue@.len() == 0,
            s.device@.len() == 0,
            s.supported_extensions@.len() == 0,
            s.tree@.len() == 0,
            s.paths@.len() == 0,
            s.free_space == 0,
            s.capacity == 0,
            !s.connected,
    {
        Session {
            queue: Vec::new(),
            device: Vec::new(),
            supported_extensions: Vec::new(),
            tree: MusicTree::default(),
            paths: Vec::new(),
            free_space: 0,
            capacity: 0,
            connected: false,
        }
    }

    /// What the device contributes to queue evaluation.
    pub fn device_state(&self) -> (d: Option<DeviceState>)
        ensures
            device_model(
                match d {
                    Some(x) => Some(&x),
                    None => None,
                },
            ) == device_state_for(
                self.connected,
                self.free_space,
                device_models(self.device@),
                string_views(self.supported_extensions@),
            ),
    {
        if !self.connected {
            return None;
        }
        let mut names: Vec<String> = Vec::new();
        for i in 0..self.device.len()
            invariant
                string_views(names@) == lowered_names(device_models(self.device@).take(i as int)),
        {
            let ghost before = names@;
            let lower = to_lowercase(self.device[i].name.as_str());
            names.push(lower);
            assert(string_views(names@) =~= string_views(before).push(lower@));
            assert(lowered_names(device_models(self.device@).take(i + 1)) =~= lowered_names(
                device_models(self.device@).take(i as int),
            ).push(lowercased(self.device@[i as int].name@)));
        }
        assert(device_models(self.device@).take(self.device@.len() as int) =~= device_models(
            self.device@,
        ));
        let mut extensions: Vec<String> = Vec::new();
        for i in 0..self.supported_extensions.len()
            invariant
                string_views(extensions@) == string_views(self.supported_extensions@).take(i as int),
        {
            let ghost before = extensions@;
            let e = self.supported_extensions[i].clone();
            extensions.push(e);
            assert(string_views(extensions@) =~= string_views(before).push(e@));
            assert(string_views(self.supported_extensions@).take(i + 1) =~= string_views(
                self.supported_extensions@,
            ).take(i as int).push(self.supported_extensions@[i as int]@));
        }
        assert(string_views(self.supported_extensions@).take(
            self.supported_extensions@.len() as int,
        ) =~= string_views(self.supported_extensions@));
        let d = DeviceState { free_space: self.free_space, track_names: names, supported_extensions: extensions };
        assert(d@.track_names =~= lowered_names(device_models(self.device@)));
        Some(d)
    }

    /// Re-evaluates the queue against the device and sums it up. Every change
    /// to the queue or the device state ends here, so the two never drift
    /// apart.
    pub fn refresh_queue(&mut self) -> (summary: QueueSummary)
        requires
            queue_size(queued_models(old(self).queue@)) <= u64::MAX,
        ensures
            final(self).queue@.len() == old(self).queue@.len(),
            forall|i: int|
                0 <= i < final(self).queue@.len() ==> (#[trigger] final(self).queue@[i])@ == (
                QueuedModel {
                    issue: evaluation(
                        queued_models(old(self).queue@),
                        device_state_for(
                            old(self).connected,
                            old(self).free_space,
                            device_models(old(self).device@),
                            string_views(old(self).supported_extensions@),
                        ),
                    ).0[i],
                    ..old(self).queue@[i]@
                }),
            final(self).device == old(self).device,
            final(self).connected == old(self).connected,
            final(self).free_space == old(self).free_space,
            final(self).supported_extensions == old(self).supported_extensions,
            final(self).tree == old(self).tree,
            final(self).paths == old(self).paths,
            final(self).capacity == old(self).capacity,
            summary.count == final(self).queue@.len(),
            summary.transferable == sendable(issues_of(queued_models(final(self).queue@))).len(),
            summary.blocked == summary.count - summary.transferable,
            summary.total_size == queue_size(queued_models(old(self).queue@)),
            summary.code == queue_status(summary.count as nat, summary.transferable as nat),
    {
        let state = self.device_state();
        let d = match &state {
            Some(x) => Some(x),
            None => None,
        };
        proof {
            crate::queue::lemma_sums_fit_within_size(queued_models(self.queue@), device_model(d));
        }
        evaluate(&mut self.queue, d);
        let ghost after = queued_models(self.queue@);
        assert(queue_size(after) == queue_size(queued_models(old(self).queue@))) by {
            lemma_same_sizes(after, queued_models(old(self).queue@));
        }
        let count = self.queue.len();
        let sendable_indices = transferable(&self.queue);
        proof {
            lemma_sendable_len(issues_of(after));
        }
        let sendable_count = sendable_indices.len();
        let total = total_size(&self.queue);
        let blocked = count - sendable_count;
        let code = if count == 0 {
            status::NONE
        } else if blocked == 0 {
            status::READY
        } else if sendable_count == 0 {
            status::NONE_SENDABLE
        } else {
            status::READY_SKIPPING
        };
        QueueSummary { count, transferable: sendable_count, blocked, total_size: total, code }
    }

    /// Drops the entry at `index`, if there is one.
    pub fn remove_at(&mut self, index: usize)
        ensures
            final(self).queue@ == (if index < old(self).queue@.len() {
                old(self).queue@.remove(index as int)
            } else {
                old(self).queue@
            }),
            final(self).device == old(self).device,
            final(self).supported_extensions == old(self).supported_extensions,
            final(self).tree == old(self).tree,
            final(self).paths == old(self).paths,
            final(self).free_space == old(self).free_space,
            final(self).capacity == old(self).capacity,
            final(self).connected == old(self).connected,
    {
        if index < self.queue.len() {
            self.queue.remove(index);
        }
    }

    pub fn clear_queue(&mut self)
        ensures
            final(self).queue@.len() == 0,
            final(self).device == old(self).device,
            final(self).supported_extensions == old(self).supported_extensions,
            final(self).tree == old(self).tree,
            final(self).paths == old(self).paths,
            final(self).free_space == old(self).free_space,
            final(self).capacity == old(self).capacity,
            final(self).connected == old(self).connected,
    {
        self.queue.clear();
    }

    /// Adds dropped entries, skipping any whose path is already queued or
    /// was added earlier in the same drop.
    pub fn add_entries(&mut self, added: Vec<QueuedFile>)
        ensures
            final(self).queue@ == with_added(old(self).queue@, added@),
            final(self).device == old(self).device,
            final(self).supported_extensions == old(self).supported_extensions,
            final(self).tree == old(self).tree,
            final(self).paths == old(self).paths,
            final(self).free_space == old(self).free_space,
            final(self).capacity == old(self).capacity,
            final(self).connected == old(self).connected,
    {
        let ghost queue = self.queue@;
        let ghost orig = added@;
        let n = self.queue.len();
        let mut kept: Vec<QueuedFile> = Vec::new();
        for f in it: added.into_iter()
            invariant
                it.seq() == orig,
                n == self.queue@.len(),
                queue == self.queue@,
                kept@ == fresh_entries(queue, orig.take(it.index() as int)),
        {
            let ghost k = it.index() as int;
            proof {
                assert(orig.take(k + 1).drop_last() =~= orig.take(k));
                assert(orig.take(k + 1).last() == f);
            }
            let mut duplicate = false;
            let mut j: usize = 0;
            while j < n
                invariant
                    j <= n == self.queue@.len(),
                    queue == self.queue@,
                    duplicate == exists|i: int| 0 <= i < j && (#[trigger] queue[i]).path == f.path,
                decreases n - j,
            {
                if self.queue[j].path == f.path {
                    duplicate = true;
                }
                j = j + 1;
            }
            let m = kept.len();
            let mut j: usize = 0;
            while j < m
                invariant
                    j <= m == kept@.len(),
                    duplicate == ((exists|i: int| 0 <= i < n && (#[trigger] queue[i]).path == f.path)
                        || exists|i: int| 0 <= i < j && (#[trigger] kept@[i]).path == f.path),
                decreases m - j,
            {
                if kept[j].path == f.path {
                    duplicate = true;
                }
                j = j + 1;
            }
            proof {
                let both = queue + kept@;
                if duplicate {
                    if exists|i: int| 0 <= i < n && (#[trigger] queue[i]).path == f.path {
                        let i = choose|i: int| 0 <= i < n && (#[trigger] queue[i]).path == f.path;
                        assert(both[i] == queue[i]);
                    } else {
                        let i = choose|i: int| 0 <= i < m && (#[trigger] kept@[i]).path == f.path;
                        assert(both[n + i] == kept@[i]);
                    }
                    assert(has_path(both, f.path));
                } else {
                    assert forall|i: int| 0 <= i < both.len() implies (#[trigger] both[i]).path != f.path by {
                        if i < n {
                            assert(both[i] == queue[i]);
                        } else {
                            assert(both[i] == kept@[i - n]);
                        }
                    }
                }
            }
            if !duplicate {
                kept.push(f);
            }
        }
        assert(orig.take(orig.len() as int) =~= orig);
        self.queue.append(&mut kept);
    }

    /// Removes sent files from the queue. Returns whether anything was sent,
    /// in which case the device session must be dropped and reopened: the
    /// device's metadata cache does not see properties written after a
    /// send, so the same session would list the fresh tracks as unknown.
    pub fn finish_transfer(&mut self, sent: &Vec<PathBuf>) -> (reopen: bool)
        ensures
            final(self).queue@ == without_sent(old(self).queue@, sent@),
            reopen == (sent@.len() > 0),
            final(self).device == old(self).device,
            final(self).supported_extensions == old(self).supported_extensions,
            final(self).tree == old(self).tree,
            final(self).paths == old(self).paths,
            final(self).free_space == old(self).free_space,
            final(self).capacity == old(self).capacity,
            final(self).connected == old(self).connected,
    {
        let ghost orig = self.queue@;
        let ghost keep = |f: QueuedFile| !sent@.contains(f.path);
        let mut queue: Vec<QueuedFile> = Vec::new();
        std::mem::swap(&mut queue, &mut self.queue);
        let mut kept: Vec<QueuedFile> = Vec::new();
        for f in it: queue.into_iter()
            invariant
                it.seq() == orig,
                keep == (|f: QueuedFile| !sent@.contains(f.path)),
                kept@ == orig.take(it.index() as int).filter(keep),
        {
            let ghost k = it.index() as int;
            proof {
                orig.take(k).lemma_filter_push(orig[k], keep);
                assert(orig.take(k + 1) =~= orig.take(k).push(orig[k]));
            }
            let mut found = false;
            let m = sent.len();
            let mut j: usize = 0;
            while j < m
                invariant
                    j <= m == sent@.len(),
                    found == exists|i: int| 0 <= i < j && sent@[i] == f.path,
                decreases m - j,
            {
                if sent[j] == f.path {
                    found = true;
                }
                j = j + 1;
            }
            if !found {
                kept.push(f);
            }
        }
        assert(orig.take(orig.len() as int) =~= orig);
        self.queue = kept;
        sent.len() > 0
    }

    /// Rebuilds the tree from the device listing, preserving nothing: ids
    /// change after a device round trip, so stale selections would be
    /// dangerous for an operation that deletes.
    pub fn rebuild_tree(&mut self)
        ensures
            final(self).tree@ == built(device_models(old(self).device@)),
            final(self).device == old(self).device,
            final(self).queue == old(self).queue,
            final(self).connected == old(self).connected,
            final(self).supported_extensions == old(self).supported_extensions,
            final(self).paths == old(self).paths,
            final(self).free_space == old(self).free_space,
            final(self).capacity == old(self).capacity,
    {
        self.tree = MusicTree::build(self.device.as_slice());
    }

    /// Opens the session's view of a device: its listing, figures and
    /// formats, and the tree built from the listing.
    pub fn connect(&mut self, info: &DeviceInfo, tracks: Vec<DeviceTrack>, extensions: Vec<String>) -> (summary: DeviceSummary)
        ensures
            final(self).connected,
            final(self).device@ == tracks@,
            final(self).supported_extensions@ == extensions@,
            final(self).free_space == info.free,
            final(self).capacity == info.capacity,
            final(self).queue == old(self).queue,
            final(self).tree@ == built(device_models(tracks@)),
            final(self).paths == old(self).paths,
            summary.name@ == device_name(info.model@, info.manufacturer@),
            summary.detail == info.storage,
            (summary.battery_state, summary.battery_percent, summary.battery_current, summary.battery_max)
                == battery_fields(info.battery),
            summary.used == (if info.capacity >= info.free { info.capacity - info.free } else { 0 }),
            summary.track_count == tracks@.len(),
    {
        let track_count = tracks.len();
        self.device = tracks;
        self.free_space = info.free;
        self.capacity = info.capacity;
        self.supported_extensions = extensions;
        self.connected = true;
        self.tree = MusicTree::build(self.device.as_slice());
        let name = device_name_of(&info.model, &info.manufacturer);
        let (battery_state, battery_percent, battery_current, battery_max) = match &info.battery {
            Some(battery) => match battery {
                Battery::Level { current, max } => {
                    let percent = match battery.percent() {
                        Some(p) => p as i32,
                        None => 0,
                    };
                    (1, percent, *current as i32, *max as i32)
                },
                Battery::ExternalPower => (2, 0, 0, 0),
            },
            None => (0, 0, 0, 0),
        };
        let used = if info.capacity >= info.free {
            info.capacity - info.free
        } else {
            0
        };
        DeviceSummary {
            name,
            detail: info.storage.clone(),
            battery_state,
            battery_percent,
            battery_current,
            battery_max,
            used,
            track_count,
        }
    }

    /// Forgets the device: its listing, formats, figures and tree.
    pub fn disconnect(&mut self)
        ensures
            !final(self).connected,
            final(self).device@.len() == 0,
            final(self).supported_extensions@.len() == 0,
            final(self).tree@.len() == 0,
            final(self).paths@.len() == 0,
            final(self).free_space == 0,
            final(self).capacity == 0,
            final(self).queue == old(self).queue,
    {
        self.connected = false;
        self.device.clear();
        self.supported_extensions.clear();
        self.tree = MusicTree::default();
        self.paths.clear();
        self.free_space = 0;
        self.capacity = 0;
    }

    /// The music pane: the visible rows, whose paths are kept for the
    /// indices the UI sends back, and the checked and total track counts.
    pub fn music_view(&mut self) -> (summary: MusicSummary)
        requires
            totals_fit(old(self).tree@),
        ensures
            final(self).tree == old(self).tree,
            final(self).queue == old(self).queue,
            final(self).device == old(self).device,
            final(self).supported_extensions == old(self).supported_extensions,
            final(self).free_space == old(self).free_space,
            final(self).capacity == old(self).capacity,
            final(self).connected == old(self).connected,
            rows_match(summary.rows@, final(self).paths@, tree_rows(old(self).tree@)),
            summary.checked == checked_ids_of(old(self).tree@).len(),
            summary.total == all_tracks(old(self).tree@).len(),
    {
        let (rows, paths) = self.tree.rows();
        self.paths = paths;
        let checked = self.tree.checked_ids().len();
        let total = self.tree.track_count();
        MusicSummary { rows, checked, total }
    }

    /// Expands or collapses the node on visible row `index`. Returns whether
    /// there was such a row.
    pub fn toggle_row(&mut self, index: usize) -> (found: bool)
        ensures
            found == (index < old(self).paths@.len()),
            final(self).tree@ == (if found {
                with_toggled(old(self).tree@, old(self).paths@[index as int])
            } else {
                old(self).tree@
            }),
            final(self).paths == old(self).paths,
            final(self).queue == old(self).queue,
            final(self).device == old(self).device,
            final(self).supported_extensions == old(self).supported_extensions,
            final(self).free_space == old(self).free_space,
            final(self).capacity == old(self).capacity,
            final(self).connected == old(self).connected,
    {
        if index < self.paths.len() {
            let path = self.paths[index];
            self.tree.toggle_expanded(path);
            true
        } else {
            false
        }
    }

    /// Checks or unchecks the node on visible row `index` and everything
    /// beneath it. Returns whether there was such a row.
    pub fn check_row(&mut self, index: usize, checked: bool) -> (found: bool)
        ensures
            found == (index < old(self).paths@.len()),
            final(self).tree@ == (if found {
                with_checked(old(self).tree@, old(self).paths@[index as int], checked)
            } else {
                old(self).tree@
            }),
            final(self).paths == old(self).paths,
            final(self).queue == old(self).queue,
            final(self).device == old(self).device,
            final(self).supported_extensions == old(self).supported_extensions,
            final(self).free_space == old(self).free_space,
            final(self).capacity == old(self).capacity,
            final(self).connected == old(self).connected,
    {
        if index < self.paths.len() {
            let path = self.paths[index];
            self.tree.set_checked(path, checked);
            true
        } else {
            false
        }
    }
}

proof fn lemma_same_sizes(a: Seq<QueuedModel>, b: Seq<QueuedModel>)
    requires
        a.len() == b.len(),
        forall|i: int| 0 <= i < a.len() ==> (#[trigger] a[i]).size == b[i].size,
    ensures
        queue_size(a) == queue_size(b),
    decreases a.len(),
{
    if a.len() > 0 {
        lemma_same_sizes(a.drop_last(), b.drop_last());
    }
}

proof fn lemma_sendable_len(issues: Seq<crate::queue::Issue>)
    ensures
        sendable(issues).len() <= issues.len(),
    decreases issues.len(),
{
    if issues.len() > 0 {
        lemma_sendable_len(issues.drop_last());
    }
}

/// What joins a queue: every candidate's path is queued afterwards, and a
/// queue without repeated paths stays without them.
proof fn lemma_fresh_entries(queue: Seq<QueuedFile>, added: Seq<QueuedFile>)
    ensures
        forall|i: int| 0 <= i < added.len() ==> has_path(with_added(queue, added), #[trigger] added[i].path),
        distinct_paths(queue) ==> distinct_paths(with_added(queue, added)),
    decreases added.len(),
{
    if added.len() > 0 {
        let a = added.drop_last();
        let x = added.last();
        lemma_fresh_entries(queue, a);
        let prev = queue + fresh_entries(queue, a);
        let now = with_added(queue, added);
        assert(with_added(queue, a) == prev);
        if has_path(prev, x.path) {
            assert(now == prev);
        } else {
            assert(now =~= prev.push(x));
            assert forall|i: int, j: int| distinct_paths(prev) && 0 <= i < j < now.len() implies (
            #[trigger] now[i]).path != (#[trigger] now[j]).path by {
                if j < prev.len() {
                    assert(now[i] == prev[i] && now[j] == prev[j]);
                } else {
                    assert(now[i] == prev[i]);
                }
            }
            assert(now[prev.len() as int] == x);
        }
        assert forall|i: int| 0 <= i < added.len() implies has_path(now, #[trigger] added[i].path) by {
            if i < a.len() {
                assert(a[i] == added[i]);
                if !has_path(prev, x.path) {
                    let j = choose|j: int| 0 <= j < prev.len() && (#[trigger] prev[j]).path == added[i].path;
                    assert(now[j] == prev[j]);
                }
            } else if !has_path(prev, x.path) {
                assert(now[prev.len() as int] == x);
            }
        }
    }
}

proof fn lemma_nothing_fresh(queue: Seq<QueuedFile>, added: Seq<QueuedFile>)
    requires
        forall|i: int| 0 <= i < added.len() ==> has_path(queue, #[trigger] added[i].path),
    ensures
        fresh_entries(queue, added) == Seq::<QueuedFile>::empty(),
    decreases added.len(),
{
    if added.len() > 0 {
        let a = added.drop_last();
        assert forall|i: int| 0 <= i < a.len() implies has_path(queue, #[trigger] a[i].path) by {
            assert(a[i] == added[i]);
        }
        lemma_nothing_fresh(queue, a);
        assert(queue + fresh_entries(queue, a) =~= queue);
        assert(has_path(queue, added[added.len() - 1].path));
    }
}

/// Dropping the same files again adds nothing: every path they carry is
/// queued already, so a file is queued once however often it is dropped.
pub proof fn lemma_adding_twice_adds_once(queue: Seq<QueuedFile>, added: Seq<QueuedFile>)
    ensures
        with_added(with_added(queue, added), added) == with_added(queue, added),
{
    lemma_fresh_entries(queue, added);
    lemma_nothing_fresh(with_added(queue, added), added);
    assert(with_added(with_added(queue, added), added) =~= with_added(queue, added));
}

/// A queue in which no two entries share a path keeps that so after a drop,
/// even when the drop names one file twice (a folder and a file inside it).
pub proof fn lemma_adding_keeps_paths_distinct(queue: Seq<QueuedFile>, added: Seq<QueuedFile>)
    requires
        distinct_paths(queue),
    ensures
        distinct_paths(with_added(queue, added)),
{
    lemma_fresh_entries(queue, added);
}

/// After a transfer no queued entry has a path that was sent, every entry
/// left was queued before, and every entry whose path was not sent is still
/// queued: what failed stays to be retried.
pub proof fn lemma_sent_files_leave_the_queue(queue: Seq<QueuedFile>, sent: Seq<PathBuf>)
    ensures
        forall|i: int|
            0 <= i < without_sent(queue, sent).len() ==> !sent.contains(
                (#[trigger] without_sent(queue, sent)[i]).path,
            ) && queue.contains(without_sent(queue, sent)[i]),
        forall|i: int|
            0 <= i < queue.len() && !sent.contains(queue[i].path) ==> without_sent(
                queue,
                sent,
            ).contains(#[trigger] queue[i]),
{
    let keep = |f: QueuedFile| !sent.contains(f.path);
    let left = without_sent(queue, sent);
    assert(left == queue.filter(keep));
    assert forall|i: int| 0 <= i < left.len() implies !sent.contains((#[trigger] left[i]).path)
        && queue.contains(left[i]) by {
        queue.lemma_filter_pred(keep, i);
        assert(left.contains(left[i]));
        queue.lemma_filter_contains_rev(keep, left[i]);
    }
    assert forall|i: int| 0 <= i < queue.len() && !sent.contains(queue[i].path) implies left.contains(
        #[trigger] queue[i],
    ) by {
        queue.lemma_filter_contains(keep, i);
    }
}

// ---------------------------------------------------------------------------
// Queue rows
// ---------------------------------------------------------------------------

/// A tag as shown: an em dash rather than blank, so a missing tag reads as
/// "nothing here" instead of looking like a rendering gap.
pub open spec fn or_dash_spec(value: Seq<char>) -> Seq<char> {
    if trim(value).len() == 0 {
        "—"@
    } else {
        value
    }
}

pub fn or_dash(value: &str) -> (out: String)
    ensures
        out@ == or_dash_spec(value@),
{
    let cs = chars_of(value);
    let t = trim_chars(cs.as_slice());
    if t.len() == 0 {
        owned("—")
    } else {
        owned(value)
    }
}

/// Two decimal digits, zero-padded.
pub open spec fn two_digits(n: nat) -> Seq<char> {
    if n < 10 {
        seq!['0'] + decimal(n)
    } else {
        decimal(n)
    }
}

/// A playing time as minutes and zero-padded seconds, or a dash when it is
/// under a second.
pub open spec fn duration_text(millis: u64) -> Seq<char> {
    let secs = millis as nat / 1000;
    if secs == 0 {
        "—"@
    } else {
        decimal(secs / 60) + seq![':'] + two_digits(secs % 60)
    }
}

pub fn format_duration(millis: u64) -> (out: String)
    ensures
        out@ == duration_text(millis),
{
    let secs = millis / 1000;
    if secs == 0 {
        return owned("—");
    }
    let minutes = decimal_string(secs / 60);
    let seconds = decimal_string(secs % 60);
    let mut cs = chars_of(minutes.as_str());
    cs.push(':');
    if secs % 60 < 10 {
        cs.push('0');
    }
    let mut s = chars_of(seconds.as_str());
    cs.append(&mut s);
    let out = string_of(cs.as_slice());
    assert(out@ =~= duration_text(millis));
    out
}

/// The number a check state is sent to the UI as.
pub open spec fn check_code_spec(state: CheckState) -> i32 {
    match state {
        CheckState::Unchecked => 0,
        CheckState::Partial => 1,
        CheckState::Checked => 2,
    }
}

pub fn check_code(state: CheckState) -> (code: i32)
    ensures
        code == check_code_spec(state),
{
    match state {
        CheckState::Unchecked => 0,
        CheckState::Partial => 1,
        CheckState::Checked => 2,
    }
}

/// The text of one queue row; the size is formatted by the caller.
pub struct QueueRowText {
    pub name: String,
    pub glyph: &'static str,
    pub message: &'static str,
    pub blocked: bool,
    pub title: String,
    pub artist: String,
    pub album: String,
    pub genre: String,
    pub track_no: String,
    pub duration: String,
}

/// A track number as shown: a dash for none.
pub open spec fn track_no_text(n: u32) -> Seq<char> {
    if n == 0 {
        "—"@
    } else {
        decimal(n as nat)
    }
}

/// How a queue entry is shown: its name, its issue, and its tags with
/// dashes for what is missing (all dashes for an entry with no track).
pub open spec fn queue_row_ok(r: QueueRowText, f: QueuedModel) -> bool {
    &&& r.name@ == f.name
    &&& r.blocked == blocks(f.issue)
    &&& match f.track {
        Some(t) => {
            &&& r.title@ == or_dash_spec(t.title)
            &&& r.artist@ == or_dash_spec(t.artist)
            &&& r.album@ == or_dash_spec(t.album)
            &&& r.genre@ == or_dash_spec(t.genre)
            &&& r.track_no@ == track_no_text(t.track_no)
            &&& r.duration@ == duration_text(t.duration)
        },
        None => {
            &&& r.title@ == "—"@
            &&& r.artist@ == "—"@
            &&& r.album@ == "—"@
            &&& r.genre@ == "—"@
            &&& r.track_no@ == "—"@
            &&& r.duration@ == "—"@
        },
    }
}

pub fn queue_row(file: &QueuedFile) -> (r: QueueRowText)
    ensures
        queue_row_ok(r, file@),
        r.glyph@ == issue_glyph(file.issue),
        r.message@ == issue_message(file.issue),
{
    let (title, artist, album, genre, track_no, duration) = match &file.track {
        Some(t) => (
            or_dash(t.title.as_str()),
            or_dash(t.artist.as_str()),
            or_dash(t.album.as_str()),
            or_dash(t.genre.as_str()),
            if t.track_no == 0 {
                owned("—")
            } else {
                decimal_string(t.track_no as u64)
            },
            format_duration(t.duration),
        ),
        None => (owned("—"), owned("—"), owned("—"), owned("—"), owned("—"), owned("—")),
    };
    QueueRowText {
        name: file.name.clone(),
        glyph: file.issue.glyph(),
        message: file.issue.message(),
        blocked: file.issue.blocks_transfer(),
        title,
        artist,
        album,
        genre,
        track_no,
        duration,
    }
}

/// With a device connected, a parsed queue entry whose name matches the
/// name of a track on the device, ignoring case as `str::to_lowercase`
/// folds it, and whose format the device accepts, is held back as already
/// on the device.
pub proof fn lemma_tracks_on_the_device_are_not_sent_again(
    files: Seq<QueuedModel>,
    free_space: u64,
    device: Seq<DeviceTrackModel>,
    extensions: Seq<Seq<char>>,
    i: int,
    j: int,
)
    requires
        0 <= i < files.len(),
        files[i].track is Some,
        0 <= j < device.len(),
        lowercased(device[j].name) == lowercased(files[i].name),
        extensions.len() == 0 || extensions.contains(crate::queue::extension_key(files[i].name)),
    ensures
        evaluation(files, device_state_for(true, free_space, device, extensions)).0[i]
            == crate::queue::Issue::AlreadyOnDevice,
{
    let d = device_state_for(true, free_space, device, extensions);
    crate::queue::lemma_evaluation_prefix(files, d, i);
    assert(lowered_names(device)[j] == lowercased(files[i].name));
    assert(d->0.track_names.contains(lowercased(files[i].name)));
}

} // verus!
