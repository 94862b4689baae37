//! Sending the queue and deleting the checked tracks, one device call at a
//! time: the application makes each call and reports how it went, and these
//! runs decide what comes next and what the person is told at the end.

use vstd::prelude::*;
use std::path::PathBuf;
use crate::music::{MusicTree, checked_ids_of};
use crate::queue::{QueuedFile, issues_of, queued_models, sendable, transferable};
use crate::status;

verus! {

/// What to do next in a run.
#[derive(Clone, Copy, Debug, PartialEq, Eq, Structural)]
pub enum Step {
    /// Make the `nth` call of the run, for the item at `index`.
    Go { nth: usize, index: usize },
    /// The run is over; ask it for its report.
    Done,
}

/// How a run ended: its status code, how many items succeeded, how many it
/// set out to do, how many failed, and the first failure's message.
pub struct Report {
    pub code: i32,
    pub succeeded: usize,
    pub total: usize,
    pub failed: usize,
    pub detail: String,
}

/// The views of some strings.
pub open spec fn texts(s: Seq<String>) -> Seq<Seq<char>> {
    s.map_values(|x: String| x@)
}

/// The first failure's message, or nothing.
pub open spec fn first_text(s: Seq<Seq<char>>) -> Seq<char> {
    if s.len() > 0 {
        s[0]
    } else {
        Seq::empty()
    }
}

fn first_failure(failures: &Vec<String>) -> (out: String)
    ensures
        out@ == first_text(texts(failures@)),
{
    if failures.len() > 0 {
        failures[0].clone()
    } else {
        String::new()
    }
}

// ---------------------------------------------------------------------------
// Sending
// ---------------------------------------------------------------------------

/// Whether the queue entry at `index` is there and has a track to send.
pub open spec fn can_send(queue: Seq<QueuedFile>, index: usize) -> bool {
    index < queue.len() && queue[index as int].track is Some
}

/// The first position at or after `p` whose entry can be sent, or the end.
pub open spec fn next_send(queue: Seq<QueuedFile>, indices: Seq<usize>, p: int) -> int
    decreases indices.len() - p,
{
    if p >= indices.len() {
        indices.len() as int
    } else if can_send(queue, indices[p]) {
        p
    } else {
        next_send(queue, indices, p + 1)
    }
}

proof fn lemma_next_send(queue: Seq<QueuedFile>, indices: Seq<usize>, p: int)
    requires
        0 <= p <= indices.len(),
    ensures
        p <= next_send(queue, indices, p) <= indices.len(),
        next_send(queue, indices, p) < indices.len() ==> can_send(
            queue,
            indices[next_send(queue, indices, p)],
        ),
        forall|k: int| p <= k < next_send(queue, indices, p) ==> !can_send(queue, #[trigger] indices[k]),
    decreases indices.len() - p,
{
    if p < indices.len() && !can_send(queue, indices[p]) {
        lemma_next_send(queue, indices, p + 1);
    }
}

/// A transfer of the sendable queue entries, in queue order. Sends that
/// went through are collected by path; failed ones are kept by message.
pub struct Transfer {
    pub indices: Vec<usize>,
    /// The next position of `indices` to look at.
    pub position: usize,
    pub sent: Vec<PathBuf>,
    pub failures: Vec<String>,
    pub cancelled: bool,
}

impl Transfer {
    /// Whether the position is within the run.
    pub open spec fn wf(&self) -> bool {
        self.position <= self.indices@.len()
    }

    /// Starts a transfer of the entries the queue's issues let through.
    pub fn begin(queue: &Vec<QueuedFile>) -> (t: Transfer)
        ensures
            t.wf(),
            t.indices@ == sendable(issues_of(queued_models(queue@))),
            t.position == 0,
            t.sent@.len() == 0,
            t.failures@.len() == 0,
            !t.cancelled,
    {
        Transfer {
            indices: transferable(queue),
            position: 0,
            sent: Vec::new(),
            failures: Vec::new(),
            cancelled: false,
        }
    }

    /// The next entry to send. A cancel request ends the run before the next
    /// send; entries that are gone from the queue, or have no track, are
    /// passed over.
    pub fn next(&mut self, queue: &Vec<QueuedFile>, cancel: bool) -> (step: Step)
        requires
            old(self).wf(),
        ensures
            final(self).wf(),
            final(self).indices == old(self).indices,
            final(self).sent == old(self).sent,
            final(self).failures == old(self).failures,
            ({
                let p = old(self).position as int;
                let n = old(self).indices@.len() as int;
                let q = next_send(queue@, old(self).indices@, p);
                if p < n && cancel {
                    &&& step == Step::Done
                    &&& final(self).cancelled
                    &&& final(self).position == n
                } else if q < n {
                    &&& step == Step::Go { nth: q as usize, index: old(self).indices@[q] }
                    &&& final(self).position == q + 1
                    &&& final(self).cancelled == old(self).cancelled
                } else {
                    &&& step == Step::Done
                    &&& final(self).position == n
                    &&& final(self).cancelled == old(self).cancelled
                }
            }),
    {
        let n = self.indices.len();
        if self.position < n && cancel {
            self.cancelled = true;
            self.position = n;
            return Step::Done;
        }
        proof {
            lemma_next_send(queue@, self.indices@, self.position as int);
        }
        let ghost start = self.position as int;
        while self.position < n
            invariant
                n == self.indices@.len(),
                start == old(self).position,
                !(start < n && cancel),
                start <= self.position <= n,
                next_send(queue@, self.indices@, start) == next_send(queue@, self.indices@, self.position as int),
                self.indices == old(self).indices,
                self.sent == old(self).sent,
                self.failures == old(self).failures,
                self.cancelled == old(self).cancelled,
            decreases n - self.position,
        {
            let index = self.indices[self.position];
            let ok = index < queue.len() && queue[index].track.is_some();
            if ok {
                let nth = self.position;
                assert(next_send(queue@, self.indices@, nth as int) == nth);
                self.position = self.position + 1;
                return Step::Go { nth, index };
            }
            assert(next_send(queue@, self.indices@, self.position as int) == next_send(
                queue@,
                self.indices@,
                self.position + 1,
            ));
            self.position = self.position + 1;
        }
        Step::Done
    }

    /// Records that the last entry handed out was sent.
    pub fn record_sent(&mut self, path: PathBuf)
        ensures
            final(self).sent@ == old(self).sent@.push(path),
            final(self).indices == old(self).indices,
            final(self).position == old(self).position,
            final(self).failures == old(self).failures,
            final(self).cancelled == old(self).cancelled,
    {
        self.sent.push(path);
    }

    /// Records that the last entry handed out failed. A failure while a
    /// cancel was asked for is the cancel taking effect: the run ends and
    /// the failure is not counted.
    pub fn record_failure(&mut self, message: String, cancel: bool)
        requires
            old(self).wf(),
        ensures
            final(self).wf(),
            final(self).indices == old(self).indices,
            final(self).sent == old(self).sent,
            cancel ==> final(self).cancelled && final(self).position == old(self).indices@.len()
                && final(self).failures == old(self).failures,
            !cancel ==> final(self).failures@ == old(self).failures@.push(message) && final(self).position == old(self).position && final(self).cancelled == old(self).cancelled,
    {
        if cancel {
            self.cancelled = true;
            self.position = self.indices.len();
        } else {
            self.failures.push(message);
        }
    }

    /// How the transfer ended: cancelled or sent, with its counts.
    pub fn report(&self) -> (r: Report)
        ensures
            r.code == (if self.cancelled {
                status::CANCELLED
            } else {
                status::SENT
            }),
            r.succeeded == self.sent@.len(),
            r.total == self.indices@.len(),
            r.failed == self.failures@.len(),
            r.detail@ == first_text(texts(self.failures@)),
    {
        Report {
            code: if self.cancelled {
                status::CANCELLED
            } else {
                status::SENT
            },
            succeeded: self.sent.len(),
            total: self.indices.len(),
            failed: self.failures.len(),
            detail: first_failure(&self.failures),
        }
    }
}

// ---------------------------------------------------------------------------
// Deleting
// ---------------------------------------------------------------------------

/// A deletion of the checked tracks, in tree order.
pub struct Deletion {
    pub ids: Vec<u32>,
    /// The next position of `ids`.
    pub position: usize,
    pub deleted: usize,
    pub failures: Vec<String>,
}

impl Deletion {
    /// Whether the position is within the run and every deletion so far is
    /// counted once.
    pub open spec fn wf(&self) -> bool {
        &&& self.position <= self.ids@.len()
        &&& self.deleted + self.failures@.len() <= self.position
    }

    /// Starts deleting the tracks checked in `tree`.
    pub fn begin(tree: &MusicTree) -> (d: Deletion)
        ensures
            d.wf(),
            d.ids@ == checked_ids_of(tree@),
            d.position == 0,
            d.deleted == 0,
            d.failures@.len() == 0,
    {
        Deletion { ids: tree.checked_ids(), position: 0, deleted: 0, failures: Vec::new() }
    }

    /// The next track to delete, in order, until there are none.
    pub fn next(&mut self) -> (step: Step)
        requires
            old(self).wf(),
        ensures
            final(self).wf(),
            final(self).ids == old(self).ids,
            final(self).deleted == old(self).deleted,
            final(self).failures == old(self).failures,
            old(self).position < old(self).ids@.len() ==> (step == (Step::Go {
                nth: old(self).position,
                index: old(self).position,
            }) && final(self).position == old(self).position + 1),
            old(self).position >= old(self).ids@.len() ==> step == Step::Done && final(self).position
                == old(self).position,
    {
        if self.position < self.ids.len() {
            let nth = self.position;
            self.position = self.position + 1;
            Step::Go { nth, index: nth }
        } else {
            Step::Done
        }
    }

    /// Records how deleting the last track handed out went: the error's
    /// message when it failed.
    pub fn record(&mut self, outcome: Result<(), String>)
        requires
            old(self).wf(),
            old(self).deleted + old(self).failures@.len() < old(self).position,
        ensures
            final(self).wf(),
            final(self).ids == old(self).ids,
            final(self).position == old(self).position,
            (outcome is Ok) ==> (final(self).deleted == old(self).deleted + 1 && final(self).failures == old(self).failures),
            (outcome is Err) ==> (final(self).deleted == old(self).deleted && final(self).failures@ == old(self).failures@.push(outcome->Err_0)),
    {
        match outcome {
            Ok(()) => {
                self.deleted = self.deleted + 1;
            },
            Err(m) => {
                self.failures.push(m);
            },
        }
    }

    /// How the deletion ended, with its counts.
    pub fn report(&self) -> (r: Report)
        ensures
            r.code == status::DELETED_MANY,
            r.succeeded == self.deleted,
            r.total == self.ids@.len(),
            r.failed == self.failures@.len(),
            r.detail@ == first_text(texts(self.failures@)),
    {
        Report {
            code: status::DELETED_MANY,
            succeeded: self.deleted,
            total: self.ids.len(),
            failed: self.failures.len(),
            detail: first_failure(&self.failures),
        }
    }
}

} // verus!
