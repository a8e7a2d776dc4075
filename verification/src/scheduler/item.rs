//! Entries of the dispatch queue.

use crate::job::{Job, JobId};
use vstd::prelude::*;

verus! {

/// What the dispatch queue orders: an instant and the job due at it.
pub trait Item {
    /// The instant, in seconds since the epoch, UTC.
    spec fn time_spec(&self) -> u64;

    /// The job.
    spec fn id_spec(&self) -> JobId;

    fn get_time(&self) -> (time: u64)
        ensures
            time == self.time_spec(),
    ;

    fn get_id(&self) -> (id: JobId)
        ensures
            id == self.id_spec(),
    ;
}

/// An entry of the dispatch queue: job `id` is due at `time`.
#[derive(Clone, Copy, Debug, PartialEq, Eq, Structural)]
pub struct ScheduleItem {
    pub id: JobId,
    pub time: u64,
}

impl Item for ScheduleItem {
    open spec fn time_spec(&self) -> u64 {
        self.time
    }

    open spec fn id_spec(&self) -> JobId {
        self.id
    }

    fn get_id(&self) -> (id: JobId) {
        self.id
    }

    fn get_time(&self) -> (time: u64) {
        self.time
    }
}

/// An entry that carries its job with it: the job is due at `time`.
pub struct ScheduleJobItem<J> {
    pub time: u64,
    pub job: J,
}

impl<J: Job> Item for ScheduleJobItem<J> {
    open spec fn time_spec(&self) -> u64 {
        self.time
    }

    open spec fn id_spec(&self) -> JobId {
        self.job.info().id
    }

    fn get_id(&self) -> (id: JobId) {
        self.job.get_id()
    }

    fn get_time(&self) -> (time: u64) {
        self.time
    }
}

impl<J: Job> ScheduleJobItem<J> {
    /// The entry without the job: which job is due, and when.
    pub fn entry(&self) -> (item: ScheduleItem)
        ensures
            item == (ScheduleItem { id: self.job.info().id, time: self.time }),
    {
        ScheduleItem { id: self.job.get_id(), time: self.time }
    }
}

/// The order of the dispatch queue: by ascending instant, and among entries
/// of one instant by ascending job id.
pub open spec fn key_le(a: ScheduleItem, b: ScheduleItem) -> bool {
    a.time < b.time || (a.time == b.time && a.id.0 <= b.id.0)
}

impl ScheduleItem {
    /// Whether this entry comes strictly before `other` in the order of the
    /// queue.
    pub fn precedes(&self, other: &ScheduleItem) -> (before: bool)
        ensures
            before == !key_le(*other, *self),
    {
        self.time < other.time || (self.time == other.time && self.id.0 < other.id.0)
    }
}

/// The order of the queue is total: reflexive, transitive, antisymmetric,
/// and any two entries compare.
pub proof fn lemma_key_le_total_order(a: ScheduleItem, b: ScheduleItem, c: ScheduleItem)
    ensures
        key_le(a, a),
        key_le(a, b) || key_le(b, a),
        key_le(a, b) && key_le(b, c) ==> key_le(a, c),
        key_le(a, b) && key_le(b, a) ==> a == b,
{
}

} // verus!
