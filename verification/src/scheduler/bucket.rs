//! What a dispatch queue offers to the one who fills it.

use crate::scheduler::item::ScheduleItem;
use vstd::multiset::Multiset;
use vstd::prelude::*;

verus! {

/// A collection of queue entries that can be made empty and added to.
pub trait Buckets: Sized {
    /// Whether the collection is in order inside.
    spec fn wf(&self) -> bool;

    /// The entries held, with their multiplicities.
    spec fn contents(&self) -> Multiset<ScheduleItem>;

    fn new() -> (empty: Self)
        ensures
            empty.wf(),
            empty.contents() == Multiset::<ScheduleItem>::empty(),
    ;

    fn add(&mut self, item: ScheduleItem)
        requires
            old(self).wf(),
        ensures
            final(self).wf(),
            final(self).contents() == old(self).contents().insert(item),
    ;
}

/// The entries that are due at one instant, kept together.
#[derive(Debug)]
pub struct ItemBucket {
    time: u64,
    items: Vec<ScheduleItem>,
}

impl ItemBucket {
    /// The instant of the bucket.
    pub closed spec fn time(&self) -> u64 {
        self.time
    }

    /// The entries in the bucket, in the order in which they came.
    pub closed spec fn items(&self) -> Seq<ScheduleItem> {
        self.items@
    }

    /// An empty bucket for the instant `time`.
    pub fn new(time: u64) -> (bucket: Self)
        ensures
            bucket.time() == time,
            bucket.items() == Seq::<ScheduleItem>::empty(),
    {
        Self { time, items: Vec::new() }
    }

    /// Brings the instant of the bucket `n` seconds nearer.
    pub fn forward_n(&mut self, n: u64)
        requires
            n <= old(self).time(),
        ensures
            final(self).time() == old(self).time() - n,
            final(self).items() == old(self).items(),
    {
        self.time -= n;
    }

    /// The instant of the bucket.
    pub fn get_time(&self) -> (time: u64)
        ensures
            time == self.time(),
    {
        self.time
    }

    /// Puts an entry into the bucket, behind those that are in it.
    pub fn push(&mut self, item: ScheduleItem)
        ensures
            final(self).time() == old(self).time(),
            final(self).items() == old(self).items().push(item),
    {
        self.items.push(item);
    }

    /// Takes the entries out of the bucket, which is empty afterwards.
    pub fn get_items(&mut self) -> (items: Vec<ScheduleItem>)
        ensures
            items@ == old(self).items(),
            final(self).items() == Seq::<ScheduleItem>::empty(),
            final(self).time() == old(self).time(),
    {
        let mut items: Vec<ScheduleItem> = Vec::new();
        std::mem::swap(&mut self.items, &mut items);
        items
    }

    /// Whether this bucket comes strictly before `other`: buckets are
    /// ordered by their instants.
    pub fn precedes(&self, other: &ItemBucket) -> (before: bool)
        ensures
            before == (self.time() < other.time()),
    {
        self.time < other.time
    }
}

} // verus!
