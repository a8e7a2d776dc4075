//! The dispatch queue by instants: the entries that are due together leave
//! together.

use crate::scheduler::bucket::{Buckets, ItemBucket};
use crate::scheduler::heap_scheduler::HeapItemBuckets;
use crate::scheduler::item::{key_le, ScheduleItem};
use vstd::multiset::Multiset;
use vstd::prelude::*;
use vstd::seq_lib::to_multiset_build;

verus! {

/// The dispatch queue, handing out its entries an instant at a time.
pub struct HeapTimeBuckets {
    inner: HeapItemBuckets,
}

/// Whether every entry of `items` is due at `time`.
pub open spec fn all_due_at(items: Seq<ScheduleItem>, time: u64) -> bool {
    forall|k: int| 0 <= k < items.len() ==> (#[trigger] items[k]).time == time
}

/// Whether the entries of `items` are in the order of the identities of
/// their jobs.
pub open spec fn by_job(items: Seq<ScheduleItem>) -> bool {
    forall|i: int, j: int|
        0 <= i <= j < items.len() ==> (#[trigger] items[i]).id.0 <= (#[trigger] items[j]).id.0
}

/// Whether every entry of `held` is due later than `time`.
pub open spec fn all_later(held: Multiset<ScheduleItem>, time: u64) -> bool {
    forall|x: ScheduleItem| held.contains(x) ==> x.time > time
}

impl Buckets for HeapTimeBuckets {
    closed spec fn wf(&self) -> bool {
        self.inner.wf()
    }

    closed spec fn contents(&self) -> Multiset<ScheduleItem> {
        self.inner.contents()
    }

    fn new() -> (empty: Self) {
        HeapTimeBuckets { inner: HeapItemBuckets::new() }
    }

    fn add(&mut self, item: ScheduleItem) {
        self.inner.add(item);
    }
}

impl HeapTimeBuckets {
    /// Takes the earliest instant out of the queue, with every entry that
    /// is due at it.
    ///
    /// `None` comes from the empty queue alone. Else the instant is the
    /// earliest at which any entry was due; the entries handed out are those
    /// that were due at it, all of them, in the order of the identities of
    /// their jobs; and what stays in the queue is due later.
    pub fn pop(&mut self) -> (bucket: Option<(u64, Vec<ScheduleItem>)>)
        requires
            old(self).wf(),
        ensures
            final(self).wf(),
            bucket is None <==> old(self).contents().len() == 0,
            bucket is None ==> final(self).contents() == old(self).contents(),
            bucket matches Some((time, items)) ==> {
                &&& items@.len() > 0
                &&& all_due_at(items@, time)
                &&& by_job(items@)
                &&& all_later(final(self).contents(), time)
                &&& old(self).contents() == final(self).contents().add(items@.to_multiset())
            },
    {
        let first = match self.inner.pop() {
            Some(first) => first,
            None => {
                return None;
            },
        };
        let mut bucket = ItemBucket::new(first.time);
        bucket.push(first);
        proof {
            to_multiset_build(Seq::<ScheduleItem>::empty(), first);
            Seq::<ScheduleItem>::empty().to_multiset_ensures();
            assert(old(self).contents() =~= self.contents().add(bucket.items().to_multiset()));
        }
        loop
            invariant
                self.wf(),
                bucket.time() == first.time,
                bucket.items().len() > 0,
                all_due_at(bucket.items(), first.time),
                by_job(bucket.items()),
                old(self).contents() == self.contents().add(bucket.items().to_multiset()),
                forall|x: ScheduleItem|
                    self.contents().contains(x) ==> key_le(bucket.items().last(), x),
            ensures
                all_later(self.contents(), first.time),
            decreases self.contents().len(),
        {
            let next = match self.inner.peek() {
                Some(next) => next,
                None => {
                    assert forall|x: ScheduleItem| self.contents().contains(x) implies x.time
                        > first.time by {
                        vstd::multiset::lemma_multiset_empty_len(self.contents());
                    }
                    break ;
                },
            };
            if next.time != first.time {
                assert forall|x: ScheduleItem| self.contents().contains(x) implies x.time
                    > first.time by {
                    assert(key_le(next, x));
                }
                break ;
            }
            let ghost held = self.contents();
            let ghost before = bucket.items();
            let taken = self.inner.pop();
            assert(taken == Some(next)) by {
                let m = taken.unwrap();
                assert(key_le(m, next) && key_le(next, m));
            }
            bucket.push(next);
            proof {
                to_multiset_build(before, next);
                assert(held.contains(next));
                assert(old(self).contents() =~= self.contents().add(
                    bucket.items().to_multiset(),
                ));
                assert forall|x: ScheduleItem| self.contents().contains(x) implies key_le(
                    bucket.items().last(),
                    x,
                ) by {
                    assert(held.contains(x));
                }
                assert forall|i: int, j: int| 0 <= i <= j < bucket.items().len() implies (
                #[trigger] bucket.items()[i]).id.0 <= (#[trigger] bucket.items()[j]).id.0 by {
                    if j == before.len() {
                        if i < before.len() {
                            assert(before[i].id.0 <= before.last().id.0);
                            assert(key_le(before.last(), next));
                        }
                    }
                }
            }
        }
        Some((bucket.get_time(), bucket.get_items()))
    }
}

} // verus!
