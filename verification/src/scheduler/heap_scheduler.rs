//! The dispatch queue as a binary heap, and the scheduler upon it.

use crate::calendar::MAX_INSTANT;
use crate::extensions::{Extensions, TypeKey};
use crate::job::base_job::BaseJob;
use crate::job::{AsyncJob, AsyncJobBuilder, Job, JobId, SyncJob, SyncJobBuilder};
use crate::scheduler::bucket::Buckets;
use crate::scheduler::item::{key_le, lemma_key_le_total_order, ScheduleItem};
use crate::zone::Zone;
use vstd::multiset::Multiset;
use vstd::prelude::*;
use vstd::seq_lib::{to_multiset_build, to_multiset_insert, to_multiset_len, to_multiset_remove};

verus! {

/// The index of the parent of node `i` of a binary heap laid out in a
/// sequence.
spec fn parent(i: int) -> int {
    (i - 1) / 2
}

/// Every node comes no earlier than its parent, but for node `k`, of which
/// nothing is said.
spec fn ordered_but_above(s: Seq<ScheduleItem>, k: int) -> bool {
    forall|i: int| 0 < i < s.len() && i != k ==> key_le(s[parent(i)], #[trigger] s[i])
}

/// Every node comes no earlier than its parent, but for the children of
/// node `k`, of which nothing is said.
spec fn ordered_but_below(s: Seq<ScheduleItem>, k: int) -> bool {
    forall|i: int| 0 < i < s.len() && parent(i) != k ==> key_le(s[parent(i)], #[trigger] s[i])
}

/// The children of node `k` come no earlier than its parent.
spec fn bridged(s: Seq<ScheduleItem>, k: int) -> bool {
    forall|i: int|
        0 < i < s.len() && parent(i) == k && k > 0 ==> key_le(s[parent(k)], #[trigger] s[i])
}

/// The heap order: every node comes no earlier than its parent.
spec fn heap_ordered(s: Seq<ScheduleItem>) -> bool {
    forall|i: int| 0 < i < s.len() ==> key_le(s[parent(i)], #[trigger] s[i])
}

/// In a heap the root comes no later than any node.
proof fn lemma_root_is_least(s: Seq<ScheduleItem>, i: int)
    requires
        heap_ordered(s),
        0 <= i < s.len(),
    ensures
        key_le(s[0], s[i]),
    decreases i,
{
    if i > 0 {
        lemma_root_is_least(s, parent(i));
        lemma_key_le_total_order(s[0], s[parent(i)], s[i]);
    }
}

/// Exchanging two elements of a sequence keeps its multiset.
proof fn lemma_swap_keeps_multiset(s: Seq<ScheduleItem>, i: int, j: int)
    requires
        0 <= i < s.len(),
        0 <= j < s.len(),
    ensures
        s.update(i, s[j]).update(j, s[i]).to_multiset() == s.to_multiset(),
{
    broadcast use to_multiset_remove, to_multiset_insert;

    let s1 = s.update(i, s[j]);
    let s2 = s1.update(j, s[i]);
    assert(s1 =~= s.remove(i).insert(i, s[j]));
    assert(s2 =~= s1.remove(j).insert(j, s[i]));
    assert(s1.to_multiset() =~= s.to_multiset().remove(s[i]).insert(s[j]));
    assert(s2.to_multiset() =~= s1.to_multiset().remove(s1[j]).insert(s[i]));
    assert(s.to_multiset().count(s[i]) > 0) by {
        s.to_multiset_ensures();
        assert(s.contains(s[i]));
    }
    assert(s.to_multiset().count(s[j]) > 0) by {
        s.to_multiset_ensures();
        assert(s.contains(s[j]));
    }
    assert(s2.to_multiset() =~= s.to_multiset());
}

/// The dispatch queue: a binary min-heap of entries, the earliest at the
/// root.
pub struct HeapItemBuckets {
    items: Vec<ScheduleItem>,
}

impl HeapItemBuckets {
    /// Whether `m` is held and no entry held comes before it.
    pub open spec fn is_least(&self, m: ScheduleItem) -> bool {
        &&& self.contents().contains(m)
        &&& forall|x: ScheduleItem| self.contents().contains(x) ==> key_le(m, x)
    }

    /// Exchanges the entries at `i` and `j`.
    fn swap(&mut self, i: usize, j: usize)
        requires
            i < old(self).items@.len(),
            j < old(self).items@.len(),
        ensures
            final(self).items@ == old(self).items@.update(i as int, old(self).items@[j as int]).update(
                j as int,
                old(self).items@[i as int],
            ),
            final(self).items@.to_multiset() == old(self).items@.to_multiset(),
    {
        let a = self.items[i];
        let b = self.items[j];
        self.items.set(i, b);
        self.items.set(j, a);
        proof {
            lemma_swap_keeps_multiset(old(self).items@, i as int, j as int);
        }
    }

    /// Moves the entry at `start` up until its parent comes no later.
    fn sift_up(&mut self, start: usize)
        requires
            start < old(self).items@.len(),
            ordered_but_above(old(self).items@, start as int),
            bridged(old(self).items@, start as int),
        ensures
            heap_ordered(final(self).items@),
            final(self).items@.to_multiset() == old(self).items@.to_multiset(),
            final(self).items@.len() == old(self).items@.len(),
    {
        let mut k = start;
        while k > 0
            invariant
                k < self.items@.len(),
                self.items@.len() == old(self).items@.len(),
                ordered_but_above(self.items@, k as int),
                bridged(self.items@, k as int),
                self.items@.to_multiset() == old(self).items@.to_multiset(),
            ensures
                heap_ordered(self.items@),
                self.items@.to_multiset() == old(self).items@.to_multiset(),
                self.items@.len() == old(self).items@.len(),
            decreases k,
        {
            let p = (k - 1) / 2;
            if !self.items[k].precedes(&self.items[p]) {
                break ;
            }
            let ghost s = self.items@;
            self.swap(k, p);
            proof {
                let t = self.items@;
                assert forall|i: int| 0 < i < t.len() && i != p implies key_le(
                    t[parent(i)],
                    #[trigger] t[i],
                ) by {
                    if i == k {
                    } else if parent(i) == k {
                        assert(key_le(s[parent(k as int)], s[i]));
                    } else if parent(i) == p {
                        assert(key_le(s[parent(i)], s[i]));
                        lemma_key_le_total_order(s[k as int], s[p as int], s[i]);
                    } else {
                        assert(key_le(s[parent(i)], s[i]));
                    }
                }
                assert forall|i: int| 0 < i < t.len() && parent(i) == p && p > 0 implies key_le(
                    t[parent(p as int)],
                    #[trigger] t[i],
                ) by {
                    assert(key_le(s[parent(p as int)], s[p as int]));
                    if i == k {
                    } else {
                        assert(key_le(s[parent(i)], s[i]));
                        lemma_key_le_total_order(s[parent(p as int)], s[p as int], s[i]);
                    }
                }
            }
            k = p;
        }
    }

    /// Moves the entry at `start` down until no child comes before it.
    fn sift_down(&mut self, start: usize)
        requires
            start < old(self).items@.len(),
            ordered_but_below(old(self).items@, start as int),
            bridged(old(self).items@, start as int),
        ensures
            heap_ordered(final(self).items@),
            final(self).items@.to_multiset() == old(self).items@.to_multiset(),
            final(self).items@.len() == old(self).items@.len(),
    {
        let n = self.items.len();
        let mut k = start;
        loop
            invariant
                k < n,
                n == self.items@.len(),
                self.items@.len() == old(self).items@.len(),
                ordered_but_below(self.items@, k as int),
                bridged(self.items@, k as int),
                self.items@.to_multiset() == old(self).items@.to_multiset(),
            ensures
                heap_ordered(self.items@),
                self.items@.to_multiset() == old(self).items@.to_multiset(),
                self.items@.len() == old(self).items@.len(),
            decreases n - k,
        {
            if k >= n / 2 {
                break ;
            }
            let left = 2 * k + 1;
            let right = left + 1;
            let mut c = left;
            if right < n && self.items[right].precedes(&self.items[left]) {
                c = right;
            }
            let ghost s = self.items@;
            proof {
                lemma_key_le_total_order(s[left as int], s[right as int % n as int], s[k as int]);
                lemma_key_le_total_order(s[right as int % n as int], s[left as int], s[k as int]);
            }
            if !self.items[c].precedes(&self.items[k]) {
                proof {
                    assert forall|i: int| 0 < i < s.len() implies key_le(
                        s[parent(i)],
                        #[trigger] s[i],
                    ) by {
                        if parent(i) == k {
                            assert(i == left || i == right);
                            lemma_key_le_total_order(s[k as int], s[c as int], s[i]);
                        }
                    }
                }
                break ;
            }
            self.swap(k, c);
            proof {
                let t = self.items@;
                assert forall|i: int| 0 < i < t.len() && parent(i) != c implies key_le(
                    t[parent(i)],
                    #[trigger] t[i],
                ) by {
                    if i == c {
                    } else if parent(i) == k {
                        assert(i == left || i == right);
                    } else if i == k {
                        assert(key_le(s[parent(k as int)], s[c as int]));
                    } else {
                        assert(key_le(s[parent(i)], s[i]));
                    }
                }
                assert forall|i: int| 0 < i < t.len() && parent(i) == c && c > 0 implies key_le(
                    t[parent(c as int)],
                    #[trigger] t[i],
                ) by {
                    assert(key_le(s[parent(i)], s[i]));
                }
            }
            k = c;
        }
    }

    /// The number of entries.
    pub fn len(&self) -> (n: usize)
        requires
            self.wf(),
        ensures
            n == self.contents().len(),
    {
        proof {
            self.items@.to_multiset_ensures();
        }
        self.items.len()
    }

    /// Whether the queue holds no entry.
    pub fn is_empty(&self) -> (empty: bool)
        requires
            self.wf(),
        ensures
            empty == (self.contents().len() == 0),
    {
        proof {
            self.items@.to_multiset_ensures();
        }
        self.items.len() == 0
    }

    /// The earliest entry, which stays in the queue.
    pub fn peek(&self) -> (top: Option<ScheduleItem>)
        requires
            self.wf(),
        ensures
            top is None <==> self.contents().len() == 0,
            top matches Some(m) ==> self.is_least(m),
    {
        proof {
            self.items@.to_multiset_ensures();
        }
        if self.items.len() == 0 {
            None
        } else {
            proof {
                self.lemma_root_least();
            }
            Some(self.items[0])
        }
    }

    /// The root of a heap that is not empty is its least entry.
    proof fn lemma_root_least(&self)
        requires
            self.wf(),
            self.items@.len() > 0,
        ensures
            self.is_least(self.items@[0]),
    {
        let s = self.items@;
        s.to_multiset_ensures();
        assert(s.contains(s[0]));
        assert forall|x: ScheduleItem| self.contents().contains(x) implies key_le(s[0], x) by {
            assert(s.contains(x));
            let i = choose|i: int| 0 <= i < s.len() && s[i] == x;
            lemma_root_is_least(s, i);
        }
    }

    /// Takes the earliest entry out of the queue.
    ///
    /// `None` comes from the empty queue alone, which stays as it was. Else
    /// the entry handed out was held, no entry held came before it, and the
    /// queue holds one occurrence of it less and is otherwise as before.
    pub fn pop(&mut self) -> (top: Option<ScheduleItem>)
        requires
            old(self).wf(),
        ensures
            final(self).wf(),
            top is None <==> old(self).contents().len() == 0,
            top is None ==> final(self).contents() == old(self).contents(),
            top matches Some(m) ==> old(self).is_least(m) && final(self).contents() == old(
                self,
            ).contents().remove(m),
    {
        let ghost s = self.items@;
        proof {
            to_multiset_len(s);
        }
        if self.items.len() == 0 {
            return None;
        }
        proof {
            self.lemma_root_least();
            lemma_take_root_multiset(s);
        }
        let top = self.items[0];
        let last = self.items.pop().unwrap();
        assert(self.items@ == s.drop_last());
        if self.items.len() > 0 {
            self.items.set(0, last);
            proof {
                assert forall|i: int|
                    0 < i < self.items@.len() && parent(i) != 0 implies key_le(
                    self.items@[parent(i)],
                    #[trigger] self.items@[i],
                ) by {
                    assert(key_le(s[parent(i)], s[i]));
                }
            }
            self.sift_down(0);
        }
        Some(top)
    }
}

/// Taking the root out of a heap layout, by moving the last element into
/// its place, takes one occurrence of the root out of the multiset.
proof fn lemma_take_root_multiset(s: Seq<ScheduleItem>)
    requires
        s.len() > 0,
    ensures
        s.len() == 1 ==> s.drop_last().to_multiset() == s.to_multiset().remove(s[0]),
        s.len() > 1 ==> s.drop_last().update(0, s.last()).to_multiset() == s.to_multiset().remove(
            s[0],
        ),
{
    let t = s.drop_last();
    assert(t =~= s.remove(s.len() - 1));
    to_multiset_remove(s, s.len() - 1);
    assert(t.to_multiset() == s.to_multiset().remove(s.last()));
    if s.len() > 1 {
        lemma_set_multiset(t, 0, s.last());
        assert(s.to_multiset().count(s[0]) > 0) by {
            s.to_multiset_ensures();
            assert(s.contains(s[0]));
        }
        assert(s.to_multiset().count(s.last()) > 0) by {
            s.to_multiset_ensures();
            assert(s.contains(s.last()));
        }
        assert(t.to_multiset().count(t[0]) > 0) by {
            t.to_multiset_ensures();
            assert(t.contains(t[0]));
        }
        assert(t.update(0, s.last()).to_multiset() =~= s.to_multiset().remove(s[0]));
    }
}

/// Overwriting one element takes it out of the multiset and puts the new
/// one in.
proof fn lemma_set_multiset(s: Seq<ScheduleItem>, i: int, v: ScheduleItem)
    requires
        0 <= i < s.len(),
    ensures
        s.update(i, v).to_multiset() == s.to_multiset().remove(s[i]).insert(v),
{
    broadcast use to_multiset_remove, to_multiset_insert;

    assert(s.update(i, v) =~= s.remove(i).insert(i, v));
}

impl Buckets for HeapItemBuckets {
    closed spec fn wf(&self) -> bool {
        heap_ordered(self.items@)
    }

    closed spec fn contents(&self) -> Multiset<ScheduleItem> {
        self.items@.to_multiset()
    }

    fn new() -> (empty: Self) {
        let empty = HeapItemBuckets { items: Vec::new() };
        proof {
            empty.items@.to_multiset_ensures();
            assert(empty.items@.to_multiset() =~= Multiset::<ScheduleItem>::empty());
        }
        empty
    }

    fn add(&mut self, item: ScheduleItem) {
        broadcast use to_multiset_build;

        let ghost s = self.items@;
        self.items.push(item);
        let last = self.items.len() - 1;
        proof {
            let t = self.items@;
            assert forall|i: int| 0 < i < t.len() && i != last implies key_le(
                t[parent(i)],
                #[trigger] t[i],
            ) by {
                assert(key_le(s[parent(i)], s[i]));
            }
        }
        self.sift_up(last);
    }
}

/// What the driver does next.
#[derive(Clone, Copy, Debug, PartialEq, Eq, Structural)]
pub enum Dispatch {
    /// No job is waiting: look again in a second.
    Idle,
    /// The entry was taken out of the queue and its job, which is
    /// cancelled, does not fire.
    Evict(ScheduleItem),
    /// The entry was taken out of the queue: its job fires once `wait`
    /// seconds have passed.
    Fire { item: ScheduleItem, wait: u64 },
}

/// A job in the table: the job, and the instant of its entry in the queue
/// where it has one.
pub(crate) struct Slot<J> {
    pub(crate) job: J,
    pub(crate) due: Option<u64>,
}

/// The scheduler: a table of jobs by their identity, the queue of their next
/// firings, the zone the schedules are reckoned in, and the extensions that
/// handlers ask for.
///
/// Identities are given out from 1 upwards, in the order of registration.
pub struct HeapScheduler<J, E> {
    max_id: usize,
    jobs: Vec<Slot<J>>,
    heap: HeapItemBuckets,
    tz: Zone,
    extensions: Extensions<E>,
}

/// The number of times an entry is in the queue that holds one entry for
/// each job that is due: once where the entry is that of its job, else not
/// at all.
pub open spec fn entry_count(dues: Seq<Option<u64>>, x: ScheduleItem) -> nat {
    if 1 <= x.id.0 <= dues.len() && dues[x.id.0 - 1] == Some(x.time) {
        1
    } else {
        0
    }
}

/// The entry of the job at index `k`, which is due.
pub open spec fn entry_of(dues: Seq<Option<u64>>, k: int) -> ScheduleItem {
    ScheduleItem { id: JobId((k + 1) as usize), time: dues[k].unwrap() }
}

/// Whether `item` is the entry of a job that is due and no entry of such a
/// job comes before it.
pub open spec fn next_of(dues: Seq<Option<u64>>, item: ScheduleItem) -> bool {
    &&& 1 <= item.id.0 <= dues.len()
    &&& dues[item.id.0 - 1] == Some(item.time)
    &&& forall|j: int|
        0 <= j < dues.len() && (#[trigger] dues[j]) is Some ==> key_le(item, entry_of(dues, j))
}

/// Whether no job is due.
pub open spec fn none_due(dues: Seq<Option<u64>>) -> bool {
    forall|j: int| 0 <= j < dues.len() ==> (#[trigger] dues[j]) is None
}

/// Entries leave the queue in ascending order: of two taken one after the
/// other, with none put in between, the first comes no later than the
/// second.
pub proof fn lemma_pops_ascend(dues: Seq<Option<u64>>, first: ScheduleItem, second: ScheduleItem)
    requires
        next_of(dues, first),
        next_of(dues.update(first.id.0 - 1, None), second),
    ensures
        key_le(first, second),
        first.time <= second.time,
        first.id != second.id,
{
    let rest = dues.update(first.id.0 - 1, None);
    let j = second.id.0 - 1;
    assert(rest[j] is Some);
    assert(dues[j] is Some);
    assert(entry_of(dues, j) == second);
}

/// Which entry leaves the queue next is settled by the queue alone: no two
/// entries are both the next.
pub proof fn lemma_next_is_settled(dues: Seq<Option<u64>>, a: ScheduleItem, b: ScheduleItem)
    requires
        next_of(dues, a),
        next_of(dues, b),
    ensures
        a == b,
{
    assert(dues[a.id.0 - 1] is Some);
    assert(dues[b.id.0 - 1] is Some);
    assert(entry_of(dues, a.id.0 - 1) == a);
    assert(entry_of(dues, b.id.0 - 1) == b);
    assert(key_le(a, b) && key_le(b, a));
}

/// Jobs due at instants that differ fire in the order of their instants:
/// the entry that is taken next is not later than the entry of any job that
/// is due.
pub proof fn lemma_earliest_fires_first(dues: Seq<Option<u64>>, item: ScheduleItem, k: int)
    requires
        next_of(dues, item),
        0 <= k < dues.len(),
        dues[k] is Some,
    ensures
        item.time <= dues[k].unwrap(),
        item.time == dues[k].unwrap() ==> item.id.0 <= k + 1,
{
    assert(key_le(item, entry_of(dues, k)));
}

/// A cancelled job has no next firing: asked for it, it stays as it is and
/// out of the queue.
pub proof fn lemma_cancelled_stays_out(job: BaseJob, now: u64, east: i32)
    requires
        job.cancel,
    ensures
        job.upcoming(now, east) is None,
        job.due_after(now, east) is None,
        job.noted(now, east) == job,
        job.noted(now, east).cancel,
{
}

/// Taking note of the next firing leaves a job cancelled or not as it was.
pub proof fn lemma_noting_keeps_cancel(job: BaseJob, now: u64, east: i32)
    ensures
        job.noted(now, east).cancel == job.cancel,
        job.noted(now, east).id == job.id,
        job.noted(now, east).jobschedule == job.jobschedule,
{
}

/// The wait before a firing due at `time`, seen at `now`: the seconds left,
/// and none where the instant has come.
pub open spec fn wait_for(time: u64, now: u64) -> u64 {
    if time > now {
        (time - now) as u64
    } else {
        0
    }
}

/// The states that the jobs of `list` have once they are registered in
/// their order at `now`, the first of them under the identity `first`: each
/// has its identity and has taken note of its next firing.
pub open spec fn enrolled(list: Seq<BaseJob>, first: nat, now: u64, east: i32) -> Seq<BaseJob> {
    Seq::new(
        list.len(),
        |i: int| (BaseJob { id: JobId((first + i) as usize), ..list[i] }).noted(now, east),
    )
}

/// The instants at which the jobs of `list` are due once they are
/// registered at `now`.
pub open spec fn enrolled_dues(list: Seq<BaseJob>, now: u64, east: i32) -> Seq<Option<u64>> {
    Seq::new(list.len(), |i: int| list[i].due_after(now, east))
}

/// Whether the cron grammar accepts the schedule of every job of `list`.
pub open spec fn all_valid(list: Seq<BaseJob>) -> bool {
    forall|i: int| 0 <= i < list.len() ==> (#[trigger] list[i]).jobschedule.valid()
}

/// What the jobs of a list are besides their states.
pub open spec fn rests_of<J: Job>(jobs: Seq<J>) -> Seq<J::Rest> {
    Seq::new(jobs.len(), |i: int| jobs[i].rest())
}

/// What the jobs of a list of builders are besides their states, once they
/// reckon in `zone`.
pub open spec fn sync_rests<F>(jobs: Seq<SyncJobBuilder<F>>, zone: Zone) -> Seq<(Zone, F)> {
    Seq::new(jobs.len(), |i: int| (zone, jobs[i].f))
}

/// What the jobs of a list of builders are besides their states, once they
/// reckon in `zone`.
pub open spec fn async_rests<F>(jobs: Seq<AsyncJobBuilder<F>>, zone: Zone) -> Seq<(Zone, F)> {
    Seq::new(jobs.len(), |i: int| (zone, jobs[i].f))
}

/// The states of the jobs of a list.
pub open spec fn infos_of<J: Job>(jobs: Seq<J>) -> Seq<BaseJob> {
    Seq::new(jobs.len(), |i: int| jobs[i].info())
}

/// The states of the jobs that a list of builders holds.
pub open spec fn sync_infos<F>(jobs: Seq<SyncJobBuilder<F>>) -> Seq<BaseJob> {
    Seq::new(jobs.len(), |i: int| jobs[i].info)
}

/// The states of the jobs that a list of builders holds.
pub open spec fn async_infos<F>(jobs: Seq<AsyncJobBuilder<F>>) -> Seq<BaseJob> {
    Seq::new(jobs.len(), |i: int| jobs[i].info)
}

/// When a job is next due does not depend on its identity.
pub proof fn lemma_noting_ignores_id(job: BaseJob, id: JobId, now: u64, east: i32)
    ensures
        (BaseJob { id, ..job }).due_after(now, east) == job.due_after(now, east),
{
}

/// The list in the opposite order.
fn reversed<T>(list: Vec<T>) -> (turned: Vec<T>)
    ensures
        turned@ == list@.reverse(),
{
    let mut list = list;
    let ghost all = list@;
    let mut turned: Vec<T> = Vec::new();
    loop
        invariant
            list@.len() + turned@.len() == all.len(),
            list@ == all.subrange(0, list@.len() as int),
            forall|k: int| 0 <= k < turned@.len() ==> turned@[k] == all[all.len() - 1 - k],
        ensures
            list@.len() == 0,
        decreases list@.len(),
    {
        match list.pop() {
            Some(x) => {
                turned.push(x);
            },
            None => {
                break ;
            },
        }
    }
    assert(turned@ =~= all.reverse());
    turned
}

/// Whether the cron grammar accepts the schedule of every job of the list.
fn every_job_valid<J: Job>(jobs: &Vec<J>) -> (all: bool)
    ensures
        all == all_valid(infos_of(jobs@)),
{
    let mut i: usize = 0;
    while i < jobs.len()
        invariant
            i <= jobs@.len(),
            forall|k: int| 0 <= k < i ==> (#[trigger] infos_of(jobs@)[k]).jobschedule.valid(),
        decreases jobs@.len() - i,
    {
        if !jobs[i].base().jobschedule.is_valid() {
            assert(!infos_of(jobs@)[i as int].jobschedule.valid());
            return false;
        }
        i += 1;
    }
    true
}

/// A firing begins no earlier than its instant: seen in time, the wait ends
/// at the instant itself, and seen late, there is no wait.
pub proof fn lemma_wait_reaches_instant(time: u64, now: u64)
    ensures
        now + wait_for(time, now) >= time,
        now <= time ==> now + wait_for(time, now) == time,
        now >= time ==> wait_for(time, now) == 0,
{
}

impl<J: Job, E> HeapScheduler<J, E> {
    /// The state of each job, the job with identity `k + 1` at index `k`.
    pub closed spec fn infos(&self) -> Seq<BaseJob> {
        Seq::new(self.jobs@.len(), |k: int| self.jobs@[k].job.info())
    }

    /// For each job the instant of its entry in the queue, where it has
    /// one. The queue holds these entries and no others.
    pub closed spec fn dues(&self) -> Seq<Option<u64>> {
        Seq::new(self.jobs@.len(), |k: int| self.jobs@[k].due)
    }

    /// What each job is besides its state, in the order of the table: the
    /// handlers, as they were submitted.
    pub closed spec fn rests(&self) -> Seq<J::Rest> {
        Seq::new(self.jobs@.len(), |k: int| self.jobs@[k].job.rest())
    }

    /// The zone in which the schedules are reckoned.
    pub closed spec fn zone(&self) -> Zone {
        self.tz
    }

    /// The extensions, by the identifiers of their keys.
    pub closed spec fn exts(&self) -> Map<u64, E> {
        self.extensions@
    }

    /// Whether the parts of the scheduler agree: the queue is a heap and
    /// holds one entry for each job that is due, and no other.
    pub closed spec fn queue_agrees(&self) -> bool {
        &&& self.heap.wf()
        &&& self.max_id == self.jobs@.len()
        &&& forall|x: ScheduleItem| #[trigger]
            self.heap.contents().count(x) == entry_count(self.dues(), x)
    }

    /// Whether the scheduler is in order: every job carries the identity of
    /// its place and a schedule that the cron grammar accepts, and the queue
    /// agrees with the table.
    pub open spec fn wf(&self) -> bool {
        &&& self.queue_agrees()
        &&& self.infos().len() == self.dues().len()
        &&& self.infos().len() == self.rests().len()
        &&& forall|k: int|
            0 <= k < self.infos().len() ==> (#[trigger] self.infos()[k]).id == JobId(
                (k + 1) as usize,
            ) && self.infos()[k].jobschedule.valid()
    }

    /// The entries in the queue, with their multiplicities.
    pub closed spec fn queue(&self) -> Multiset<ScheduleItem> {
        self.heap.contents()
    }

    /// Whether `item` is the entry of a job and no entry in the queue comes
    /// before it.
    pub open spec fn is_next(&self, item: ScheduleItem) -> bool {
        next_of(self.dues(), item)
    }

    /// Whether no job is due.
    pub open spec fn idle(&self) -> bool {
        none_due(self.dues())
    }

    /// The queue holds the entry of each job that is due, once, and nothing
    /// else: so no job has two entries in it.
    pub proof fn lemma_one_entry_per_job(&self, x: ScheduleItem, y: ScheduleItem)
        requires
            self.wf(),
        ensures
            self.queue().count(x) == entry_count(self.dues(), x),
            self.queue().count(x) <= 1,
            self.queue().contains(x) && self.queue().contains(y) && x.id == y.id ==> x == y,
    {
        assert(self.heap.contents().count(x) == entry_count(self.dues(), x));
        assert(self.heap.contents().count(y) == entry_count(self.dues(), y));
    }

    /// A scheduler without jobs that reckons in the zone of the host.
    pub fn new() -> (scheduler: Self)
        ensures
            scheduler.rests().len() == 0,
            scheduler.wf(),
            scheduler.infos().len() == 0,
            scheduler.exts() == Map::<u64, E>::empty(),
    {
        Self::with_tz(Zone::local())
    }

    /// A scheduler without jobs that reckons in `tz`.
    pub fn with_tz(tz: Zone) -> (scheduler: Self)
        ensures
            scheduler.rests().len() == 0,
            scheduler.wf(),
            scheduler.infos().len() == 0,
            scheduler.zone() == tz,
            scheduler.exts() == Map::<u64, E>::empty(),
    {
        let scheduler = HeapScheduler {
            extensions: Extensions::new(),
            jobs: Vec::new(),
            tz,
            heap: HeapItemBuckets::new(),
            max_id: 0,
        };
        assert(scheduler.infos() =~= Seq::empty());
        assert(scheduler.dues() =~= Seq::empty());
        scheduler
    }

    /// The zone in which the schedules are reckoned.
    pub fn get_tz(&self) -> (tz: Zone)
        ensures
            tz == self.zone(),
    {
        self.tz
    }

    /// Keeps `ext` under `key` for the handlers, in place of what was kept
    /// under the key before.
    pub fn add_ext(&mut self, key: TypeKey, ext: E)
        ensures
            final(self).rests() == old(self).rests(),
            final(self).exts() == old(self).exts().insert(key.0, ext),
            final(self).infos() == old(self).infos(),
            final(self).dues() == old(self).dues(),
            final(self).zone() == old(self).zone(),
            old(self).wf() ==> final(self).wf(),
    {
        self.extensions.insert(key, ext);
        assert(self.infos() =~= old(self).infos());
        assert(self.dues() =~= old(self).dues());
    }

    /// The extensions.
    pub fn extensions(&self) -> (exts: &Extensions<E>)
        ensures
            exts@ == self.exts(),
    {
        &self.extensions
    }

    /// The number of jobs.
    pub fn job_count(&self) -> (n: usize)
        ensures
            n == self.infos().len(),
    {
        self.jobs.len()
    }

    /// The job with the identity `id`, where there is one.
    pub fn job(&self, id: JobId) -> (found: Option<&J>)
        ensures
            found matches Some(job) ==> job.rest() == self.rests()[id.0 - 1],
            found is Some <==> 1 <= id.0 <= self.infos().len(),
            found matches Some(job) ==> job.info() == self.infos()[id.0 - 1],
    {
        if 1 <= id.0 && id.0 <= self.jobs.len() {
            Some(&self.jobs[id.0 - 1].job)
        } else {
            None
        }
    }

    /// Registers `job`: it gets the next identity, and where an instant
    /// after `now` is found for its schedule it is due at that instant.
    pub fn add_job(&mut self, job: J, now: u64) -> (id: JobId)
        requires
            old(self).wf(),
            job.info().jobschedule.valid(),
            now <= MAX_INSTANT,
            old(self).infos().len() < usize::MAX,
        ensures
            final(self).rests() == old(self).rests().push(job.rest()),
            final(self).wf(),
            id == JobId((old(self).infos().len() + 1) as usize),
            final(self).infos() == old(self).infos().push(
                (BaseJob { id, ..job.info() }).noted(now, old(self).zone().offset()),
            ),
            final(self).dues() == old(self).dues().push(
                (BaseJob { id, ..job.info() }).due_after(now, old(self).zone().offset()),
            ),
            final(self).dues().last() matches Some(t) ==> t > now,
            final(self).zone() == old(self).zone(),
            final(self).exts() == old(self).exts(),
    {
        let mut job = job;
        let id = JobId(self.max_id + 1);
        job.set_id(id);
        let item = job.next(now, self.tz);
        let due = match item {
            Some(entry) => {
                self.heap.add(entry);
                Some(entry.time)
            },
            None => None,
        };
        self.jobs.push(Slot { job, due });
        self.max_id = self.max_id + 1;
        proof {
            let start = (BaseJob { id, ..job.info() });
            let east = old(self).zone().offset();
            assert(self.infos() =~= old(self).infos().push(start.noted(now, east)));
            assert(self.dues() =~= old(self).dues().push(start.due_after(now, east)));
            assert forall|x: ScheduleItem| #[trigger]
                self.heap.contents().count(x) == entry_count(self.dues(), x) by {
                assert(old(self).heap.contents().count(x) == entry_count(old(self).dues(), x));
            }
        }
        id
    }

    /// Registers `job` where its schedule is one that the cron grammar
    /// accepts, and leaves the scheduler as it was where it is not.
    pub fn try_add_job(&mut self, job: J, now: u64) -> (id: Option<JobId>)
        requires
            old(self).wf(),
            now <= MAX_INSTANT,
            old(self).infos().len() < usize::MAX,
        ensures
            id is Some ==> final(self).rests() == old(self).rests().push(job.rest()),
            id is None ==> final(self).rests() == old(self).rests(),
            final(self).wf(),
            id is Some <==> job.info().jobschedule.valid(),
            id matches Some(i) ==> {
                &&& i == JobId((old(self).infos().len() + 1) as usize)
                &&& final(self).infos() == old(self).infos().push(
                    (BaseJob { id: i, ..job.info() }).noted(now, old(self).zone().offset()),
                )
                &&& final(self).dues() == old(self).dues().push(
                    (BaseJob { id: i, ..job.info() }).due_after(now, old(self).zone().offset()),
                )
            },
            id is Some ==> (final(self).dues().last() matches Some(t) ==> t > now),
            id is None ==> final(self).infos() == old(self).infos(),
            id is None ==> final(self).dues() == old(self).dues(),
            final(self).zone() == old(self).zone(),
            final(self).exts() == old(self).exts(),
    {
        if job.base().jobschedule.is_valid() {
            Some(self.add_job(job, now))
        } else {
            None
        }
    }

    /// Registers the jobs of `jobs` in their order, as `add_job` does each.
    /// The cron grammar accepts the schedule of every one of them.
    pub fn add(&mut self, jobs: Vec<J>, now: u64) -> (r: &mut Self)
        requires
            old(self).wf(),
            now <= MAX_INSTANT,
            old(self).infos().len() + jobs@.len() <= usize::MAX,
            all_valid(infos_of(jobs@)),
        ensures
            r.wf(),
            r.infos() == old(self).infos() + enrolled(
                infos_of(jobs@),
                old(self).infos().len() + 1,
                now,
                old(self).zone().offset(),
            ),
            r.dues() == old(self).dues() + enrolled_dues(
                infos_of(jobs@),
                now,
                old(self).zone().offset(),
            ),
            r.rests() == old(self).rests() + rests_of(jobs@),
            r.zone() == old(self).zone(),
            r.exts() == old(self).exts(),
            *final(self) == *final(r),
    {
        let ghost list = infos_of(jobs@);
        let ghost rest = rests_of(jobs@);
        let ghost east = self.zone().offset();
        let ghost first = old(self).infos().len() + 1;
        let n = jobs.len();
        let mut stack = reversed(jobs);
        let mut i: usize = 0;
        proof {
            assert(self.infos() =~= old(self).infos() + enrolled(list.take(0), first, now, east));
            assert(self.dues() =~= old(self).dues() + enrolled_dues(list.take(0), now, east));
            assert(self.rests() =~= old(self).rests() + rest.take(0));
        }
        while i < n
            invariant
                i <= n,
                n == list.len(),
                n == rest.len(),
                stack@.len() == n - i,
                forall|k: int|
                    0 <= k < stack@.len() ==> (#[trigger] stack@[k]).info() == list[n - 1 - k]
                        && stack@[k].rest() == rest[n - 1 - k],
                all_valid(list),
                self.wf(),
                now <= MAX_INSTANT,
                old(self).infos().len() + n <= usize::MAX,
                first == old(self).infos().len() + 1,
                east == old(self).zone().offset(),
                self.zone() == old(self).zone(),
                self.exts() == old(self).exts(),
                self.infos() == old(self).infos() + enrolled(list.take(i as int), first, now, east),
                self.dues() == old(self).dues() + enrolled_dues(list.take(i as int), now, east),
                self.rests() == old(self).rests() + rest.take(i as int),
            decreases n - i,
        {
            let job = stack.pop().unwrap();
            assert(job.info() == list[i as int]);
            assert(list[i as int].jobschedule.valid());
            let ghost infos = self.infos();
            let ghost dues = self.dues();
            let ghost rests = self.rests();
            let id = self.add_job(job, now);
            proof {
                lemma_noting_ignores_id(list[i as int], id, now, east);
                assert(self.infos() =~= old(self).infos() + enrolled(
                    list.take(i as int + 1),
                    first,
                    now,
                    east,
                ));
                assert(self.dues() =~= old(self).dues() + enrolled_dues(
                    list.take(i as int + 1),
                    now,
                    east,
                ));
                assert(self.rests() =~= old(self).rests() + rest.take(i as int + 1));
            }
            i += 1;
        }
        assert(list.take(n as int) =~= list);
        assert(rest.take(n as int) =~= rest);
        self
    }

    /// Registers the jobs of `jobs` as `add` does where the cron grammar
    /// accepts the schedule of every one of them; where it rejects one,
    /// none is registered, and the scheduler stays as it is.
    pub fn try_add(&mut self, jobs: Vec<J>, now: u64) -> (done: bool)
        requires
            old(self).wf(),
            now <= MAX_INSTANT,
            old(self).infos().len() + jobs@.len() <= usize::MAX,
        ensures
            final(self).wf(),
            done == all_valid(infos_of(jobs@)),
            done ==> final(self).infos() == old(self).infos() + enrolled(
                infos_of(jobs@),
                old(self).infos().len() + 1,
                now,
                old(self).zone().offset(),
            ),
            done ==> final(self).dues() == old(self).dues() + enrolled_dues(
                infos_of(jobs@),
                now,
                old(self).zone().offset(),
            ),
            done ==> final(self).rests() == old(self).rests() + rests_of(jobs@),
            !done ==> final(self).infos() == old(self).infos(),
            !done ==> final(self).dues() == old(self).dues(),
            !done ==> final(self).rests() == old(self).rests(),
            final(self).zone() == old(self).zone(),
            final(self).exts() == old(self).exts(),
    {
        if every_job_valid(&jobs) {
            self.add(jobs, now);
            true
        } else {
            false
        }
    }

    /// Takes the earliest entry out of the queue and says what becomes of
    /// it.
    ///
    /// With no job due there is nothing to take, and the answer is `Idle`.
    /// Else the entry that no other comes before leaves the queue, so that
    /// its job is due no longer. A cancelled job is evicted without firing.
    /// Any other job fires after the seconds left until its instant, and at
    /// once where the instant has come.
    pub fn next_action(&mut self, now: u64) -> (action: Dispatch)
        requires
            old(self).wf(),
        ensures
            final(self).rests() == old(self).rests(),
            final(self).wf(),
            final(self).infos() == old(self).infos(),
            final(self).zone() == old(self).zone(),
            final(self).exts() == old(self).exts(),
            action is Idle <==> old(self).idle(),
            action is Idle ==> final(self).dues() == old(self).dues(),
            action matches Dispatch::Evict(item) ==> {
                &&& old(self).is_next(item)
                &&& old(self).infos()[item.id.0 - 1].cancel
                &&& final(self).dues() == old(self).dues().update(item.id.0 - 1, None)
            },
            action matches Dispatch::Fire { item, wait } ==> {
                &&& old(self).is_next(item)
                &&& !old(self).infos()[item.id.0 - 1].cancel
                &&& wait == wait_for(item.time, now)
                &&& final(self).dues() == old(self).dues().update(item.id.0 - 1, None)
            },
    {
        let popped = self.heap.pop();
        match popped {
            None => {
                proof {
                    assert forall|j: int| 0 <= j < self.dues().len() implies (
                    #[trigger] self.dues()[j]) is None by {
                        if self.dues()[j] is Some {
                            let x = entry_of(self.dues(), j);
                            assert(old(self).heap.contents().count(x) == entry_count(
                                self.dues(),
                                x,
                            ));
                            assert(old(self).heap.contents().len() == 0);
                            assert(old(self).heap.contents().count(x) == 0) by {
                                if old(self).heap.contents().count(x) > 0 {
                                    vstd::multiset::lemma_multiset_empty_len(
                                        old(self).heap.contents(),
                                    );
                                }
                            }
                        }
                    }
                }
                Dispatch::Idle
            },
            Some(item) => {
                let ghost before = old(self).dues();
                proof {
                    assert(old(self).heap.contents().count(item) == entry_count(
                        old(self).dues(),
                        item,
                    ));
                    assert forall|j: int|
                        0 <= j < before.len() && (#[trigger] before[j]) is Some implies key_le(
                        item,
                        entry_of(before, j),
                    ) by {
                        let x = entry_of(before, j);
                        assert(old(self).heap.contents().count(x) == entry_count(
                            old(self).dues(),
                            x,
                        ));
                    }
                    assert(!old(self).idle()) by {
                        assert(old(self).dues()[item.id.0 - 1] is Some);
                    }
                }
                let k = item.id.0 - 1;
                let cancelled = self.jobs[k].job.base().cancel;
                let ghost table = self.jobs@;
                self.jobs[k].due = None;
                proof {
                    assert(self.jobs@[k as int].job == table[k as int].job);
                    assert(self.infos() =~= old(self).infos());
                    assert(self.dues() =~= old(self).dues().update(k as int, None));
                    assert forall|x: ScheduleItem| #[trigger]
                        self.heap.contents().count(x) == entry_count(self.dues(), x) by {
                        assert(old(self).heap.contents().count(x) == entry_count(
                            old(self).dues(),
                            x,
                        ));
                    }
                }
                if cancelled {
                    Dispatch::Evict(item)
                } else {
                    let wait = if item.time > now {
                        item.time - now
                    } else {
                        0
                    };
                    Dispatch::Fire { item, wait }
                }
            },
        }
    }

    /// Puts the job `id` back into the queue after a firing: where it is
    /// not due already, and an instant after `now` is found for its
    /// schedule, it is due at that instant.
    ///
    /// An identity that no job has, and a job that is due already, leave the
    /// scheduler as it was. A cancelled job and a job whose schedule is
    /// exhausted have no next firing, and stay out of the queue.
    pub fn reschedule(&mut self, id: JobId, now: u64) -> (item: Option<ScheduleItem>)
        requires
            old(self).wf(),
            now <= MAX_INSTANT,
        ensures
            final(self).rests() == old(self).rests(),
            final(self).wf(),
            final(self).zone() == old(self).zone(),
            final(self).exts() == old(self).exts(),
            item matches Some(entry) ==> entry.time > now && entry.id == id,
            !(1 <= id.0 <= old(self).infos().len()) || old(self).dues()[id.0 - 1] is Some ==> {
                &&& item is None
                &&& final(self).infos() == old(self).infos()
                &&& final(self).dues() == old(self).dues()
            },
            1 <= id.0 <= old(self).infos().len() && old(self).dues()[id.0 - 1] is None ==> {
                &&& item == old(self).infos()[id.0 - 1].upcoming(now, old(self).zone().offset())
                &&& final(self).infos() == old(self).infos().update(
                    id.0 - 1,
                    old(self).infos()[id.0 - 1].noted(now, old(self).zone().offset()),
                )
                &&& final(self).dues() == old(self).dues().update(
                    id.0 - 1,
                    old(self).infos()[id.0 - 1].due_after(now, old(self).zone().offset()),
                )
            },
    {
        if id.0 < 1 || id.0 > self.jobs.len() {
            return None;
        }
        let k = id.0 - 1;
        if self.jobs[k].due.is_some() {
            assert(old(self).dues()[k as int] is Some);
            return None;
        }
        let ghost table = self.jobs@;
        assert(old(self).infos()[k as int].jobschedule.valid());
        let tz = self.tz;
        let item = self.jobs[k].job.next(now, tz);
        if let Some(entry) = item {
            self.heap.add(entry);
            self.jobs[k].due = Some(entry.time);
        }
        proof {
            let east = old(self).zone().offset();
            let before = old(self).infos()[k as int];
            assert(self.jobs@.len() == table.len());
            assert(forall|j: int| 0 <= j < table.len() && j != k ==> self.jobs@[j] == table[j]);
            assert(self.infos() =~= old(self).infos().update(k as int, before.noted(now, east)));
            assert(self.dues() =~= old(self).dues().update(k as int, before.due_after(now, east)));
            assert forall|x: ScheduleItem| #[trigger]
                self.heap.contents().count(x) == entry_count(self.dues(), x) by {
                assert(old(self).heap.contents().count(x) == entry_count(old(self).dues(), x));
            }
        }
        item
    }

    /// Cancels the job `id`: it fires no more. Its entry stays in the queue
    /// until its instant comes, and is evicted then.
    pub fn cancel(&mut self, id: JobId) -> (found: bool)
        requires
            old(self).wf(),
        ensures
            final(self).rests() == old(self).rests(),
            final(self).wf(),
            final(self).dues() == old(self).dues(),
            final(self).zone() == old(self).zone(),
            final(self).exts() == old(self).exts(),
            found <==> 1 <= id.0 <= old(self).infos().len(),
            !found ==> final(self).infos() == old(self).infos(),
            found ==> final(self).infos() == old(self).infos().update(
                id.0 - 1,
                (BaseJob { cancel: true, ..old(self).infos()[id.0 - 1] }),
            ),
    {
        if id.0 < 1 || id.0 > self.jobs.len() {
            return false;
        }
        let k = id.0 - 1;
        let ghost table = self.jobs@;
        self.jobs[k].job.cancel();
        proof {
            assert(self.jobs@.len() == table.len());
            assert(forall|j: int| 0 <= j < table.len() && j != k ==> self.jobs@[j] == table[j]);
            assert(self.dues() =~= old(self).dues());
            assert(self.infos() =~= old(self).infos().update(
                k as int,
                (BaseJob { cancel: true, ..old(self).infos()[k as int] }),
            ));
        }
        true
    }
}

impl<F: Copy, E> HeapScheduler<SyncJob<F>, E> {
    /// Registers the jobs of a builder that was finished with `run_sync`,
    /// each with its schedule reckoned in the zone of the scheduler. The
    /// cron grammar accepts the schedule of every one of them.
    pub fn add_syncbuilder(&mut self, jobs: Vec<SyncJobBuilder<F>>, now: u64) -> (r: &mut Self)
        requires
            old(self).wf(),
            now <= MAX_INSTANT,
            old(self).infos().len() + jobs@.len() <= usize::MAX,
            all_valid(sync_infos(jobs@)),
        ensures
            r.wf(),
            r.infos() == old(self).infos() + enrolled(
                sync_infos(jobs@),
                old(self).infos().len() + 1,
                now,
                old(self).zone().offset(),
            ),
            r.dues() == old(self).dues() + enrolled_dues(
                sync_infos(jobs@),
                now,
                old(self).zone().offset(),
            ),
            r.rests() == old(self).rests() + sync_rests(jobs@, old(self).zone()),
            r.zone() == old(self).zone(),
            r.exts() == old(self).exts(),
            *final(self) == *final(r),
    {
        let ghost list = sync_infos(jobs@);
        let ghost rest = sync_rests(jobs@, self.zone());
        let ghost east = self.zone().offset();
        let ghost first = old(self).infos().len() + 1;
        let n = jobs.len();
        let tz = self.get_tz();
        let mut i: usize = 0;
        proof {
            assert(self.infos() =~= old(self).infos() + enrolled(list.take(0), first, now, east));
            assert(self.dues() =~= old(self).dues() + enrolled_dues(list.take(0), now, east));
            assert(self.rests() =~= old(self).rests() + rest.take(0));
        }
        while i < n
            invariant
                i <= n,
                n == jobs@.len(),
                list == sync_infos(jobs@),
                rest == sync_rests(jobs@, old(self).zone()),
                all_valid(list),
                self.wf(),
                now <= MAX_INSTANT,
                old(self).infos().len() + n <= usize::MAX,
                first == old(self).infos().len() + 1,
                east == old(self).zone().offset(),
                tz == old(self).zone(),
                self.zone() == old(self).zone(),
                self.exts() == old(self).exts(),
                self.infos() == old(self).infos() + enrolled(list.take(i as int), first, now, east),
                self.dues() == old(self).dues() + enrolled_dues(list.take(i as int), now, east),
                self.rests() == old(self).rests() + rest.take(i as int),
            decreases n - i,
        {
            assert(list[i as int].jobschedule.valid());
            let job = jobs[i].with_tz(tz);
            let id = self.add_job(job, now);
            proof {
                lemma_noting_ignores_id(list[i as int], id, now, east);
                assert(self.infos() =~= old(self).infos() + enrolled(
                    list.take(i as int + 1),
                    first,
                    now,
                    east,
                ));
                assert(self.dues() =~= old(self).dues() + enrolled_dues(
                    list.take(i as int + 1),
                    now,
                    east,
                ));
                assert(self.rests() =~= old(self).rests() + rest.take(i as int + 1));
            }
            i += 1;
        }
        assert(list.take(n as int) =~= list);
        assert(rest.take(n as int) =~= rest);
        self
    }

    /// Registers the jobs of a builder as `add_syncbuilder` does where the
    /// cron grammar accepts the schedule of every one of them; where it
    /// rejects one, none is registered, and the scheduler stays as it is.
    pub fn try_add_syncbuilder(&mut self, jobs: Vec<SyncJobBuilder<F>>, now: u64) -> (done: bool)
        requires
            old(self).wf(),
            now <= MAX_INSTANT,
            old(self).infos().len() + jobs@.len() <= usize::MAX,
        ensures
            final(self).wf(),
            done == all_valid(sync_infos(jobs@)),
            done ==> final(self).infos() == old(self).infos() + enrolled(
                sync_infos(jobs@),
                old(self).infos().len() + 1,
                now,
                old(self).zone().offset(),
            ),
            done ==> final(self).dues() == old(self).dues() + enrolled_dues(
                sync_infos(jobs@),
                now,
                old(self).zone().offset(),
            ),
            done ==> final(self).rests() == old(self).rests() + sync_rests(
                jobs@,
                old(self).zone(),
            ),
            !done ==> final(self).infos() == old(self).infos(),
            !done ==> final(self).dues() == old(self).dues(),
            !done ==> final(self).rests() == old(self).rests(),
            final(self).zone() == old(self).zone(),
            final(self).exts() == old(self).exts(),
    {
        let mut i: usize = 0;
        while i < jobs.len()
            invariant
                i <= jobs@.len(),
                *self == *old(self),
                self.wf(),
                now <= MAX_INSTANT,
                self.infos().len() + jobs@.len() <= usize::MAX,
                forall|k: int|
                    0 <= k < i ==> (#[trigger] sync_infos(jobs@)[k]).jobschedule.valid(),
            decreases jobs@.len() - i,
        {
            if !jobs[i].info.jobschedule.is_valid() {
                assert(!sync_infos(jobs@)[i as int].jobschedule.valid());
                return false;
            }
            i += 1;
        }
        self.add_syncbuilder(jobs, now);
        true
    }
}

impl<F: Copy, E> HeapScheduler<AsyncJob<F>, E> {
    /// Registers the jobs of a builder that was finished with `run_async`,
    /// each with its schedule reckoned in the zone of the scheduler. The
    /// cron grammar accepts the schedule of every one of them.
    pub fn add_asyncbuilder(&mut self, jobs: Vec<AsyncJobBuilder<F>>, now: u64) -> (r: &mut Self)
        requires
            old(self).wf(),
            now <= MAX_INSTANT,
            old(self).infos().len() + jobs@.len() <= usize::MAX,
            all_valid(async_infos(jobs@)),
        ensures
            r.wf(),
            r.infos() == old(self).infos() + enrolled(
                async_infos(jobs@),
                old(self).infos().len() + 1,
                now,
                old(self).zone().offset(),
            ),
            r.dues() == old(self).dues() + enrolled_dues(
                async_infos(jobs@),
                now,
                old(self).zone().offset(),
            ),
            r.rests() == old(self).rests() + async_rests(jobs@, old(self).zone()),
            r.zone() == old(self).zone(),
            r.exts() == old(self).exts(),
            *final(self) == *final(r),
    {
        let ghost list = async_infos(jobs@);
        let ghost rest = async_rests(jobs@, self.zone());
        let ghost east = self.zone().offset();
        let ghost first = old(self).infos().len() + 1;
        let n = jobs.len();
        let tz = self.get_tz();
        let mut i: usize = 0;
        proof {
            assert(self.infos() =~= old(self).infos() + enrolled(list.take(0), first, now, east));
            assert(self.dues() =~= old(self).dues() + enrolled_dues(list.take(0), now, east));
            assert(self.rests() =~= old(self).rests() + rest.take(0));
        }
        while i < n
            invariant
                i <= n,
                n == jobs@.len(),
                list == async_infos(jobs@),
                rest == async_rests(jobs@, old(self).zone()),
                all_valid(list),
                self.wf(),
                now <= MAX_INSTANT,
                old(self).infos().len() + n <= usize::MAX,
                first == old(self).infos().len() + 1,
                east == old(self).zone().offset(),
                tz == old(self).zone(),
                self.zone() == old(self).zone(),
                self.exts() == old(self).exts(),
                self.infos() == old(self).infos() + enrolled(list.take(i as int), first, now, east),
                self.dues() == old(self).dues() + enrolled_dues(list.take(i as int), now, east),
                self.rests() == old(self).rests() + rest.take(i as int),
            decreases n - i,
        {
            assert(list[i as int].jobschedule.valid());
            let job = jobs[i].with_tz(tz);
            let id = self.add_job(job, now);
            proof {
                lemma_noting_ignores_id(list[i as int], id, now, east);
                assert(self.infos() =~= old(self).infos() + enrolled(
                    list.take(i as int + 1),
                    first,
                    now,
                    east,
                ));
                assert(self.dues() =~= old(self).dues() + enrolled_dues(
                    list.take(i as int + 1),
                    now,
                    east,
                ));
                assert(self.rests() =~= old(self).rests() + rest.take(i as int + 1));
            }
            i += 1;
        }
        assert(list.take(n as int) =~= list);
        assert(rest.take(n as int) =~= rest);
        self
    }

    /// Registers the jobs of a builder as `add_asyncbuilder` does where the
    /// cron grammar accepts the schedule of every one of them; where it
    /// rejects one, none is registered, and the scheduler stays as it is.
    pub fn try_add_asyncbuilder(&mut self, jobs: Vec<AsyncJobBuilder<F>>, now: u64) -> (done: bool)
        requires
            old(self).wf(),
            now <= MAX_INSTANT,
            old(self).infos().len() + jobs@.len() <= usize::MAX,
        ensures
            final(self).wf(),
            done == all_valid(async_infos(jobs@)),
            done ==> final(self).infos() == old(self).infos() + enrolled(
                async_infos(jobs@),
                old(self).infos().len() + 1,
                now,
                old(self).zone().offset(),
            ),
            done ==> final(self).dues() == old(self).dues() + enrolled_dues(
                async_infos(jobs@),
                now,
                old(self).zone().offset(),
            ),
            done ==> final(self).rests() == old(self).rests() + async_rests(
                jobs@,
                old(self).zone(),
            ),
            !done ==> final(self).infos() == old(self).infos(),
            !done ==> final(self).dues() == old(self).dues(),
            !done ==> final(self).rests() == old(self).rests(),
            final(self).zone() == old(self).zone(),
            final(self).exts() == old(self).exts(),
    {
        let mut i: usize = 0;
        while i < jobs.len()
            invariant
                i <= jobs@.len(),
                *self == *old(self),
                self.wf(),
                now <= MAX_INSTANT,
                self.infos().len() + jobs@.len() <= usize::MAX,
                forall|k: int|
                    0 <= k < i ==> (#[trigger] async_infos(jobs@)[k]).jobschedule.valid(),
            decreases jobs@.len() - i,
        {
            if !jobs[i].info.jobschedule.is_valid() {
                assert(!async_infos(jobs@)[i as int].jobschedule.valid());
                return false;
            }
            i += 1;
        }
        self.add_asyncbuilder(jobs, now);
        true
    }
}

} // verus!
