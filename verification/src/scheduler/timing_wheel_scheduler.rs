//! The dispatch queue as a hierarchy of timing wheels, and the scheduler
//! upon it.
//!
//! A wheel is a ring of buckets, each standing for one tick of the wheel.
//! An entry waits in the bucket of the tick that its instant falls into.
//! When the hand of a wheel comes to a bucket, what waits there moves on: to
//! a finer wheel, or out, to be fired. What lies beyond the coarsest wheel
//! waits aside until the wheel has turned far enough.

use crate::calendar::MAX_INSTANT;
use crate::extensions::{Extensions, TypeKey};
use crate::job::base_job::BaseJob;
use crate::job::{Job, JobId};
use crate::scheduler::heap_scheduler::{entry_count, wait_for, Dispatch, Slot};
use crate::scheduler::item::ScheduleItem;
use crate::zone::Zone;
use std::collections::VecDeque;
use vstd::arithmetic::div_mod::{
    lemma_div_is_ordered, lemma_div_plus_one, lemma_fundamental_div_mod,
    lemma_fundamental_div_mod_converse, lemma_mod_bound,
};
use vstd::multiset::Multiset;
use vstd::prelude::*;
use vstd::seq_lib::to_multiset_build;

verus! {

/// A tick holds the instants from its start up to the start of the next.
proof fn lemma_tick_bounds(t: int, d: int)
    requires
        0 <= t,
        0 < d,
    ensures
        (t / d) * d <= t < (t / d) * d + d,
        0 <= t / d,
{
    lemma_fundamental_div_mod(t, d);
    lemma_mod_bound(t, d);
    assert(d * (t / d) == (t / d) * d) by (nonlinear_arith);
    if t / d < 0 {
        assert((t / d) * d + d <= 0) by (nonlinear_arith)
            requires
                t / d <= -1,
                0 < d,
        ;
    }
}

/// An instant at least a tick ahead falls into a later tick.
proof fn lemma_tick_ahead(now: int, e: int, d: int)
    requires
        0 <= now,
        0 < d,
        now + d <= e,
    ensures
        now / d < e / d,
{
    lemma_div_is_ordered(now + d, e, d);
    lemma_div_plus_one(now, d);
}

/// An instant less than `s` ticks ahead falls into one of the next `s`
/// ticks, or into this one.
proof fn lemma_tick_within(now: int, e: int, d: int, s: int)
    requires
        0 <= now <= e,
        0 < d,
        0 < s,
        e < now + d * s,
    ensures
        e / d <= now / d + s,
{
    lemma_tick_bounds(now, d);
    lemma_tick_bounds(e, d);
    let q = e / d;
    let h = now / d;
    if q >= h + s + 1 {
        assert(q * d >= (h + s + 1) * d) by (nonlinear_arith)
            requires
                q >= h + s + 1,
                0 < d,
        ;
        assert((h + s + 1) * d == h * d + d * s + d) by (nonlinear_arith);
    }
}

/// An instant at least `s` ticks ahead falls into a tick at least `s`
/// later.
proof fn lemma_tick_beyond(now: int, e: int, d: int, s: int)
    requires
        0 <= now,
        0 < d,
        0 < s,
        now + d * s <= e,
    ensures
        e / d >= now / d + s,
{
    lemma_tick_bounds(now, d);
    lemma_tick_bounds(e, d);
    let q = e / d;
    let h = now / d;
    if q <= h + s - 1 {
        assert(q * d + d <= (h + s - 1) * d + d) by (nonlinear_arith)
            requires
                q <= h + s - 1,
                0 < d,
        ;
        assert((h + s - 1) * d + d == h * d + d * s) by (nonlinear_arith);
    }
}

/// A second later the tick is the next one where the second begins a tick,
/// and the same one where it does not.
proof fn lemma_tick_step(now: int, d: int)
    requires
        0 <= now,
        0 < d,
    ensures
        (now + 1) % d == 0 ==> (now + 1) / d == now / d + 1,
        (now + 1) % d != 0 ==> (now + 1) / d == now / d,
{
    let q = (now + 1) / d;
    let r = (now + 1) % d;
    lemma_fundamental_div_mod(now + 1, d);
    lemma_mod_bound(now + 1, d);
    assert(d * q == q * d) by (nonlinear_arith);
    if r == 0 {
        assert((q - 1) * d + (d - 1) == q * d - 1) by (nonlinear_arith);
        lemma_fundamental_div_mod_converse(now, d, q - 1, d - 1);
    } else {
        lemma_fundamental_div_mod_converse(now, d, q, r - 1);
    }
}

/// Of the `s` ticks after tick `h` only tick `h + 1` has the bucket of tick
/// `h + 1`.
proof fn lemma_bucket_of_one_tick(p: int, h: int, s: int)
    requires
        0 < s,
        -1 <= h < p <= h + s,
        p % s == (h + 1) % s,
    ensures
        p == h + 1,
{
    let k = h + 1;
    lemma_fundamental_div_mod(p, s);
    lemma_fundamental_div_mod(k, s);
    let a = p / s;
    let b = k / s;
    assert(p - k == s * (a - b)) by (nonlinear_arith)
        requires
            p == s * a + p % s,
            k == s * b + k % s,
            p % s == k % s,
    ;
    if a - b >= 1 {
        assert(s * (a - b) >= s) by (nonlinear_arith)
            requires
                a - b >= 1,
                0 < s,
        ;
    }
    if a - b <= -1 {
        assert(s * (a - b) <= -s) by (nonlinear_arith)
            requires
                a - b <= -1,
                0 < s,
        ;
    }
}

/// The sum of a row of multisets.
pub open spec fn sum(parts: Seq<Multiset<ScheduleItem>>) -> Multiset<ScheduleItem>
    decreases parts.len(),
{
    if parts.len() == 0 {
        Multiset::empty()
    } else {
        sum(parts.drop_last()).add(parts.last())
    }
}

/// A sum with one part exchanged is the sum, less the part that went, plus
/// the part that came.
proof fn lemma_sum_update(
    parts: Seq<Multiset<ScheduleItem>>,
    i: int,
    part: Multiset<ScheduleItem>,
)
    requires
        0 <= i < parts.len(),
    ensures
        sum(parts.update(i, part)).add(parts[i]) == sum(parts).add(part),
    decreases parts.len(),
{
    let after = parts.update(i, part);
    if i == parts.len() - 1 {
        assert(after.drop_last() =~= parts.drop_last());
        assert(sum(after).add(parts[i]) =~= sum(parts).add(part));
    } else {
        let rest = parts.drop_last();
        assert(after.drop_last() =~= rest.update(i, part));
        assert(after.last() == parts.last());
        lemma_sum_update(rest, i, part);
        assert forall|v: ScheduleItem|
            sum(after).add(parts[i]).count(v) == sum(parts).add(part).count(v) by {
            assert(sum(rest.update(i, part)).add(parts[i]).count(v) == sum(rest).add(part).count(
                v,
            ));
        }
        assert(sum(after).add(parts[i]) =~= sum(parts).add(part));
    }
}

/// A sum of empty parts is empty.
proof fn lemma_sum_empty(parts: Seq<Multiset<ScheduleItem>>)
    requires
        forall|i: int| 0 <= i < parts.len() ==> (#[trigger] parts[i]).len() == 0,
    ensures
        sum(parts) == Multiset::<ScheduleItem>::empty(),
    decreases parts.len(),
{
    if parts.len() > 0 {
        lemma_sum_empty(parts.drop_last());
        assert(parts.last().len() == 0);
        vstd::multiset::lemma_multiset_empty_len(parts.last());
        assert(sum(parts) =~= Multiset::<ScheduleItem>::empty());
    }
}

/// What is in a part is in the sum.
proof fn lemma_part_is_in_sum(parts: Seq<Multiset<ScheduleItem>>, i: int, x: ScheduleItem)
    requires
        0 <= i < parts.len(),
        parts[i].contains(x),
    ensures
        sum(parts).contains(x),
    decreases parts.len(),
{
    if i < parts.len() - 1 {
        lemma_part_is_in_sum(parts.drop_last(), i, x);
    }
}

/// What is in a sum is in one of its parts.
proof fn lemma_sum_is_in_a_part(parts: Seq<Multiset<ScheduleItem>>, x: ScheduleItem)
    requires
        sum(parts).contains(x),
    ensures
        exists|i: int| 0 <= i < parts.len() && (#[trigger] parts[i]).contains(x),
    decreases parts.len(),
{
    if parts.len() > 0 {
        if parts.last().contains(x) {
            assert(parts[parts.len() - 1].contains(x));
        } else {
            lemma_sum_is_in_a_part(parts.drop_last(), x);
            let i = choose|i: int|
                0 <= i < parts.drop_last().len() && (#[trigger] parts.drop_last()[i]).contains(x);
            assert(parts[i].contains(x));
        }
    }
}

/// The entries that a row of buckets holds, with their multiplicities.
pub open spec fn held(buckets: Seq<Seq<ScheduleItem>>) -> Multiset<ScheduleItem> {
    sum(Seq::new(buckets.len(), |b: int| buckets[b].to_multiset()))
}

/// A row of buckets with one bucket exchanged holds what it held, less the
/// bucket that went, plus the bucket that came.
proof fn lemma_held_update(buckets: Seq<Seq<ScheduleItem>>, b: int, bucket: Seq<ScheduleItem>)
    requires
        0 <= b < buckets.len(),
    ensures
        held(buckets.update(b, bucket)).add(buckets[b].to_multiset()) == held(buckets).add(
            bucket.to_multiset(),
        ),
{
    let parts = Seq::new(buckets.len(), |i: int| buckets[i].to_multiset());
    let after = buckets.update(b, bucket);
    let parts_after = Seq::new(after.len(), |i: int| after[i].to_multiset());
    assert(parts_after =~= parts.update(b, bucket.to_multiset()));
    lemma_sum_update(parts, b, bucket.to_multiset());
}

/// Empty buckets hold nothing.
proof fn lemma_held_empty(buckets: Seq<Seq<ScheduleItem>>)
    requires
        forall|b: int| 0 <= b < buckets.len() ==> (#[trigger] buckets[b]).len() == 0,
    ensures
        held(buckets) == Multiset::<ScheduleItem>::empty(),
{
    let parts = Seq::new(buckets.len(), |i: int| buckets[i].to_multiset());
    assert forall|i: int| 0 <= i < parts.len() implies (#[trigger] parts[i]).len() == 0 by {
        assert(buckets[i].len() == 0);
        buckets[i].to_multiset_ensures();
    }
    lemma_sum_empty(parts);
}

/// What a row of buckets holds is in one of its buckets.
proof fn lemma_held_is_in_a_bucket(buckets: Seq<Seq<ScheduleItem>>, x: ScheduleItem)
    requires
        held(buckets).contains(x),
    ensures
        exists|b: int, k: int|
            0 <= b < buckets.len() && 0 <= k < buckets[b].len() && (#[trigger] buckets[b][k]) == x,
{
    let parts = Seq::new(buckets.len(), |i: int| buckets[i].to_multiset());
    lemma_sum_is_in_a_part(parts, x);
    let b = choose|i: int| 0 <= i < parts.len() && (#[trigger] parts[i]).contains(x);
    buckets[b].to_multiset_ensures();
    assert(buckets[b].contains(x));
    let k = choose|k: int| 0 <= k < buckets[b].len() && buckets[b][k] == x;
    assert(buckets[b][k] == x);
}

/// The buckets of a list as sequences.
pub open spec fn rows(list: Seq<Vec<ScheduleItem>>) -> Seq<Seq<ScheduleItem>> {
    Seq::new(list.len(), |i: int| list[i]@)
}

/// A row of buckets with one more bucket holds what it held and what the
/// bucket holds.
proof fn lemma_held_push(buckets: Seq<Seq<ScheduleItem>>, bucket: Seq<ScheduleItem>)
    ensures
        held(buckets.push(bucket)) == held(buckets).add(bucket.to_multiset()),
{
    let after = buckets.push(bucket);
    let parts = Seq::new(buckets.len(), |i: int| buckets[i].to_multiset());
    let parts_after = Seq::new(after.len(), |i: int| after[i].to_multiset());
    assert(parts_after.drop_last() =~= parts);
}

/// A ring of buckets.
pub struct Buckets {
    inner: Vec<Vec<ScheduleItem>>,
}

impl View for Buckets {
    type V = Seq<Seq<ScheduleItem>>;

    closed spec fn view(&self) -> Seq<Seq<ScheduleItem>> {
        rows(self.inner@)
    }
}

impl Buckets {
    /// A ring of `size` empty buckets.
    pub fn new(size: usize) -> (ring: Self)
        ensures
            ring@.len() == size,
            forall|b: int| 0 <= b < size ==> (#[trigger] ring@[b]).len() == 0,
            held(ring@) == Multiset::<ScheduleItem>::empty(),
    {
        let mut inner: Vec<Vec<ScheduleItem>> = Vec::new();
        let mut i: usize = 0;
        while i < size
            invariant
                i <= size,
                inner@.len() == i,
                forall|b: int| 0 <= b < i ==> (#[trigger] inner@[b])@.len() == 0,
            decreases size - i,
        {
            inner.push(Vec::new());
            i += 1;
        }
        let ring = Buckets { inner };
        proof {
            lemma_held_empty(ring@);
        }
        ring
    }

    /// The number of buckets.
    pub fn len(&self) -> (n: usize)
        ensures
            n == self@.len(),
    {
        self.inner.len()
    }

    /// The number of entries in each bucket.
    pub fn counts(&self) -> (counts: Vec<usize>)
        ensures
            counts@.len() == self@.len(),
            forall|b: int| 0 <= b < counts@.len() ==> (#[trigger] counts@[b]) == self@[b].len(),
    {
        let mut counts: Vec<usize> = Vec::new();
        let mut b: usize = 0;
        while b < self.inner.len()
            invariant
                b <= self.inner@.len(),
                counts@.len() == b,
                forall|c: int| 0 <= c < b ==> (#[trigger] counts@[c]) == self@[c].len(),
            decreases self.inner@.len() - b,
        {
            counts.push(self.inner[b].len());
            b += 1;
        }
        counts
    }

    /// Puts `item` into bucket `b`.
    pub fn push(&mut self, b: usize, item: ScheduleItem)
        requires
            b < old(self)@.len(),
        ensures
            final(self)@ == old(self)@.update(b as int, old(self)@[b as int].push(item)),
            held(final(self)@) == held(old(self)@).insert(item),
    {
        broadcast use to_multiset_build;

        let ghost before = self@;
        self.inner[b].push(item);
        proof {
            let bucket = before[b as int].push(item);
            assert(self@ =~= before.update(b as int, bucket));
            lemma_held_update(before, b as int, bucket);
            let was = before[b as int].to_multiset();
            assert(bucket.to_multiset() == was.insert(item));
            assert forall|v: ScheduleItem|
                held(self@).count(v) == held(before).insert(item).count(v) by {
                assert(held(self@).add(was).count(v) == held(before).add(was.insert(item)).count(
                    v,
                ));
            }
            assert(held(self@) =~= held(before).insert(item));
        }
    }

    /// Takes everything out of bucket `b`.
    pub fn take(&mut self, b: usize) -> (taken: Vec<ScheduleItem>)
        requires
            b < old(self)@.len(),
        ensures
            taken@ == old(self)@[b as int],
            final(self)@ == old(self)@.update(b as int, Seq::empty()),
            held(old(self)@) == held(final(self)@).add(taken@.to_multiset()),
    {
        let ghost before = self@;
        let mut taken: Vec<ScheduleItem> = Vec::new();
        std::mem::swap(&mut self.inner[b], &mut taken);
        proof {
            assert(self@ =~= before.update(b as int, Seq::empty()));
            lemma_held_update(before, b as int, Seq::empty());
            Seq::<ScheduleItem>::empty().to_multiset_ensures();
            assert(Seq::<ScheduleItem>::empty().to_multiset() =~= Multiset::<
                ScheduleItem,
            >::empty());
            assert(held(before) =~= held(self@).add(taken@.to_multiset()));
        }
        taken
    }
}

/// One wheel: a ring of buckets, each a tick long, and the hand on it.
pub struct TimingWheel {
    tick_duration: u64,
    wheel_size: usize,
    interval: u64,
    current_time: u64,
    buckets: Buckets,
}

/// What a wheel is, with its buckets as sequences.
pub struct WheelView {
    /// The seconds that one bucket stands for.
    pub tick_duration: u64,
    /// The number of buckets.
    pub wheel_size: usize,
    /// The seconds that the whole ring stands for.
    pub interval: u64,
    /// The instant that the hand is at.
    pub current_time: u64,
    /// The entries that wait, bucket by bucket.
    pub buckets: Seq<Seq<ScheduleItem>>,
}

impl WheelView {
    /// Whether the wheel has ticks and buckets, and its ring stands for as
    /// many seconds as its buckets together.
    pub open spec fn wf(self) -> bool {
        &&& self.tick_duration > 0
        &&& self.wheel_size > 0
        &&& self.interval == self.wheel_size * self.tick_duration
        &&& self.buckets.len() == self.wheel_size
    }

    /// The tick that an instant falls into, counted from the epoch.
    pub open spec fn tick_of(self, time: u64) -> int {
        time as int / self.tick_duration as int
    }

    /// The bucket of the tick that an instant falls into.
    pub open spec fn bucket_of(self, time: u64) -> int {
        self.tick_of(time) % (self.wheel_size as int)
    }

    /// Whether an entry due at `time` can wait on the wheel: it is due at
    /// least a tick from now, and less than a turn of the ring.
    pub open spec fn fits(self, time: u64) -> bool {
        self.current_time + self.tick_duration <= time < self.current_time + self.interval
    }

    /// Whether an entry due at `time` waits in bucket `b` as it should: the
    /// bucket is that of its tick, its tick is a later one than that of the
    /// present instant, and it is due less than a turn of the ring from
    /// now.
    pub open spec fn waits_well(self, time: u64, b: int) -> bool {
        &&& b == self.bucket_of(time)
        &&& self.tick_of(self.current_time) < self.tick_of(time)
        &&& time < self.current_time + self.interval
    }

    /// The bucket that the hand is at.
    pub open spec fn hand(self) -> int {
        self.bucket_of(self.current_time)
    }

    /// Whether the bucket that the hand is at is empty wherever the present
    /// instant begins a tick of the wheel.
    pub open spec fn hand_is_clear(self) -> bool {
        self.current_time % self.tick_duration == 0 ==> self.buckets[self.hand()].len() == 0
    }

    /// Whether the wheel has the ticks and the buckets of `other`.
    pub open spec fn shaped_as(self, other: WheelView) -> bool {
        &&& self.tick_duration == other.tick_duration
        &&& self.wheel_size == other.wheel_size
        &&& self.interval == other.interval
    }

    /// Whether every entry on the wheel waits as it should.
    pub open spec fn in_order(self) -> bool {
        forall|b: int, k: int|
            0 <= b < self.buckets.len() && 0 <= k < self.buckets[b].len() ==> self.waits_well(
                (#[trigger] self.buckets[b][k]).time,
                b,
            )
    }

    /// The entries on the wheel, with their multiplicities.
    pub open spec fn held(self) -> Multiset<ScheduleItem> {
        held(self.buckets)
    }
}

/// On a wheel in order the bucket that the hand is at is empty wherever the
/// present instant begins a tick: what waited there was due within that
/// tick, and nothing that is put on the wheel then is due a full turn away.
pub proof fn lemma_hand_is_clear(wheel: WheelView)
    requires
        wheel.wf(),
        wheel.in_order(),
    ensures
        wheel.hand_is_clear(),
{
    let now = wheel.current_time as int;
    let d = wheel.tick_duration as int;
    let s = wheel.wheel_size as int;
    let h = wheel.tick_of(wheel.current_time);
    lemma_mod_bound(h, s);
    lemma_tick_bounds(now, d);
    if now % d == 0 && wheel.buckets[wheel.hand()].len() > 0 {
        let e = wheel.buckets[wheel.hand()][0];
        assert(wheel.waits_well(e.time, wheel.hand()));
        let p = wheel.tick_of(e.time);
        lemma_fundamental_div_mod(now, d);
        lemma_tick_bounds(e.time as int, d);
        assert(d * h == h * d) by (nonlinear_arith);
        assert(s * d == d * s) by (nonlinear_arith);
        assert((h + s) * d == h * d + s * d) by (nonlinear_arith);
        if p >= h + s {
            assert(p * d >= (h + s) * d) by (nonlinear_arith)
                requires
                    p >= h + s,
                    d > 0,
            ;
        }
        lemma_bucket_of_one_tick(p, h - 1, s);
    }
}

impl View for TimingWheel {
    type V = WheelView;

    closed spec fn view(&self) -> WheelView {
        WheelView {
            tick_duration: self.tick_duration,
            wheel_size: self.wheel_size,
            interval: self.interval,
            current_time: self.current_time,
            buckets: self.buckets@,
        }
    }
}

impl TimingWheel {
    /// A wheel of `wheel_size` empty buckets, each `tick_duration` seconds
    /// long, with its hand at `current_time`.
    pub fn new(wheel_size: usize, tick_duration: u64, current_time: u64) -> (wheel: Self)
        requires
            wheel_size * tick_duration <= u64::MAX,
        ensures
            wheel@.tick_duration == tick_duration,
            wheel@.wheel_size == wheel_size,
            wheel@.interval == wheel_size * tick_duration,
            wheel@.current_time == current_time,
            wheel@.buckets.len() == wheel_size,
            forall|b: int| 0 <= b < wheel_size ==> (#[trigger] wheel@.buckets[b]).len() == 0,
            wheel@.held() == Multiset::<ScheduleItem>::empty(),
            wheel@.in_order(),
    {
        assert(wheel_size as u64 * tick_duration == wheel_size * tick_duration);
        Self {
            tick_duration,
            wheel_size,
            interval: wheel_size as u64 * tick_duration,
            current_time,
            buckets: Buckets::new(wheel_size),
        }
    }

    /// Moves the hand to `time`, and says whether a tick begins there.
    pub fn advance_to(&mut self, time: u64) -> (begins: bool)
        requires
            old(self)@.tick_duration > 0,
        ensures
            final(self)@ == (WheelView { current_time: time, ..old(self)@ }),
            begins == (time % old(self)@.tick_duration == 0),
    {
        self.current_time = time;
        self.current_time % self.tick_duration == 0
    }

    /// The instant that the hand is at.
    pub fn current_time(&self) -> (now: u64)
        ensures
            now == self@.current_time,
    {
        self.current_time
    }

    /// The number of buckets.
    pub fn wheel_size(&self) -> (size: usize)
        ensures
            size == self@.wheel_size,
    {
        self.wheel_size
    }

    /// The number of entries that wait in each bucket.
    pub fn counts(&self) -> (counts: Vec<usize>)
        ensures
            counts@.len() == self@.buckets.len(),
            forall|b: int|
                0 <= b < counts@.len() ==> (#[trigger] counts@[b]) == self@.buckets[b].len(),
    {
        self.buckets.counts()
    }

    /// The seconds that one bucket stands for.
    pub fn tick_duration(&self) -> (d: u64)
        ensures
            d == self@.tick_duration,
    {
        self.tick_duration
    }

    /// The seconds that the whole ring stands for.
    pub fn interval(&self) -> (i: u64)
        ensures
            i == self@.interval,
    {
        self.interval
    }

    /// Whether an entry due at `time` can wait on the wheel.
    pub fn fits(&self, time: u64) -> (fits: bool)
        requires
            self@.wf(),
        ensures
            fits == self@.fits(time),
    {
        time >= self.current_time && time - self.current_time >= self.tick_duration && time
            - self.current_time < self.interval
    }

    /// The bucket of the tick that `time` falls into.
    pub fn bucket_index(&self, time: u64) -> (b: usize)
        requires
            self@.wf(),
        ensures
            b == self@.bucket_of(time),
            b < self@.wheel_size,
    {
        let tick = time / self.tick_duration;
        proof {
            lemma_mod_bound(tick as int, self.wheel_size as int);
        }
        (tick % (self.wheel_size as u64)) as usize
    }

    /// The bucket that the hand is at: that of the tick that the present
    /// instant falls into.
    pub fn hand(&self) -> (b: usize)
        requires
            self@.wf(),
        ensures
            b == self@.bucket_of(self@.current_time),
            b < self@.wheel_size,
    {
        self.bucket_index(self.current_time)
    }

    /// Puts an entry that fits onto the wheel, into the bucket of its tick.
    pub fn put(&mut self, item: ScheduleItem)
        requires
            old(self)@.wf(),
            old(self)@.in_order(),
            old(self)@.fits(item.time),
        ensures
            final(self)@.wf(),
            final(self)@.in_order(),
            final(self)@ == (WheelView {
                buckets: old(self)@.buckets.update(
                    old(self)@.bucket_of(item.time),
                    old(self)@.buckets[old(self)@.bucket_of(item.time)].push(item),
                ),
                ..old(self)@
            }),
            final(self)@.held() == old(self)@.held().insert(item),
    {
        let b = self.bucket_index(item.time);
        let ghost before = self@;
        self.buckets.push(b, item);
        proof {
            let now = before.current_time as int;
            let d = before.tick_duration as int;
            let size = before.wheel_size as int;
            lemma_tick_ahead(now, item.time as int, d);
            assert forall|c: int, k: int|
                0 <= c < self@.buckets.len() && 0 <= k < self@.buckets[c].len() implies self@.waits_well(
                (#[trigger] self@.buckets[c][k]).time,
                c,
            ) by {
                if c == b && k == before.buckets[c].len() {
                } else {
                    assert(self@.buckets[c][k] == before.buckets[c][k]);
                }
            }
        }
    }

    /// Moves the hand on by a second and takes off the wheel what waits in
    /// the bucket of the tick that begins, where one begins.
    ///
    /// What is taken off falls into the tick that begins: it is due now or
    /// within the tick. What stays on the wheel waits as it should.
    pub fn turn(&mut self) -> (taken: Vec<ScheduleItem>)
        requires
            old(self)@.wf(),
            old(self)@.in_order(),
            old(self)@.current_time < u64::MAX,
        ensures
            final(self)@.wf(),
            final(self)@.in_order(),
            final(self)@.current_time == old(self)@.current_time + 1,
            final(self)@.tick_duration == old(self)@.tick_duration,
            final(self)@.wheel_size == old(self)@.wheel_size,
            final(self)@.interval == old(self)@.interval,
            old(self)@.held() == final(self)@.held().add(taken@.to_multiset()),
            final(self)@.current_time % final(self)@.tick_duration != 0 ==> taken@.len() == 0,
            final(self)@.current_time % final(self)@.tick_duration != 0 ==> final(self)@.buckets
                == old(self)@.buckets,
            final(self)@.current_time % final(self)@.tick_duration == 0 ==> taken@ == old(
                self,
            )@.buckets[final(self)@.hand()] && final(self)@.buckets == old(self)@.buckets.update(
                final(self)@.hand(),
                Seq::empty(),
            ),
            final(self)@.hand_is_clear(),
            forall|k: int|
                0 <= k < taken@.len() ==> final(self)@.current_time <= (#[trigger] taken@[k]).time
                    < final(self)@.current_time + final(self)@.tick_duration,
    {
        let ghost before = self@;
        let time = self.current_time + 1;
        let begins = self.advance_to(time);
        proof {
            lemma_tick_step(before.current_time as int, before.tick_duration as int);
        }
        if !begins {
            let taken: Vec<ScheduleItem> = Vec::new();
            proof {
                taken@.to_multiset_ensures();
                assert(taken@.to_multiset() =~= Multiset::<ScheduleItem>::empty());
                assert(before.held() =~= self@.held().add(taken@.to_multiset()));
                assert forall|c: int, k: int|
                    0 <= c < self@.buckets.len() && 0 <= k < self@.buckets[c].len() implies self@.waits_well(
                    (#[trigger] self@.buckets[c][k]).time,
                    c,
                ) by {
                    assert(before.waits_well(before.buckets[c][k].time, c));
                }
            }
            return taken;
        }
        let b = self.bucket_index(time);
        let taken = self.buckets.take(b);
        proof {
            let d = before.tick_duration as int;
            let size = before.wheel_size as int;
            let h = before.tick_of(before.current_time);
            lemma_tick_bounds(before.current_time as int, d);
            assert(self@.tick_of(time) == h + 1);
            assert forall|c: int, k: int|
                0 <= c < self@.buckets.len() && 0 <= k < self@.buckets[c].len() implies self@.waits_well(
                (#[trigger] self@.buckets[c][k]).time,
                c,
            ) by {
                assert(c != b);
                assert(self@.buckets[c][k] == before.buckets[c][k]);
                assert(before.waits_well(before.buckets[c][k].time, c));
            }
            assert forall|k: int| 0 <= k < taken@.len() implies time <= (#[trigger] taken@[k]).time
                < time + d by {
                let e = taken@[k];
                assert(e == before.buckets[b as int][k]);
                assert(before.waits_well(e.time, b as int));
                lemma_tick_ahead_converse(before.current_time as int, e.time as int, d);
                assert(d * size == size * d) by (nonlinear_arith);
                lemma_tick_within(before.current_time as int, e.time as int, d, size);
                lemma_bucket_of_one_tick(before.tick_of(e.time), h, size);
                lemma_tick_bounds(e.time as int, d);
                lemma_tick_bounds(time as int, d);
                lemma_fundamental_div_mod(time as int, d);
                assert(d * (h + 1) == (h + 1) * d) by (nonlinear_arith);
            }
        }
        taken
    }
}

/// The entries on a row of wheels, with their multiplicities.
pub open spec fn on_wheels(wheels: Seq<WheelView>) -> Multiset<ScheduleItem> {
    sum(Seq::new(wheels.len(), |i: int| wheels[i].held()))
}

/// Whether each wheel but the finest has ticks as long as the whole ring of
/// the wheel below it.
pub open spec fn chained(wheels: Seq<WheelView>) -> bool {
    forall|i: int|
        0 < i < wheels.len() ==> (#[trigger] wheels[i]).tick_duration == wheels[i - 1].interval
}

/// Whether two rows of wheels are as many, wheel for wheel with the same
/// ticks and the same number of buckets.
pub open spec fn same_shape(wheels: Seq<WheelView>, other: Seq<WheelView>) -> bool {
    &&& wheels.len() == other.len()
    &&& forall|i: int| 0 <= i < wheels.len() ==> (#[trigger] wheels[i]).shaped_as(other[i])
}

/// Whether on every wheel the bucket that the hand is at is empty wherever
/// the present instant begins a tick of the wheel.
pub open spec fn hands_are_clear(wheels: Seq<WheelView>) -> bool {
    forall|i: int| 0 <= i < wheels.len() ==> (#[trigger] wheels[i]).hand_is_clear()
}

/// Whether a row of wheels is in order at `now`: there is a wheel, the
/// wheels are chained, and each has its hand at `now` and every entry in
/// its place.
pub open spec fn wheels_in_order(wheels: Seq<WheelView>, now: u64) -> bool {
    &&& wheels.len() > 0
    &&& chained(wheels)
    &&& forall|i: int|
        0 <= i < wheels.len() ==> (#[trigger] wheels[i]).wf() && wheels[i].in_order()
            && wheels[i].current_time == now
}

/// Whether an entry due at `time` lies beyond the coarsest wheel: its tick
/// on that wheel is a turn of the ring away, or more.
pub open spec fn lies_beyond(wheels: Seq<WheelView>, time: u64) -> bool {
    wheels.last().tick_of(time) >= wheels.last().tick_of(wheels.last().current_time)
        + wheels.last().wheel_size
}

/// Whether every entry that waits aside lies beyond the coarsest wheel.
pub open spec fn aside_in_order(wheels: Seq<WheelView>, aside: Seq<ScheduleItem>) -> bool {
    forall|k: int| 0 <= k < aside.len() ==> lies_beyond(wheels, (#[trigger] aside[k]).time)
}

/// The queue of the ready and the multiset of the pending after an entry was
/// scheduled at `now`: an entry due within the finest tick from `now` is
/// ready, and any other is pending.
pub open spec fn scheduled(
    ready: Seq<ScheduleItem>,
    pending: Multiset<ScheduleItem>,
    now: u64,
    tick: u64,
    item: ScheduleItem,
) -> (Seq<ScheduleItem>, Multiset<ScheduleItem>) {
    if item.time < now + tick {
        (ready.push(item), pending)
    } else {
        (ready, pending.insert(item))
    }
}

/// The queue of the ready and the multiset of the pending after an entry was
/// scheduled, where there was one to schedule.
pub open spec fn scheduled_if(
    ready: Seq<ScheduleItem>,
    pending: Multiset<ScheduleItem>,
    now: u64,
    tick: u64,
    item: Option<ScheduleItem>,
) -> (Seq<ScheduleItem>, Multiset<ScheduleItem>) {
    match item {
        Some(entry) => scheduled(ready, pending, now, tick, entry),
        None => (ready, pending),
    }
}

/// The seconds of a tick of wheel `upto`, counted from the finest: the
/// ticks of the finest wheel times the sizes of the wheels below.
pub open spec fn span(tick: u64, sizes: Seq<usize>, upto: int) -> int
    decreases upto,
{
    if upto <= 0 {
        tick as int
    } else {
        span(tick, sizes, upto - 1) * sizes[upto - 1]
    }
}

/// Where no wheel is without buckets, a coarser wheel has ticks at least
/// as long as a finer one.
proof fn lemma_span_grows(tick: u64, sizes: Seq<usize>, i: int, n: int)
    requires
        0 <= i <= n <= sizes.len(),
        forall|j: int| 0 <= j < sizes.len() ==> (#[trigger] sizes[j]) > 0,
    ensures
        0 <= span(tick, sizes, i) <= span(tick, sizes, n),
    decreases n - i,
{
    if i < n {
        lemma_span_grows(tick, sizes, i + 1, n);
        lemma_span_grows_from_zero(tick, sizes, i);
        let below = span(tick, sizes, i);
        let size = sizes[i] as int;
        assert(below * size >= below) by (nonlinear_arith)
            requires
                below >= 0,
                size >= 1,
        ;
    } else {
        lemma_span_grows_from_zero(tick, sizes, i);
    }
}

/// No wheel has ticks of a negative length.
proof fn lemma_span_grows_from_zero(tick: u64, sizes: Seq<usize>, i: int)
    requires
        0 <= i <= sizes.len(),
    ensures
        0 <= span(tick, sizes, i),
    decreases i,
{
    if i > 0 {
        lemma_span_grows_from_zero(tick, sizes, i - 1);
        let below = span(tick, sizes, i - 1);
        let size = sizes[i - 1] as int;
        assert(below * size >= 0) by (nonlinear_arith)
            requires
                below >= 0,
                size >= 0,
        ;
    }
}

/// On chained wheels, an entry that is due a tick of the finest wheel from
/// now or later, and fits no wheel, is due a whole turn of the coarsest
/// wheel from now, or later.
proof fn lemma_fits_none_is_beyond(wheels: Seq<WheelView>, now: u64, time: u64, upto: int)
    requires
        wheels_in_order(wheels, now),
        now + wheels[0].tick_duration <= time,
        0 <= upto < wheels.len(),
        forall|j: int| 0 <= j <= upto ==> !(#[trigger] wheels[j]).fits(time),
    ensures
        now + wheels[upto].interval <= time,
    decreases upto,
{
    if upto > 0 {
        lemma_fits_none_is_beyond(wheels, now, time, upto - 1);
        assert(wheels[upto].tick_duration == wheels[upto - 1].interval);
    }
    assert(!wheels[upto].fits(time));
}

/// Exchanging one wheel of a row changes what the row holds by what the
/// wheel holds.
proof fn lemma_on_wheels_update(wheels: Seq<WheelView>, i: int, wheel: WheelView)
    requires
        0 <= i < wheels.len(),
    ensures
        on_wheels(wheels.update(i, wheel)).add(wheels[i].held()) == on_wheels(wheels).add(
            wheel.held(),
        ),
{
    let parts = Seq::new(wheels.len(), |j: int| wheels[j].held());
    let after = wheels.update(i, wheel);
    let parts_after = Seq::new(after.len(), |j: int| after[j].held());
    assert(parts_after =~= parts.update(i, wheel.held()));
    lemma_sum_update(parts, i, wheel.held());
}

/// What a row of wheels in order holds is due later than now.
proof fn lemma_on_wheels_is_ahead(wheels: Seq<WheelView>, now: u64, x: ScheduleItem)
    requires
        wheels_in_order(wheels, now),
        on_wheels(wheels).contains(x),
    ensures
        x.time > now,
{
    let parts = Seq::new(wheels.len(), |j: int| wheels[j].held());
    lemma_sum_is_in_a_part(parts, x);
    let i = choose|i: int| 0 <= i < parts.len() && (#[trigger] parts[i]).contains(x);
    let w = wheels[i];
    assert(w.wf() && w.in_order());
    lemma_held_is_in_a_bucket(w.buckets, x);
    let (b, k) = choose|b: int, k: int|
        0 <= b < w.buckets.len() && 0 <= k < w.buckets[b].len() && (#[trigger] w.buckets[b][k])
            == x;
    assert(w.waits_well(w.buckets[b][k].time, b));
    lemma_tick_ahead_converse(now as int, x.time as int, w.tick_duration as int);
}

/// An instant that falls into a later tick is a later instant.
proof fn lemma_tick_ahead_converse(now: int, e: int, d: int)
    requires
        0 <= now,
        0 <= e,
        0 < d,
        now / d < e / d,
    ensures
        now < e,
{
    if e <= now {
        lemma_div_is_ordered(e, now, d);
    }
}

/// The scheduler on timing wheels: a table of jobs, the wheels on which
/// their next firings wait, the queue of the firings that are ready, and
/// aside what lies beyond the wheels.
///
/// Identities are given out from 1 upwards, in the order of registration.
pub struct TimingWheelScheduler<J, E> {
    extensions: Extensions<E>,
    tz: Zone,
    max_id: usize,
    current_time: u64,
    jobs: Vec<Slot<J>>,
    wheels: Vec<TimingWheel>,
    exec_queue: VecDeque<ScheduleItem>,
    delay_queue: VecDeque<ScheduleItem>,
}

impl<J: Job, E> TimingWheelScheduler<J, E> {
    /// The instant that the hands are at.
    pub closed spec fn now(&self) -> u64 {
        self.current_time
    }

    /// The wheels, the finest first.
    pub closed spec fn wheels(&self) -> Seq<WheelView> {
        Seq::new(self.wheels@.len(), |i: int| self.wheels@[i]@)
    }

    /// The entries that are ready to fire; the last is taken first.
    pub closed spec fn ready(&self) -> Seq<ScheduleItem> {
        self.exec_queue@
    }

    /// The entries that wait aside, beyond the wheels.
    pub closed spec fn aside(&self) -> Seq<ScheduleItem> {
        self.delay_queue@
    }

    /// The entries that wait, on the wheels or aside.
    pub open spec fn pending(&self) -> Multiset<ScheduleItem> {
        on_wheels(self.wheels()).add(self.aside().to_multiset())
    }

    /// The seconds of a tick of the finest wheel.
    pub open spec fn tick_duration(&self) -> u64 {
        self.wheels()[0].tick_duration
    }

    /// What waits on the finest wheel in the bucket of the present instant.
    pub open spec fn finest_hand_bucket(&self) -> Seq<ScheduleItem> {
        self.wheels()[0].buckets[self.wheels()[0].bucket_of(self.now())]
    }

    /// The entries that the scheduler holds, pending or ready.
    pub open spec fn entries(&self) -> Multiset<ScheduleItem> {
        self.pending().add(self.ready().to_multiset())
    }

    /// Whether the queue of the ready is `before` with more behind it, all
    /// of it due within the finest tick from now.
    pub open spec fn ready_grew_from(&self, before: Seq<ScheduleItem>) -> bool {
        &&& before.len() <= self.ready().len()
        &&& self.ready().subrange(0, before.len() as int) == before
        &&& forall|k: int|
            before.len() <= k < self.ready().len() ==> (#[trigger] self.ready()[k]).time
                < self.now() + self.tick_duration()
    }

    /// The state of each job, the job with identity `k + 1` at index `k`.
    pub closed spec fn infos(&self) -> Seq<BaseJob> {
        Seq::new(self.jobs@.len(), |k: int| self.jobs@[k].job.info())
    }

    /// For each job the instant of its entry, where it has one. The
    /// scheduler holds these entries and no others.
    pub closed spec fn dues(&self) -> Seq<Option<u64>> {
        Seq::new(self.jobs@.len(), |k: int| self.jobs@[k].due)
    }

    /// Whether the scheduler holds one entry for each job that is due, and
    /// no other.
    pub open spec fn entries_agree(&self) -> bool {
        forall|x: ScheduleItem| #[trigger] self.entries().count(x) == entry_count(self.dues(), x)
    }

    /// Whether whatever is ready is due within the finest tick from now.
    pub open spec fn ready_is_due(&self) -> bool {
        forall|k: int|
            0 <= k < self.ready().len() ==> (#[trigger] self.ready()[k]).time < self.now()
                + self.tick_duration()
    }

    /// Whether the wheels are in order and what waits aside lies beyond
    /// them.
    pub open spec fn queue_wf(&self) -> bool {
        &&& wheels_in_order(self.wheels(), self.now())
        &&& aside_in_order(self.wheels(), self.aside())
    }

    /// What each job is besides its state, in the order of the table: the
    /// handlers, as they were submitted.
    pub closed spec fn rests(&self) -> Seq<J::Rest> {
        Seq::new(self.jobs@.len(), |k: int| self.jobs@[k].job.rest())
    }

    /// The zone in which the schedules are reckoned.
    pub closed spec fn zone(&self) -> Zone {
        self.tz
    }

    /// The extensions, by the identifiers of their keys.
    pub closed spec fn exts(&self) -> Map<u64, E> {
        self.extensions@
    }

    /// Whether the table counts its jobs.
    pub closed spec fn counted(&self) -> bool {
        self.max_id == self.jobs@.len()
    }

    /// Whether the scheduler is in order: its queue is, it holds the entry
    /// of each job that is due and no other, what is ready is due, and every
    /// job carries the identity of its place and a schedule that the cron
    /// grammar accepts.
    pub open spec fn wf(&self) -> bool {
        &&& self.counted()
        &&& self.queue_wf()
        &&& self.entries_agree()
        &&& self.ready_is_due()
        &&& self.infos().len() == self.dues().len()
        &&& self.infos().len() == self.rests().len()
        &&& forall|k: int|
            0 <= k < self.infos().len() ==> (#[trigger] self.infos()[k]).id == JobId(
                (k + 1) as usize,
            ) && self.infos()[k].jobschedule.valid()
    }

    /// A scheduler whose queue and jobs are those of one in order is in
    /// order.
    proof fn lemma_same_queue_is_wf(&self, other: Self)
        requires
            other.wf(),
            self.counted() == other.counted(),
            self.now() == other.now(),
            self.wheels() == other.wheels(),
            self.ready() == other.ready(),
            self.aside() == other.aside(),
            self.infos() == other.infos(),
            self.dues() == other.dues(),
        ensures
            self.wf(),
    {
        assert forall|x: ScheduleItem| #[trigger]
            self.entries().count(x) == entry_count(self.dues(), x) by {
            assert(other.entries().count(x) == entry_count(other.dues(), x));
        }
        assert forall|j: int| 0 <= j < self.ready().len() implies (#[trigger] self.ready()[j]).time
            < self.now() + self.tick_duration() by {
            assert(other.ready()[j].time < other.now() + other.tick_duration());
        }
    }

    /// On every wheel the bucket that the hand is at is empty wherever the
    /// present instant begins a tick of the wheel; on a finest wheel of
    /// seconds that is so at every instant.
    pub proof fn lemma_hands_are_clear(&self)
        requires
            self.queue_wf(),
        ensures
            hands_are_clear(self.wheels()),
            self.tick_duration() == 1 ==> self.finest_hand_bucket().len() == 0,
    {
        assert forall|i: int| 0 <= i < self.wheels().len() implies (
        #[trigger] self.wheels()[i]).hand_is_clear() by {
            lemma_hand_is_clear(self.wheels()[i]);
        }
        assert(self.wheels()[0].hand_is_clear());
    }

    /// What waits in a bucket of a wheel is pending.
    pub proof fn lemma_waiting_is_pending(&self, i: int, b: int, k: int)
        requires
            0 <= i < self.wheels().len(),
            0 <= b < self.wheels()[i].buckets.len(),
            0 <= k < self.wheels()[i].buckets[b].len(),
        ensures
            self.pending().contains(self.wheels()[i].buckets[b][k]),
    {
        let wheel = self.wheels()[i];
        let x = wheel.buckets[b][k];
        let buckets = Seq::new(wheel.buckets.len(), |c: int| wheel.buckets[c].to_multiset());
        wheel.buckets[b].to_multiset_ensures();
        assert(wheel.buckets[b].contains(x));
        lemma_part_is_in_sum(buckets, b, x);
        let parts = Seq::new(self.wheels().len(), |j: int| self.wheels()[j].held());
        lemma_part_is_in_sum(parts, i, x);
    }

    /// Nothing that waits is due: every pending entry is due later than
    /// now.
    pub proof fn lemma_pending_is_ahead(&self, x: ScheduleItem)
        requires
            self.queue_wf(),
            self.pending().contains(x),
        ensures
            x.time > self.now(),
    {
        if on_wheels(self.wheels()).contains(x) {
            lemma_on_wheels_is_ahead(self.wheels(), self.now(), x);
        } else {
            let aside = self.aside();
            aside.to_multiset_ensures();
            assert(aside.contains(x));
            let k = choose|k: int| 0 <= k < aside.len() && aside[k] == x;
            assert(lies_beyond(self.wheels(), aside[k].time));
            let top = self.wheels().last();
            assert(top.wf());
            lemma_tick_ahead_converse(
                self.now() as int,
                x.time as int,
                top.tick_duration as int,
            );
        }
    }

    /// The wheel on which an entry waits and its bucket there: the finest
    /// wheel that the entry fits. `None` for an entry that fits no wheel,
    /// being due within the finest tick or lying beyond the coarsest wheel.
    pub fn get_layer(&self, item: &ScheduleItem) -> (place: Option<(usize, usize)>)
        requires
            self.queue_wf(),
        ensures
            place matches Some((layer, b)) ==> {
                &&& layer < self.wheels().len()
                &&& self.wheels()[layer as int].fits(item.time)
                &&& b == self.wheels()[layer as int].bucket_of(item.time)
                &&& forall|j: int| 0 <= j < layer ==> !(#[trigger] self.wheels()[j]).fits(item.time)
            },
            place is None ==> forall|j: int|
                0 <= j < self.wheels().len() ==> !(#[trigger] self.wheels()[j]).fits(item.time),
    {
        let mut i: usize = 0;
        while i < self.wheels.len()
            invariant
                self.queue_wf(),
                i <= self.wheels().len(),
                self.wheels().len() == self.wheels@.len(),
                forall|j: int| 0 <= j < i ==> !(#[trigger] self.wheels()[j]).fits(item.time),
            decreases self.wheels@.len() - i,
        {
            assert(self.wheels()[i as int] == self.wheels@[i as int]@);
            assert(self.wheels()[i as int].wf());
            if self.wheels[i].fits(item.time) {
                let b = self.wheels[i].bucket_index(item.time);
                return Some((i, b));
            }
            i += 1;
        }
        None
    }

    /// Schedules an entry: it waits on the finest wheel that it fits, or
    /// aside where it lies beyond the wheels, and is ready at once where it
    /// is due within the finest tick from now.
    fn add_to_schedule(&mut self, item: ScheduleItem)
        requires
            old(self).queue_wf(),
        ensures
            final(self).rests() == old(self).rests(),
            final(self).queue_wf(),
            final(self).counted() == old(self).counted(),
            final(self).now() == old(self).now(),
            final(self).tick_duration() == old(self).tick_duration(),
            same_shape(final(self).wheels(), old(self).wheels()),
            final(self).infos() == old(self).infos(),
            final(self).dues() == old(self).dues(),
            final(self).zone() == old(self).zone(),
            final(self).exts() == old(self).exts(),
            (final(self).ready(), final(self).pending()) == scheduled(
                old(self).ready(),
                old(self).pending(),
                old(self).now(),
                old(self).tick_duration(),
                item,
            ),
    {
        broadcast use to_multiset_build;

        let ghost wheels = self.wheels();
        let ghost now = self.now();
        assert(wheels[0] == self.wheels@[0]@);
        assert(wheels[0].wf());
        let tick = self.wheels[0].tick_duration();
        let soon = item.time < self.current_time || item.time - self.current_time < tick;
        if soon {
            proof {
                assert forall|j: int| 0 <= j < wheels.len() implies !(#[trigger] wheels[j]).fits(
                    item.time,
                ) by {
                    lemma_finest_tick_is_least(wheels, now, j);
                }
            }
            self.exec_queue.push_back(item);
            assert(self.wheels() =~= wheels);
            assert(self.infos() =~= old(self).infos());
            assert(self.dues() =~= old(self).dues());
            return ;
        }
        match self.get_layer(&item) {
            Some((layer, b)) => {
                let ghost row = self.wheels@;
                self.wheels[layer].put(item);
                proof {
                    let wheel = self.wheels@[layer as int]@;
                    assert(self.wheels@.len() == row.len());
                    assert(forall|j: int|
                        0 <= j < row.len() && j != layer ==> self.wheels@[j] == row[j]);
                    assert(self.wheels() =~= wheels.update(layer as int, wheel));
                    lemma_on_wheels_update(wheels, layer as int, wheel);
                    assert forall|v: ScheduleItem|
                        on_wheels(self.wheels()).count(v) == on_wheels(wheels).insert(item).count(
                            v,
                        ) by {
                        assert(on_wheels(self.wheels()).add(wheels[layer as int].held()).count(v)
                            == on_wheels(wheels).add(wheel.held()).count(v));
                    }
                    assert(on_wheels(self.wheels()) =~= on_wheels(wheels).insert(item));
                    assert(self.pending() =~= old(self).pending().insert(item));
                    assert(self.infos() =~= old(self).infos());
                    assert(self.dues() =~= old(self).dues());
                    assert(self.wheels().last().tick_duration == wheels.last().tick_duration);
                    assert forall|i: int| 0 <= i < self.wheels().len() implies (
                    #[trigger] self.wheels()[i]).wf() && self.wheels()[i].in_order()
                        && self.wheels()[i].current_time == now by {
                        assert(wheels[i].wf());
                    }
                    assert forall|i: int| 0 < i < self.wheels().len() implies (
                    #[trigger] self.wheels()[i]).tick_duration == self.wheels()[i - 1].interval by {
                        assert(wheels[i].tick_duration == wheels[i - 1].interval);
                    }
                }
            },
            None => {
                proof {
                    lemma_fits_none_is_beyond(wheels, now, item.time, wheels.len() - 1);
                    let top = wheels.last();
                    assert(top.wf());
                    assert(top.tick_duration * top.wheel_size == top.wheel_size
                        * top.tick_duration) by (nonlinear_arith);
                    lemma_tick_beyond(
                        now as int,
                        item.time as int,
                        top.tick_duration as int,
                        top.wheel_size as int,
                    );
                }
                self.delay_queue.push_back(item);
                assert(self.wheels() =~= wheels);
                assert(self.infos() =~= old(self).infos());
                assert(self.dues() =~= old(self).dues());
                assert(self.pending() =~= old(self).pending().insert(item));
            },
        }
    }

    /// A scheduler without jobs on wheels of the given sizes, the finest
    /// first: the finest has ticks of `tick_duration` seconds, and each
    /// other has ticks as long as the whole ring of the wheel below it.
    /// The hands are at `current_time`.
    pub fn with_tz(tick_duration: u64, sizes: Vec<usize>, tz: Zone, current_time: u64) -> (scheduler:
        Self)
        requires
            tick_duration > 0,
            sizes@.len() > 0,
            forall|i: int| 0 <= i < sizes@.len() ==> (#[trigger] sizes@[i]) > 0,
            span(tick_duration, sizes@, sizes@.len() as int) <= u64::MAX,
        ensures
            scheduler.rests().len() == 0,
            scheduler.wf(),
            scheduler.now() == current_time,
            scheduler.zone() == tz,
            scheduler.wheels().len() == sizes@.len(),
            forall|i: int|
                0 <= i < sizes@.len() ==> (#[trigger] scheduler.wheels()[i]).wheel_size == sizes@[i]
                    && scheduler.wheels()[i].tick_duration == span(tick_duration, sizes@, i),
            scheduler.entries() == Multiset::<ScheduleItem>::empty(),
            scheduler.ready() == Seq::<ScheduleItem>::empty(),
            scheduler.infos().len() == 0,
            scheduler.exts() == Map::<u64, E>::empty(),
    {
        let n = sizes.len();
        let mut wheels: Vec<TimingWheel> = Vec::new();
        let mut tick = tick_duration;
        let mut i: usize = 0;
        while i < n
            invariant
                i <= n,
                n == sizes@.len(),
                tick_duration > 0,
                forall|j: int| 0 <= j < sizes@.len() ==> (#[trigger] sizes@[j]) > 0,
                span(tick_duration, sizes@, n as int) <= u64::MAX,
                wheels@.len() == i,
                tick == span(tick_duration, sizes@, i as int),
                tick > 0,
                forall|j: int|
                    0 <= j < i ==> {
                        &&& (#[trigger] wheels@[j])@.wf()
                        &&& wheels@[j]@.in_order()
                        &&& wheels@[j]@.current_time == current_time
                        &&& wheels@[j]@.wheel_size == sizes@[j]
                        &&& wheels@[j]@.tick_duration == span(tick_duration, sizes@, j)
                        &&& wheels@[j]@.interval == span(tick_duration, sizes@, j + 1)
                        &&& wheels@[j]@.held() == Multiset::<ScheduleItem>::empty()
                    },
            decreases n - i,
        {
            proof {
                lemma_span_grows(tick_duration, sizes@, i as int + 1, n as int);
                assert(span(tick_duration, sizes@, i as int + 1) == tick * sizes@[i as int]);
                assert(sizes@[i as int] * tick == tick * sizes@[i as int]) by (nonlinear_arith);
                assert(tick * sizes@[i as int] > 0) by (nonlinear_arith)
                    requires
                        tick > 0,
                        sizes@[i as int] > 0,
                ;
            }
            let wheel = TimingWheel::new(sizes[i], tick, current_time);
            tick = wheel.interval();
            wheels.push(wheel);
            i += 1;
        }
        let scheduler = TimingWheelScheduler {
            extensions: Extensions::new(),
            tz,
            max_id: 0,
            current_time,
            jobs: Vec::new(),
            wheels,
            exec_queue: VecDeque::new(),
            delay_queue: VecDeque::new(),
        };
        proof {
            let views = scheduler.wheels();
            assert(scheduler.infos() =~= Seq::empty());
            assert(scheduler.dues() =~= Seq::empty());
            assert forall|j: int| 0 <= j < views.len() implies (#[trigger] views[j]).wf()
                && views[j].in_order() && views[j].current_time == current_time by {
                assert(views[j] == scheduler.wheels@[j]@);
            }
            assert forall|j: int| 0 < j < views.len() implies (#[trigger] views[j]).tick_duration
                == views[j - 1].interval by {
                assert(views[j] == scheduler.wheels@[j]@);
                assert(views[j - 1] == scheduler.wheels@[j - 1]@);
            }
            let parts = Seq::new(views.len(), |j: int| views[j].held());
            assert forall|j: int| 0 <= j < parts.len() implies (#[trigger] parts[j]).len() == 0 by {
                assert(views[j] == scheduler.wheels@[j]@);
            }
            lemma_sum_empty(parts);
            scheduler.aside().to_multiset_ensures();
            scheduler.ready().to_multiset_ensures();
            assert(scheduler.entries() =~= Multiset::<ScheduleItem>::empty());
            assert forall|j: int| 0 <= j < sizes@.len() implies (
            #[trigger] scheduler.wheels()[j]).wheel_size == sizes@[j]
                && scheduler.wheels()[j].tick_duration == span(tick_duration, sizes@, j) by {
                assert(views[j] == scheduler.wheels@[j]@);
            }
        }
        scheduler
    }

    /// A scheduler without jobs on three wheels, of the seconds of a
    /// minute, the minutes of an hour and the hours of a day, that reckons
    /// in the zone of the host. The hands are at `current_time`.
    pub fn new(current_time: u64) -> (scheduler: Self)
        ensures
            scheduler.rests().len() == 0,
            scheduler.wf(),
            scheduler.now() == current_time,
            scheduler.wheels().len() == 3,
            scheduler.tick_duration() == 1,
            scheduler.wheels()[0].wheel_size == 60,
            scheduler.wheels()[1].wheel_size == 60,
            scheduler.wheels()[2].wheel_size == 24,
            scheduler.wheels()[1].tick_duration == 60,
            scheduler.wheels()[2].tick_duration == 3600,
            scheduler.entries() == Multiset::<ScheduleItem>::empty(),
            scheduler.ready() == Seq::<ScheduleItem>::empty(),
            scheduler.infos().len() == 0,
            scheduler.exts() == Map::<u64, E>::empty(),
    {
        let sizes: Vec<usize> = vec![60, 60, 24];
        proof {
            reveal_with_fuel(span, 4);
            assert(span(1, sizes@, 0) == 1);
            assert(span(1, sizes@, 1) == 60);
            assert(span(1, sizes@, 2) == 3600);
            assert(span(1, sizes@, 3) == 86400);
        }
        Self::with_tz(1, sizes, Zone::local(), current_time)
    }

    /// The zone in which the schedules are reckoned.
    pub fn get_tz(&self) -> (tz: Zone)
        ensures
            tz == self.zone(),
    {
        self.tz
    }

    /// The instant that the hands are at.
    pub fn current_time(&self) -> (now: u64)
        ensures
            now == self.now(),
    {
        self.current_time
    }

    /// The number of entries that are ready and of those that wait aside.
    pub fn queue_lengths(&self) -> (lengths: (usize, usize))
        ensures
            lengths.0 == self.ready().len(),
            lengths.1 == self.aside().len(),
    {
        (self.exec_queue.len(), self.delay_queue.len())
    }

    /// The wheels, the finest first.
    pub fn layers(&self) -> (wheels: &Vec<TimingWheel>)
        ensures
            wheels@.len() == self.wheels().len(),
            forall|i: int| 0 <= i < wheels@.len() ==> (#[trigger] wheels@[i])@ == self.wheels()[i],
    {
        &self.wheels
    }

    /// The number of jobs.
    pub fn job_count(&self) -> (n: usize)
        ensures
            n == self.infos().len(),
    {
        self.jobs.len()
    }

    /// The job with the identity `id`, where there is one.
    pub fn job(&self, id: JobId) -> (found: Option<&J>)
        ensures
            found matches Some(job) ==> job.rest() == self.rests()[id.0 - 1],
            found is Some <==> 1 <= id.0 <= self.infos().len(),
            found matches Some(job) ==> job.info() == self.infos()[id.0 - 1],
    {
        if 1 <= id.0 && id.0 <= self.jobs.len() {
            Some(&self.jobs[id.0 - 1].job)
        } else {
            None
        }
    }

    /// The extensions.
    pub fn extensions(&self) -> (exts: &Extensions<E>)
        ensures
            exts@ == self.exts(),
    {
        &self.extensions
    }

    /// Keeps `ext` under `key` for the handlers, in place of what was kept
    /// under the key before.
    pub fn add_ext(&mut self, key: TypeKey, ext: E)
        ensures
            final(self).rests() == old(self).rests(),
            final(self).exts() == old(self).exts().insert(key.0, ext),
            final(self).infos() == old(self).infos(),
            final(self).dues() == old(self).dues(),
            final(self).zone() == old(self).zone(),
            final(self).now() == old(self).now(),
            final(self).wheels() == old(self).wheels(),
            final(self).ready() == old(self).ready(),
            final(self).aside() == old(self).aside(),
            old(self).wf() ==> final(self).wf(),
    {
        self.extensions.insert(key, ext);
        proof {
            assert(self.infos() =~= old(self).infos());
            assert(self.dues() =~= old(self).dues());
            assert(self.wheels() =~= old(self).wheels());
            if old(self).wf() {
                self.lemma_same_queue_is_wf(*old(self));
            }
        }
    }

    /// Registers `job`: it gets the next identity, and where an instant
    /// after now is found for its schedule it is due at that instant, and
    /// its entry is scheduled.
    pub fn add_job(&mut self, job: J) -> (id: JobId)
        requires
            old(self).wf(),
            job.info().jobschedule.valid(),
            old(self).now() <= MAX_INSTANT,
            old(self).infos().len() < usize::MAX,
        ensures
            final(self).rests() == old(self).rests().push(job.rest()),
            final(self).wf(),
            id == JobId((old(self).infos().len() + 1) as usize),
            final(self).infos() == old(self).infos().push(
                (BaseJob { id, ..job.info() }).noted(old(self).now(), old(self).zone().offset()),
            ),
            final(self).dues() == old(self).dues().push(
                (BaseJob { id, ..job.info() }).due_after(old(self).now(), old(self).zone().offset()),
            ),
            final(self).dues().last() matches Some(t) ==> t > old(self).now(),
            (final(self).ready(), final(self).pending()) == scheduled_if(
                old(self).ready(),
                old(self).pending(),
                old(self).now(),
                old(self).tick_duration(),
                (BaseJob { id, ..job.info() }).upcoming(old(self).now(), old(self).zone().offset()),
            ),
            final(self).now() == old(self).now(),
            final(self).tick_duration() == old(self).tick_duration(),
            same_shape(final(self).wheels(), old(self).wheels()),
            final(self).zone() == old(self).zone(),
            final(self).exts() == old(self).exts(),
    {
        broadcast use to_multiset_build;

        let mut job = job;
        let id = JobId(self.max_id + 1);
        job.set_id(id);
        let item = job.next(self.current_time, self.tz);
        let due = match item {
            Some(entry) => {
                self.add_to_schedule(entry);
                Some(entry.time)
            },
            None => None,
        };
        let ghost placed = self.wheels();
        self.jobs.push(Slot { job, due });
        self.max_id = self.max_id + 1;
        proof {
            let start = (BaseJob { id, ..job.info() });
            let east = old(self).zone().offset();
            let now = old(self).now();
            assert(self.infos() =~= old(self).infos().push(start.noted(now, east)));
            assert(self.dues() =~= old(self).dues().push(start.due_after(now, east)));
            assert(self.wheels() =~= placed);
            assert forall|x: ScheduleItem| #[trigger]
                self.entries().count(x) == entry_count(self.dues(), x) by {
                assert(old(self).entries().count(x) == entry_count(old(self).dues(), x));
            }
            assert forall|k: int| 0 <= k < self.ready().len() implies (
            #[trigger] self.ready()[k]).time < self.now() + self.tick_duration() by {
                if k < old(self).ready().len() {
                    assert(old(self).ready()[k].time < now + old(self).tick_duration());
                }
            }
        }
        id
    }

    /// Registers `job` where its schedule is one that the cron grammar
    /// accepts, and leaves the scheduler as it was where it is not.
    pub fn try_add_job(&mut self, job: J) -> (id: Option<JobId>)
        requires
            old(self).wf(),
            old(self).now() <= MAX_INSTANT,
            old(self).infos().len() < usize::MAX,
        ensures
            id is Some ==> final(self).rests() == old(self).rests().push(job.rest()),
            id is None ==> final(self).rests() == old(self).rests(),
            final(self).wf(),
            id is Some <==> job.info().jobschedule.valid(),
            id matches Some(i) ==> {
                &&& i == JobId((old(self).infos().len() + 1) as usize)
                &&& final(self).infos() == old(self).infos().push(
                    (BaseJob { id: i, ..job.info() }).noted(
                        old(self).now(),
                        old(self).zone().offset(),
                    ),
                )
                &&& final(self).dues() == old(self).dues().push(
                    (BaseJob { id: i, ..job.info() }).due_after(
                        old(self).now(),
                        old(self).zone().offset(),
                    ),
                )
                &&& (final(self).ready(), final(self).pending()) == scheduled_if(
                    old(self).ready(),
                    old(self).pending(),
                    old(self).now(),
                    old(self).tick_duration(),
                    (BaseJob { id: i, ..job.info() }).upcoming(
                        old(self).now(),
                        old(self).zone().offset(),
                    ),
                )
            },
            id is Some ==> (final(self).dues().last() matches Some(t) ==> t > old(self).now()),
            final(self).tick_duration() == old(self).tick_duration(),
            same_shape(final(self).wheels(), old(self).wheels()),
            id is None ==> final(self).infos() == old(self).infos(),
            id is None ==> final(self).dues() == old(self).dues(),
            id is None ==> final(self).ready() == old(self).ready(),
            id is None ==> final(self).pending() == old(self).pending(),
            final(self).now() == old(self).now(),
            final(self).zone() == old(self).zone(),
            final(self).exts() == old(self).exts(),
    {
        if job.base().jobschedule.is_valid() {
            Some(self.add_job(job))
        } else {
            None
        }
    }

    /// Takes the entry that was ready last out of the queue and says what
    /// becomes of it.
    ///
    /// With nothing ready the answer is `Idle`. Else the entry leaves the
    /// queue, so that its job is due no longer. A cancelled job is evicted
    /// without firing. Any other job fires after the seconds left until its
    /// instant, less than a tick, and at once where the instant has come.
    pub fn next_action(&mut self) -> (action: Dispatch)
        requires
            old(self).wf(),
        ensures
            final(self).rests() == old(self).rests(),
            final(self).wf(),
            final(self).infos() == old(self).infos(),
            final(self).pending() == old(self).pending(),
            final(self).now() == old(self).now(),
            final(self).tick_duration() == old(self).tick_duration(),
            same_shape(final(self).wheels(), old(self).wheels()),
            final(self).zone() == old(self).zone(),
            final(self).exts() == old(self).exts(),
            action is Idle <==> old(self).ready().len() == 0,
            action is Idle ==> final(self).ready() == old(self).ready() && final(self).dues()
                == old(self).dues(),
            action matches Dispatch::Evict(item) ==> {
                &&& item == old(self).ready().last()
                &&& final(self).ready() == old(self).ready().drop_last()
                &&& 1 <= item.id.0 <= old(self).infos().len()
                &&& old(self).infos()[item.id.0 - 1].cancel
                &&& old(self).dues()[item.id.0 - 1] == Some(item.time)
                &&& final(self).dues() == old(self).dues().update(item.id.0 - 1, None)
            },
            action matches Dispatch::Fire { item, wait } ==> {
                &&& item == old(self).ready().last()
                &&& final(self).ready() == old(self).ready().drop_last()
                &&& 1 <= item.id.0 <= old(self).infos().len()
                &&& !old(self).infos()[item.id.0 - 1].cancel
                &&& old(self).dues()[item.id.0 - 1] == Some(item.time)
                &&& final(self).dues() == old(self).dues().update(item.id.0 - 1, None)
                &&& wait == wait_for(item.time, old(self).now())
                &&& wait < old(self).tick_duration()
            },
    {
        let ghost ready = self.exec_queue@;
        let popped = self.exec_queue.pop_back();
        match popped {
            None => {
                proof {
                    assert(self.wheels() =~= old(self).wheels());
                    assert(self.infos() =~= old(self).infos());
                    assert(self.dues() =~= old(self).dues());
                    self.lemma_same_queue_is_wf(*old(self));
                }
                Dispatch::Idle
            },
            Some(item) => {
                proof {
                    assert(ready =~= self.exec_queue@.push(item));
                    to_multiset_build(self.exec_queue@, item);
                    assert(old(self).entries().count(item) == entry_count(old(self).dues(), item));
                    assert(old(self).ready()[ready.len() - 1].time < old(self).now() + old(
                        self,
                    ).tick_duration());
                    assert(self.exec_queue@ =~= ready.drop_last());
                }
                let k = item.id.0 - 1;
                let cancelled = self.jobs[k].job.base().cancel;
                let ghost table = self.jobs@;
                self.jobs[k].due = None;
                proof {
                    assert(self.jobs@[k as int].job == table[k as int].job);
                    assert(self.wheels() =~= old(self).wheels());
                    assert(self.infos() =~= old(self).infos());
                    assert(self.dues() =~= old(self).dues().update(k as int, None));
                    assert(old(self).entries() =~= self.entries().insert(item));
                    assert forall|x: ScheduleItem| #[trigger]
                        self.entries().count(x) == entry_count(self.dues(), x) by {
                        assert(old(self).entries().count(x) == entry_count(old(self).dues(), x));
                    }
                    assert forall|j: int| 0 <= j < self.ready().len() implies (
                    #[trigger] self.ready()[j]).time < self.now() + self.tick_duration() by {
                        assert(old(self).ready()[j].time < old(self).now() + old(
                            self,
                        ).tick_duration());
                    }
                }
                if cancelled {
                    Dispatch::Evict(item)
                } else {
                    let wait = if item.time > self.current_time {
                        item.time - self.current_time
                    } else {
                        0
                    };
                    Dispatch::Fire { item, wait }
                }
            },
        }
    }

    /// Schedules the job `id` again after a firing: where it is not due
    /// already, and an instant after `after` is found for its schedule, it
    /// is due at that instant and its entry is scheduled.
    ///
    /// An identity that no job has, and a job that is due already, leave the
    /// scheduler as it was. A cancelled job and a job whose schedule is
    /// exhausted have no next firing.
    pub fn reschedule(&mut self, id: JobId, after: u64) -> (item: Option<ScheduleItem>)
        requires
            old(self).wf(),
            after <= MAX_INSTANT,
        ensures
            final(self).rests() == old(self).rests(),
            final(self).wf(),
            final(self).now() == old(self).now(),
            final(self).tick_duration() == old(self).tick_duration(),
            same_shape(final(self).wheels(), old(self).wheels()),
            final(self).zone() == old(self).zone(),
            final(self).exts() == old(self).exts(),
            item matches Some(entry) ==> entry.time > after && entry.id == id,
            !(1 <= id.0 <= old(self).infos().len()) || old(self).dues()[id.0 - 1] is Some ==> {
                &&& item is None
                &&& final(self).infos() == old(self).infos()
                &&& final(self).dues() == old(self).dues()
                &&& final(self).ready() == old(self).ready()
                &&& final(self).pending() == old(self).pending()
            },
            1 <= id.0 <= old(self).infos().len() && old(self).dues()[id.0 - 1] is None ==> {
                &&& item == old(self).infos()[id.0 - 1].upcoming(after, old(self).zone().offset())
                &&& final(self).infos() == old(self).infos().update(
                    id.0 - 1,
                    old(self).infos()[id.0 - 1].noted(after, old(self).zone().offset()),
                )
                &&& final(self).dues() == old(self).dues().update(
                    id.0 - 1,
                    old(self).infos()[id.0 - 1].due_after(after, old(self).zone().offset()),
                )
                &&& (final(self).ready(), final(self).pending()) == scheduled_if(
                    old(self).ready(),
                    old(self).pending(),
                    old(self).now(),
                    old(self).tick_duration(),
                    item,
                )
            },
    {
        broadcast use to_multiset_build;

        if id.0 < 1 || id.0 > self.jobs.len() {
            return None;
        }
        let k = id.0 - 1;
        if self.jobs[k].due.is_some() {
            assert(old(self).dues()[k as int] is Some);
            return None;
        }
        let ghost table = self.jobs@;
        assert(old(self).infos()[k as int].jobschedule.valid());
        let tz = self.tz;
        let item = self.jobs[k].job.next(after, tz);
        proof {
            assert(self.jobs@.len() == table.len());
            assert(forall|j: int| 0 <= j < table.len() && j != k ==> self.jobs@[j] == table[j]);
            assert(self.wheels() =~= old(self).wheels());
        }
        if let Some(entry) = item {
            let ghost slots = self.jobs@;
            self.jobs[k].due = Some(entry.time);
            proof {
                assert(self.jobs@[k as int].job == slots[k as int].job);
                assert(self.wheels() =~= old(self).wheels());
            }
            self.add_to_schedule(entry);
        }
        proof {
            let east = old(self).zone().offset();
            let before = old(self).infos()[k as int];
            assert(self.infos() =~= old(self).infos().update(k as int, before.noted(after, east)));
            assert(self.dues() =~= old(self).dues().update(
                k as int,
                before.due_after(after, east),
            ));
            assert forall|x: ScheduleItem| #[trigger]
                self.entries().count(x) == entry_count(self.dues(), x) by {
                assert(old(self).entries().count(x) == entry_count(old(self).dues(), x));
            }
            assert forall|j: int| 0 <= j < self.ready().len() implies (
            #[trigger] self.ready()[j]).time < self.now() + self.tick_duration() by {
                if j < old(self).ready().len() {
                    assert(old(self).ready()[j].time < old(self).now() + old(
                        self,
                    ).tick_duration());
                }
            }
        }
        item
    }

    /// Cancels the job `id`: it fires no more. Its entry stays where it
    /// waits until its instant comes, and is evicted then.
    pub fn cancel(&mut self, id: JobId) -> (found: bool)
        requires
            old(self).wf(),
        ensures
            final(self).rests() == old(self).rests(),
            final(self).wf(),
            final(self).dues() == old(self).dues(),
            final(self).ready() == old(self).ready(),
            final(self).pending() == old(self).pending(),
            final(self).now() == old(self).now(),
            final(self).tick_duration() == old(self).tick_duration(),
            same_shape(final(self).wheels(), old(self).wheels()),
            final(self).zone() == old(self).zone(),
            final(self).exts() == old(self).exts(),
            found <==> 1 <= id.0 <= old(self).infos().len(),
            !found ==> final(self).infos() == old(self).infos(),
            found ==> final(self).infos() == old(self).infos().update(
                id.0 - 1,
                (BaseJob { cancel: true, ..old(self).infos()[id.0 - 1] }),
            ),
    {
        if id.0 < 1 || id.0 > self.jobs.len() {
            return false;
        }
        let k = id.0 - 1;
        let ghost table = self.jobs@;
        self.jobs[k].job.cancel();
        proof {
            assert(self.jobs@.len() == table.len());
            assert(forall|j: int| 0 <= j < table.len() && j != k ==> self.jobs@[j] == table[j]);
            assert(self.wheels() =~= old(self).wheels());
            assert(self.dues() =~= old(self).dues());
            assert(self.infos() =~= old(self).infos().update(
                k as int,
                (BaseJob { cancel: true, ..old(self).infos()[k as int] }),
            ));
            assert forall|x: ScheduleItem| #[trigger]
                self.entries().count(x) == entry_count(self.dues(), x) by {
                assert(old(self).entries().count(x) == entry_count(old(self).dues(), x));
            }
            assert forall|j: int| 0 <= j < self.ready().len() implies (
            #[trigger] self.ready()[j]).time < self.now() + self.tick_duration() by {
                assert(old(self).ready()[j].time < old(self).now() + old(self).tick_duration());
            }
        }
        true
    }

    /// Moves every hand on by a second and takes off the wheels what waits
    /// in the buckets of the ticks that begin; where a tick of the coarsest
    /// wheel begins, takes also what waits aside. The scheduler is in order
    /// again, with what was taken to be scheduled anew.
    fn turn_wheels(&mut self) -> (moved: Vec<Vec<ScheduleItem>>)
        requires
            old(self).queue_wf(),
            old(self).now() < u64::MAX,
        ensures
            final(self).rests() == old(self).rests(),
            final(self).queue_wf(),
            final(self).counted() == old(self).counted(),
            final(self).now() == old(self).now() + 1,
            final(self).tick_duration() == old(self).tick_duration(),
            same_shape(final(self).wheels(), old(self).wheels()),
            final(self).infos() == old(self).infos(),
            final(self).dues() == old(self).dues(),
            final(self).zone() == old(self).zone(),
            final(self).exts() == old(self).exts(),
            final(self).ready() == old(self).ready(),
            old(self).pending() == final(self).pending().add(held(rows(moved@))),
    {
        let ghost before = old(self).wheels();
        let ghost start = old(self).now();
        let n = self.wheels.len();
        let mut moved: Vec<Vec<ScheduleItem>> = Vec::new();
        let mut i: usize = 0;
        proof {
            lemma_held_empty(rows(moved@));
            assert(on_wheels(self.wheels()).add(held(rows(moved@))) =~= on_wheels(before));
        }
        while i < n
            invariant
                i <= n,
                n == self.wheels@.len(),
                n == before.len(),
                before == old(self).wheels(),
                start == old(self).now(),
                start < u64::MAX,
                wheels_in_order(before, start),
                self.current_time == old(self).current_time,
                self.max_id == old(self).max_id,
                self.jobs == old(self).jobs,
                self.tz == old(self).tz,
                self.extensions == old(self).extensions,
                self.exec_queue == old(self).exec_queue,
                self.delay_queue == old(self).delay_queue,
                forall|j: int|
                    0 <= j < i ==> (#[trigger] self.wheels()[j]).wf() && self.wheels()[j].in_order()
                        && self.wheels()[j].current_time == start + 1,
                forall|j: int| i <= j < n ==> (#[trigger] self.wheels()[j]) == before[j],
                forall|j: int|
                    0 <= j < n ==> (#[trigger] self.wheels()[j]).tick_duration
                        == before[j].tick_duration && self.wheels()[j].wheel_size
                        == before[j].wheel_size && self.wheels()[j].interval == before[j].interval,
                on_wheels(self.wheels()).add(held(rows(moved@))) == on_wheels(before),
            decreases n - i,
        {
            let ghost row = self.wheels@;
            let ghost views = self.wheels();
            let ghost gathered = held(rows(moved@));
            assert(views[i as int] == row[i as int]@);
            assert(before[i as int].wf());
            let taken = self.wheels[i].turn();
            let ghost rows_before = rows(moved@);
            moved.push(taken);
            proof {
                let wheel = self.wheels@[i as int]@;
                assert(self.wheels@.len() == row.len());
                assert(forall|j: int| 0 <= j < row.len() && j != i ==> self.wheels@[j] == row[j]);
                assert(self.wheels() =~= views.update(i as int, wheel));
                lemma_on_wheels_update(views, i as int, wheel);
                assert(rows(moved@) =~= rows_before.push(taken@));
                lemma_held_push(rows_before, taken@);
                assert forall|v: ScheduleItem|
                    on_wheels(self.wheels()).add(held(rows(moved@))).count(v) == on_wheels(
                        before,
                    ).count(v) by {
                    assert(on_wheels(self.wheels()).add(views[i as int].held()).count(v)
                        == on_wheels(views).add(wheel.held()).count(v));
                    assert(on_wheels(views).add(gathered).count(v) == on_wheels(before).count(v));
                }
                assert(on_wheels(self.wheels()).add(held(rows(moved@))) =~= on_wheels(before));
            }
            i += 1;
        }
        self.current_time = self.current_time + 1;
        let ghost turned = self.wheels();
        assert(turned[n - 1] == self.wheels@[n - 1]@);
        assert(before[n - 1].wf());
        let begins = self.current_time % self.wheels[n - 1].tick_duration() == 0;
        proof {
            assert forall|j: int| 0 < j < turned.len() implies (#[trigger] turned[j]).tick_duration
                == turned[j - 1].interval by {
                assert(before[j].tick_duration == before[j - 1].interval);
            }
            lemma_tick_step(start as int, before[n - 1].tick_duration as int);
        }
        if begins {
            let ghost aside = self.delay_queue@;
            let mut taken: Vec<ScheduleItem> = Vec::new();
            proof {
                taken@.to_multiset_ensures();
                assert(aside.to_multiset() =~= self.delay_queue@.to_multiset().add(
                    taken@.to_multiset(),
                ));
            }
            loop
                invariant
                    self.wheels() == turned,
                    self.current_time == start + 1,
                    self.max_id == old(self).max_id,
                    self.jobs == old(self).jobs,
                    self.tz == old(self).tz,
                    self.extensions == old(self).extensions,
                    self.exec_queue == old(self).exec_queue,
                    aside.to_multiset() == self.delay_queue@.to_multiset().add(
                        taken@.to_multiset(),
                    ),
                ensures
                    self.delay_queue@.len() == 0,
                decreases self.delay_queue@.len(),
            {
                let ghost left = self.delay_queue@;
                let ghost got = taken@;
                match self.delay_queue.pop_back() {
                    Some(item) => {
                        taken.push(item);
                        proof {
                            assert(left =~= self.delay_queue@.push(item));
                            to_multiset_build(self.delay_queue@, item);
                            to_multiset_build(got, item);
                            assert(aside.to_multiset() =~= self.delay_queue@.to_multiset().add(
                                taken@.to_multiset(),
                            ));
                        }
                    },
                    None => {
                        break ;
                    },
                }
            }
            let ghost rows_before = rows(moved@);
            moved.push(taken);
            proof {
                assert(rows(moved@) =~= rows_before.push(taken@));
                lemma_held_push(rows_before, taken@);
                self.delay_queue@.to_multiset_ensures();
                assert(self.delay_queue@.to_multiset() =~= Multiset::<ScheduleItem>::empty());
                assert(old(self).pending() =~= self.pending().add(held(rows(moved@))));
            }
        } else {
            proof {
                assert forall|k: int| 0 <= k < self.aside().len() implies lies_beyond(
                    turned,
                    (#[trigger] self.aside()[k]).time,
                ) by {
                    assert(lies_beyond(before, old(self).aside()[k].time));
                }
                assert(old(self).pending() =~= self.pending().add(held(rows(moved@))));
            }
        }
        assert(self.infos() =~= old(self).infos());
        assert(self.dues() =~= old(self).dues());
        moved
    }

    /// Schedules each of the entries in `moved`.
    fn schedule_all(&mut self, moved: Vec<Vec<ScheduleItem>>)
        requires
            old(self).queue_wf(),
        ensures
            final(self).rests() == old(self).rests(),
            final(self).queue_wf(),
            final(self).counted() == old(self).counted(),
            final(self).now() == old(self).now(),
            final(self).tick_duration() == old(self).tick_duration(),
            same_shape(final(self).wheels(), old(self).wheels()),
            final(self).infos() == old(self).infos(),
            final(self).dues() == old(self).dues(),
            final(self).zone() == old(self).zone(),
            final(self).exts() == old(self).exts(),
            final(self).ready_grew_from(old(self).ready()),
            final(self).entries() == old(self).entries().add(held(rows(moved@))),
            forall|k: int|
                old(self).ready().len() <= k < final(self).ready().len() ==> held(
                    rows(moved@),
                ).contains(#[trigger] final(self).ready()[k]),
    {
        let ghost source = held(rows(moved@));
        let mut moved = moved;
        let ghost all = old(self).entries().add(held(rows(moved@)));
        let ghost first = old(self).ready();
        assert(self.ready().subrange(0, first.len() as int) =~= first);
        loop
            invariant
                self.queue_wf(),
                self.counted() == old(self).counted(),
                self.now() == old(self).now(),
                self.tick_duration() == old(self).tick_duration(),
                same_shape(self.wheels(), old(self).wheels()),
                self.infos() == old(self).infos(),
                self.dues() == old(self).dues(),
                self.rests() == old(self).rests(),
                self.zone() == old(self).zone(),
                self.exts() == old(self).exts(),
                first == old(self).ready(),
                first.len() <= self.ready().len(),
                self.ready().subrange(0, first.len() as int) == first,
                forall|k: int|
                    first.len() <= k < self.ready().len() ==> (#[trigger] self.ready()[k]).time
                        < self.now() + self.tick_duration(),
                self.pending().add(self.ready().to_multiset()).add(held(rows(moved@))) == all,
                forall|x: ScheduleItem| #[trigger]
                    held(rows(moved@)).count(x) <= source.count(x),
                forall|k: int|
                    first.len() <= k < self.ready().len() ==> source.contains(
                        #[trigger] self.ready()[k],
                    ),
            ensures
                moved@.len() == 0,
            decreases moved@.len(),
        {
            let ghost rows_before = rows(moved@);
            let mut bucket = match moved.pop() {
                Some(bucket) => bucket,
                None => {
                    break ;
                },
            };
            proof {
                assert(rows(moved@) =~= rows_before.drop_last());
                assert(rows_before =~= rows(moved@).push(bucket@));
                lemma_held_push(rows(moved@), bucket@);
                assert forall|x: ScheduleItem| #[trigger]
                    held(rows(moved@)).add(bucket@.to_multiset()).count(x) <= source.count(
                        x,
                    ) by {
                    assert(held(rows_before).count(x) <= source.count(x));
                }
            }
            loop
                invariant
                    self.queue_wf(),
                    self.counted() == old(self).counted(),
                    self.now() == old(self).now(),
                    self.tick_duration() == old(self).tick_duration(),
                    same_shape(self.wheels(), old(self).wheels()),
                same_shape(self.wheels(), old(self).wheels()),
                    self.infos() == old(self).infos(),
                    self.dues() == old(self).dues(),
                    self.rests() == old(self).rests(),
                    self.zone() == old(self).zone(),
                    self.exts() == old(self).exts(),
                    first == old(self).ready(),
                    first.len() <= self.ready().len(),
                    self.ready().subrange(0, first.len() as int) == first,
                    forall|k: int|
                        first.len() <= k < self.ready().len() ==> (
                        #[trigger] self.ready()[k]).time < self.now() + self.tick_duration(),
                    self.pending().add(self.ready().to_multiset()).add(held(rows(moved@))).add(
                        bucket@.to_multiset(),
                    ) == all,
                    forall|x: ScheduleItem| #[trigger]
                        held(rows(moved@)).add(bucket@.to_multiset()).count(x) <= source.count(x),
                    forall|k: int|
                        first.len() <= k < self.ready().len() ==> source.contains(
                            #[trigger] self.ready()[k],
                        ),
                ensures
                    bucket@.len() == 0,
                decreases bucket@.len(),
            {
                let ghost left = bucket@;
                let ghost ready = self.ready();
                let ghost pending = self.pending();
                let item = match bucket.pop() {
                    Some(item) => item,
                    None => {
                        break ;
                    },
                };
                proof {
                    assert(left =~= bucket@.push(item));
                    to_multiset_build(bucket@, item);
                    assert(held(rows(moved@)).add(left.to_multiset()).count(item)
                        <= source.count(item));
                    assert(source.contains(item));
                    assert forall|x: ScheduleItem| #[trigger]
                        held(rows(moved@)).add(bucket@.to_multiset()).count(x) <= source.count(
                            x,
                        ) by {
                        assert(held(rows(moved@)).add(left.to_multiset()).count(x)
                            <= source.count(x));
                    }
                }
                self.add_to_schedule(item);
                proof {
                    to_multiset_build(ready, item);
                    assert(self.pending().add(self.ready().to_multiset()) =~= pending.add(
                        ready.to_multiset(),
                    ).insert(item));
                    assert(self.pending().add(self.ready().to_multiset()).add(
                        held(rows(moved@)),
                    ).add(bucket@.to_multiset()) =~= all);
                    assert(self.ready().subrange(0, first.len() as int) =~= first);
                }
            }
            proof {
                bucket@.to_multiset_ensures();
                assert(bucket@.to_multiset() =~= Multiset::<ScheduleItem>::empty());
                assert(self.pending().add(self.ready().to_multiset()).add(held(rows(moved@)))
                    =~= all);
                assert forall|x: ScheduleItem| #[trigger]
                    held(rows(moved@)).count(x) <= source.count(x) by {
                    assert(held(rows(moved@)).add(bucket@.to_multiset()).count(x)
                        <= source.count(x));
                }
            }
        }
        proof {
            lemma_held_empty(rows(moved@));
            assert(self.pending().add(self.ready().to_multiset()) =~= all);
        }
    }

    /// Moves the hands on by a second.
    ///
    /// What waited in the buckets that the hands come to is scheduled anew,
    /// and with it what waited aside where the coarsest wheel has come to a
    /// new tick. Nothing is lost and nothing made up. What becomes ready is
    /// due at the new instant or within the finest tick from it, never
    /// before, and is queued behind what was ready before; what still waits
    /// is due later than the new instant.
    pub fn tick(&mut self)
        requires
            old(self).wf(),
            old(self).now() < u64::MAX,
        ensures
            final(self).rests() == old(self).rests(),
            final(self).wf(),
            final(self).now() == old(self).now() + 1,
            final(self).tick_duration() == old(self).tick_duration(),
            same_shape(final(self).wheels(), old(self).wheels()),
            final(self).infos() == old(self).infos(),
            final(self).zone() == old(self).zone(),
            final(self).exts() == old(self).exts(),
            final(self).dues() == old(self).dues(),
            final(self).ready_grew_from(old(self).ready()),
            final(self).entries() == old(self).entries(),
            forall|k: int|
                old(self).ready().len() <= k < final(self).ready().len() ==> old(self).now() < (
                #[trigger] final(self).ready()[k]).time,
            hands_are_clear(final(self).wheels()),
            old(self).tick_duration() == 1 ==> final(self).finest_hand_bucket().len() == 0,
            forall|x: ScheduleItem|
                old(self).pending().contains(x) && x.time <= final(self).now()
                    ==> final(self).ready().contains(x),
    {
        let moved = self.turn_wheels();
        let ghost source = held(rows(moved@));
        let ghost turned = self.pending();
        self.schedule_all(moved);
        proof {
            self.lemma_hands_are_clear();
            assert(self.entries() =~= old(self).entries());
            assert forall|x: ScheduleItem|
                old(self).pending().contains(x) && x.time <= self.now() implies self.ready().contains(
                x,
            ) by {
                assert(old(self).entries().contains(x));
                if self.pending().contains(x) {
                    self.lemma_pending_is_ahead(x);
                }
                self.ready().to_multiset_ensures();
            }
            assert forall|k: int|
                old(self).ready().len() <= k < self.ready().len() implies old(self).now() < (
            #[trigger] self.ready()[k]).time by {
                let x = self.ready()[k];
                assert(source.contains(x));
                assert(old(self).pending() == turned.add(source));
                assert(old(self).pending().contains(x));
                old(self).lemma_pending_is_ahead(x);
            }
            let first = old(self).ready();
            assert forall|k: int| 0 <= k < self.ready().len() implies (
            #[trigger] self.ready()[k]).time < self.now() + self.tick_duration() by {
                if k < first.len() {
                    assert(self.ready()[k] == self.ready().subrange(0, first.len() as int)[k]);
                    assert(first[k].time < old(self).now() + old(self).tick_duration());
                }
            }
        }
    }
}

/// On chained wheels in order no tick is shorter than that of the finest
/// wheel.
proof fn lemma_finest_tick_is_least(wheels: Seq<WheelView>, now: u64, j: int)
    requires
        wheels_in_order(wheels, now),
        0 <= j < wheels.len(),
    ensures
        wheels[0].tick_duration <= wheels[j].tick_duration,
    decreases j,
{
    if j > 0 {
        lemma_finest_tick_is_least(wheels, now, j - 1);
        let below = wheels[j - 1];
        assert(below.wf());
        assert(wheels[j].tick_duration == below.interval);
        assert(below.wheel_size * below.tick_duration >= below.tick_duration) by (nonlinear_arith)
            requires
                below.wheel_size >= 1,
        ;
    }
}

} // verus!
