//! What one firing of a job does, step by step: it waits out the delay and
//! the since-gate, then runs the burst of invocations.

use crate::job::jobschedule::JobSchedule;
use vstd::prelude::*;

verus! {

/// One step of a firing.
#[derive(Clone, Copy, Debug, PartialEq, Eq, Structural)]
pub enum FiringStep {
    /// Wait this many seconds.
    Sleep(u64),
    /// Call the handler. Where `concurrent` holds the call is started and
    /// not waited for; else the firing goes on when the call has returned.
    Invoke { concurrent: bool },
    /// The firing is over.
    Done,
}

/// What a firing goes by: the numbers of its schedule and the wait that
/// the since-gate asks for at the instant of the firing.
pub struct FiringView {
    /// Seconds to wait first.
    pub delay: u64,
    /// Seconds that the since-gate holds the firing back, 0 for none.
    pub gate: u64,
    /// The number of invocations.
    pub repeat: u32,
    /// Seconds between two invocations.
    pub interval: u64,
    /// Whether the invocations run side by side.
    pub concurrent: bool,
}

/// The seconds that a step waits.
pub open spec fn pause_of(step: FiringStep) -> nat {
    match step {
        FiringStep::Sleep(secs) => secs as nat,
        _ => 0,
    }
}

/// The seconds that a run of steps waits in all.
pub open spec fn slept(steps: Seq<FiringStep>) -> nat
    decreases steps.len(),
{
    if steps.len() == 0 {
        0
    } else {
        slept(steps.drop_last()) + pause_of(steps.last())
    }
}

/// The number of invocations in a run of steps.
pub open spec fn invocations(steps: Seq<FiringStep>) -> nat
    decreases steps.len(),
{
    if steps.len() == 0 {
        0
    } else {
        invocations(steps.drop_last()) + if steps.last() is Invoke {
            1nat
        } else {
            0nat
        }
    }
}

impl FiringView {
    /// The waits before the burst: the delay, then the since-gate, each only
    /// where it is more than nothing.
    pub open spec fn waits(self) -> Seq<FiringStep> {
        (if self.delay > 0 {
            seq![FiringStep::Sleep(self.delay)]
        } else {
            Seq::empty()
        }) + (if self.gate > 0 {
            seq![FiringStep::Sleep(self.gate)]
        } else {
            Seq::empty()
        })
    }

    /// The number of steps in the burst.
    pub open spec fn burst_len(self) -> nat {
        if self.repeat == 0 {
            0
        } else if self.interval > 0 {
            (2 * self.repeat - 1) as nat
        } else {
            self.repeat as nat
        }
    }

    /// The burst: `repeat` invocations, and between each two of them a wait
    /// of `interval` seconds where that is more than nothing.
    pub open spec fn burst(self) -> Seq<FiringStep> {
        Seq::new(
            self.burst_len(),
            |j: int|
                if self.interval > 0 && j % 2 == 1 {
                    FiringStep::Sleep(self.interval)
                } else {
                    FiringStep::Invoke { concurrent: self.concurrent }
                },
        )
    }

    /// The steps of the firing, in order.
    pub open spec fn plan(self) -> Seq<FiringStep> {
        self.waits() + self.burst()
    }

    /// The firing with another number of invocations.
    pub open spec fn with_repeat(self, repeat: u32) -> FiringView {
        FiringView { repeat, ..self }
    }
}

/// A firing under way: its plan, and how far it has come.
pub struct FiringTask {
    delay: u64,
    gate: u64,
    repeat: u32,
    interval: u64,
    concurrent: bool,
    position: u64,
}

impl View for FiringTask {
    type V = FiringView;

    closed spec fn view(&self) -> FiringView {
        FiringView {
            delay: self.delay,
            gate: self.gate,
            repeat: self.repeat,
            interval: self.interval,
            concurrent: self.concurrent,
        }
    }
}

impl FiringTask {
    /// The number of steps taken.
    pub closed spec fn taken(&self) -> nat {
        self.position as nat
    }

    /// Whether every step of the plan was taken.
    pub open spec fn finished(&self) -> bool {
        self.taken() >= self@.plan().len()
    }

    /// The step that is due: the next of the plan, and `Done` when the plan
    /// is through.
    pub open spec fn due(&self) -> FiringStep {
        if self.finished() {
            FiringStep::Done
        } else {
            self@.plan()[self.taken() as int]
        }
    }

    #[verifier::type_invariant]
    spec fn within_plan(self) -> bool {
        self.position <= self@.plan().len()
    }

    /// A firing of `schedule` that has not begun. `since_wait` is what the
    /// since-gate of the schedule asks for at the instant of the firing.
    pub fn new(schedule: &JobSchedule, since_wait: Option<i64>) -> (task: Self)
        ensures
            task@ == (FiringView {
                delay: schedule.delay,
                gate: match since_wait {
                    Some(w) => if w > 0 {
                        w as u64
                    } else {
                        0
                    },
                    None => 0,
                },
                repeat: schedule.repeat,
                interval: schedule.interval,
                concurrent: schedule.is_async,
            }),
            task.taken() == 0,
    {
        let gate: u64 = match since_wait {
            Some(w) => if w > 0 {
                w as u64
            } else {
                0
            },
            None => 0,
        };
        FiringTask {
            delay: schedule.delay,
            gate,
            repeat: schedule.repeat,
            interval: schedule.interval,
            concurrent: schedule.is_async,
            position: 0,
        }
    }

    /// The next step of the firing: the steps of the plan in their order,
    /// and `Done` from then on.
    pub fn step(&mut self) -> (step: FiringStep)
        ensures
            final(self)@ == old(self)@,
            step == old(self).due(),
            final(self).taken() == (if old(self).finished() {
                old(self).taken()
            } else {
                old(self).taken() + 1
            }),
    {
        proof {
            use_type_invariant(&*self);
        }
        let ghost view = self@;
        let lead: u64 = if self.delay > 0 { 1 } else { 0 } + if self.gate > 0 { 1 } else { 0 };
        assert(lead == view.waits().len());
        if self.position < lead {
            let step = if self.position == 0 && self.delay > 0 {
                FiringStep::Sleep(self.delay)
            } else {
                FiringStep::Sleep(self.gate)
            };
            self.position = self.position + 1;
            return step;
        }
        let j = self.position - lead;
        let burst: u64 = if self.repeat == 0 {
            0
        } else if self.interval > 0 {
            2 * (self.repeat as u64) - 1
        } else {
            self.repeat as u64
        };
        assert(burst == view.burst_len());
        if j >= burst {
            return FiringStep::Done;
        }
        assert(view.plan()[self.position as int] == view.burst()[j as int]);
        self.position = self.position + 1;
        if self.interval > 0 && j % 2 == 1 {
            FiringStep::Sleep(self.interval)
        } else {
            FiringStep::Invoke { concurrent: self.concurrent }
        }
    }
}

/// A single step waits what it waits, and counts as an invocation where it
/// is one.
pub proof fn lemma_one_step(step: FiringStep)
    ensures
        slept(seq![step]) == pause_of(step),
        invocations(seq![step]) == (if step is Invoke {
            1nat
        } else {
            0nat
        }),
{
    reveal_with_fuel(slept, 2);
    reveal_with_fuel(invocations, 2);
    assert(seq![step].drop_last() =~= Seq::empty());
}

/// The seconds waited add up over two runs of steps put together.
pub proof fn lemma_slept_add(a: Seq<FiringStep>, b: Seq<FiringStep>)
    ensures
        slept(a + b) == slept(a) + slept(b),
    decreases b.len(),
{
    if b.len() == 0 {
        assert(a + b =~= a);
    } else {
        assert((a + b).drop_last() =~= a + b.drop_last());
        lemma_slept_add(a, b.drop_last());
    }
}

/// The invocations add up over two runs of steps put together.
pub proof fn lemma_invocations_add(a: Seq<FiringStep>, b: Seq<FiringStep>)
    ensures
        invocations(a + b) == invocations(a) + invocations(b),
    decreases b.len(),
{
    if b.len() == 0 {
        assert(a + b =~= a);
    } else {
        assert((a + b).drop_last() =~= a + b.drop_last());
        lemma_invocations_add(a, b.drop_last());
    }
}

/// A burst of one invocation more is the burst, then the wait between two
/// invocations, then the invocation.
pub proof fn lemma_burst_grows(f: FiringView)
    requires
        1 <= f.repeat < u32::MAX,
    ensures
        f.interval > 0 ==> f.with_repeat((f.repeat + 1) as u32).burst() == f.burst() + seq![
            FiringStep::Sleep(f.interval),
            FiringStep::Invoke { concurrent: f.concurrent },
        ],
        f.interval == 0 ==> f.with_repeat((f.repeat + 1) as u32).burst() == f.burst() + seq![
            FiringStep::Invoke { concurrent: f.concurrent },
        ],
{
    let g = f.with_repeat((f.repeat + 1) as u32);
    if f.interval > 0 {
        assert(g.burst() =~= f.burst() + seq![
            FiringStep::Sleep(f.interval),
            FiringStep::Invoke { concurrent: f.concurrent },
        ]);
    } else {
        assert(g.burst() =~= f.burst() + seq![FiringStep::Invoke { concurrent: f.concurrent }]);
    }
}

/// A burst holds as many invocations as the schedule asks for, and the
/// waits in it come to the interval for each invocation but the first.
pub proof fn lemma_burst_totals(f: FiringView)
    ensures
        invocations(f.burst()) == f.repeat,
        f.repeat >= 1 ==> slept(f.burst()) == (f.repeat - 1) * f.interval,
        f.repeat == 0 ==> slept(f.burst()) == 0,
    decreases f.repeat,
{
    if f.repeat == 0 {
        assert(f.burst() =~= Seq::empty());
    } else if f.repeat == 1 {
        let invoke = FiringStep::Invoke { concurrent: f.concurrent };
        assert(f.burst() =~= seq![invoke]);
        lemma_one_step(invoke);
        assert((f.repeat - 1) * f.interval == 0) by (nonlinear_arith)
            requires
                f.repeat == 1,
        ;
    } else {
        let e = f.with_repeat((f.repeat - 1) as u32);
        lemma_burst_totals(e);
        lemma_burst_grows(e);
        assert(e.with_repeat(f.repeat) == f);
        let invoke = FiringStep::Invoke { concurrent: f.concurrent };
        let tail = if f.interval > 0 {
            seq![FiringStep::Sleep(f.interval), invoke]
        } else {
            seq![invoke]
        };
        assert(f.burst() == e.burst() + tail);
        lemma_slept_add(e.burst(), tail);
        lemma_invocations_add(e.burst(), tail);
        lemma_one_step(invoke);
        if f.interval > 0 {
            let pause = FiringStep::Sleep(f.interval);
            lemma_one_step(pause);
            assert(tail =~= seq![pause] + seq![invoke]);
            lemma_slept_add(seq![pause], seq![invoke]);
            lemma_invocations_add(seq![pause], seq![invoke]);
        }
        let k = f.repeat as int;
        let d = f.interval as int;
        let before = slept(e.burst()) as int;
        assert(before + d == (k - 1) * d) by (nonlinear_arith)
            requires
                before == (k - 1 - 1) * d,
        ;
    }
}

/// A firing calls the handler as often as the schedule asks for, and waits
/// in all for the delay, for the since-gate, and for the interval once for
/// each invocation but the first.
pub proof fn lemma_plan_totals(f: FiringView)
    ensures
        invocations(f.plan()) == f.repeat,
        f.repeat >= 1 ==> slept(f.plan()) == f.delay + f.gate + (f.repeat - 1) * f.interval,
        f.repeat == 0 ==> slept(f.plan()) == f.delay + f.gate,
{
    lemma_burst_totals(f);
    lemma_slept_add(f.waits(), f.burst());
    lemma_invocations_add(f.waits(), f.burst());
    let delay = FiringStep::Sleep(f.delay);
    let gate = FiringStep::Sleep(f.gate);
    lemma_one_step(delay);
    lemma_one_step(gate);
    let first = if f.delay > 0 {
        seq![delay]
    } else {
        Seq::empty()
    };
    let second = if f.gate > 0 {
        seq![gate]
    } else {
        Seq::empty()
    };
    lemma_slept_add(first, second);
    lemma_invocations_add(first, second);
    assert(slept(Seq::<FiringStep>::empty()) == 0);
    assert(invocations(Seq::<FiringStep>::empty()) == 0);
}

/// A run of steps waits at least as long as any one of its steps.
pub proof fn lemma_slept_covers(steps: Seq<FiringStep>, i: int)
    requires
        0 <= i < steps.len(),
    ensures
        slept(steps) >= pause_of(steps[i]),
    decreases steps.len(),
{
    if i < steps.len() - 1 {
        lemma_slept_covers(steps.drop_last(), i);
    }
}

/// A part of a run of steps waits no longer than the whole.
pub proof fn lemma_slept_part(steps: Seq<FiringStep>, from: int, to: int)
    requires
        0 <= from <= to <= steps.len(),
    ensures
        slept(steps.subrange(from, to)) <= slept(steps),
{
    let a = steps.subrange(0, from);
    let b = steps.subrange(from, to);
    let c = steps.subrange(to, steps.len() as int);
    assert(steps =~= (a + b) + c);
    lemma_slept_add(a + b, c);
    lemma_slept_add(a, b);
}

/// Within a burst, from one invocation to any later one the firing waits
/// at least the interval: no two invocations start closer together.
pub proof fn lemma_invocations_apart(f: FiringView, i: int, j: int)
    requires
        0 <= i < j < f.burst().len(),
        f.burst()[i] is Invoke,
        f.burst()[j] is Invoke,
    ensures
        slept(f.burst().subrange(i, j)) >= f.interval,
{
    if f.interval > 0 {
        let between = f.burst().subrange(i, j);
        assert(i % 2 == 0 && j % 2 == 0);
        assert(between[1] == FiringStep::Sleep(f.interval));
        lemma_slept_covers(between, 1);
    }
}

/// Every invocation of a burst starts within the interval times the
/// number of invocations but one, counted from the start of the burst.
pub proof fn lemma_invocations_within(f: FiringView, i: int)
    requires
        0 <= i < f.burst().len(),
    ensures
        f.repeat >= 1,
        slept(f.burst().subrange(0, i)) <= (f.repeat - 1) * f.interval,
{
    lemma_slept_part(f.burst(), 0, i);
    lemma_burst_totals(f);
}

} // verus!
