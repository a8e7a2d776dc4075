//! Jobs: their identity, their schedules and how they fire.

pub mod async_job;
pub mod base_job;
pub mod firing;
pub mod jobschedule;
pub mod sync_job;

pub use self::async_job::{AsyncJob, AsyncJobBuilder};
pub use self::base_job::{BaseJob, BaseJobBuilder};
use self::firing::{FiringTask, FiringView};
use self::jobschedule::{since_target, wait_until, BuilderView, ScheduleView, SinceGate};
pub use self::jobschedule::{JobSchedule, JobScheduleBuilder};
pub use self::sync_job::{SyncJob, SyncJobBuilder};
use crate::calendar::MAX_INSTANT;
use crate::interval::{Interval, TimeUnits};
use crate::scheduler::item::ScheduleItem;
use crate::zone::Zone;
use vstd::prelude::*;

verus! {

/// The identity of a job: dense, assigned in order of registration.
#[derive(Clone, Copy, Debug, PartialEq, Eq, PartialOrd, Ord, Hash, Structural)]
pub struct JobId(pub usize);

/// What a firing of `schedule` goes by when it begins at `now` in the zone
/// `east` seconds east of UTC.
pub open spec fn firing_at(schedule: ScheduleView, now: u64, east: i32) -> FiringView {
    FiringView {
        delay: schedule.delay,
        gate: match wait_until(since_target(schedule.since, now, east), now) {
            Some(w) => w as u64,
            None => 0,
        },
        repeat: schedule.repeat,
        interval: schedule.interval,
        concurrent: schedule.is_async,
    }
}

/// A job as the scheduler sees it: its own state, with the schedule in it.
/// The handler is the business of the one who runs the firing.
pub trait Job {
    /// What a job is besides its own state: its handler, and whatever else
    /// goes with it.
    type Rest;

    /// The job's own state.
    spec fn info(&self) -> BaseJob;

    /// What the job is besides its own state. Nothing that the scheduler
    /// does to a job changes it.
    spec fn rest(&self) -> Self::Rest;

    /// The job's own state.
    fn base(&self) -> (info: &BaseJob)
        ensures
            *info == self.info(),
    ;

    /// The job's own state, to be written to.
    fn base_mut(&mut self) -> (info: &mut BaseJob)
        ensures
            *info == old(self).info(),
            final(self).info() == *final(info),
            final(self).rest() == old(self).rest(),
    ;

    /// The next firing of the job after `now`, reckoned in `tz`, which the
    /// job takes note of.
    fn next(&mut self, now: u64, tz: Zone) -> (item: Option<ScheduleItem>)
        requires
            !old(self).info().cancel ==> old(self).info().jobschedule.valid(),
            !old(self).info().cancel ==> now <= MAX_INSTANT,
        ensures
            item == old(self).info().upcoming(now, tz.offset()),
            item matches Some(i) ==> i.time > now,
            final(self).info() == (BaseJob {
                current_time: match item {
                    Some(i) => i.time,
                    None => old(self).info().current_time,
                },
                ..old(self).info()
            }),
            final(self).rest() == old(self).rest(),
    {
        self.base_mut().next(now, tz)
    }

    /// The identity of the job.
    fn get_id(&self) -> (id: JobId)
        ensures
            id == self.info().id,
    {
        self.base().id
    }

    /// Gives the job its identity.
    fn set_id(&mut self, id: JobId)
        ensures
            final(self).info() == (BaseJob { id, ..old(self).info() }),
            final(self).rest() == old(self).rest(),
    {
        let info = self.base_mut();
        info.id = id;
    }

    /// Cancels the job: it has no next firing from now on.
    fn cancel(&mut self)
        ensures
            final(self).info() == (BaseJob { cancel: true, ..old(self).info() }),
            final(self).rest() == old(self).rest(),
    {
        let info = self.base_mut();
        info.cancel = true;
    }

    /// The firing of the job that begins at `now`: it waits out the delay
    /// of the schedule, then what is left of its since-gate as reckoned in
    /// `tz`, then runs the burst.
    fn firing(&self, now: u64, tz: Zone) -> (task: FiringTask)
        requires
            now <= MAX_INSTANT,
        ensures
            task@ == firing_at(self.info().jobschedule@, now, tz.offset()),
            task.taken() == 0,
    {
        let info = self.base();
        let wait = info.jobschedule.get_since_delay_sec(now, tz);
        FiringTask::new(&info.jobschedule, wait)
    }
}

/// The builder after `at` for each component that is given, from the
/// coarsest to the finest: year, month, day, hour, minute, second.
pub open spec fn at_components(
    b: BuilderView,
    year: Option<i32>,
    month: Option<u32>,
    day: Option<u32>,
    hour: Option<u32>,
    min: Option<u32>,
    sec: Option<u32>,
) -> BuilderView {
    let b = match year {
        Some(x) => b.at(Interval::Years(x as u32)),
        None => b,
    };
    let b = match month {
        Some(x) => b.at(Interval::Months(x)),
        None => b,
    };
    let b = match day {
        Some(x) => b.at(Interval::Days(x)),
        None => b,
    };
    let b = match hour {
        Some(x) => b.at(Interval::Hours(x)),
        None => b,
    };
    let b = match min {
        Some(x) => b.at(Interval::Minutes(x)),
        None => b,
    };
    match sec {
        Some(x) => b.at(Interval::Seconds(x)),
        None => b,
    }
}

/// Whether each component that is given lies in the domain of its unit.
pub open spec fn components_in_domain(
    year: Option<i32>,
    month: Option<u32>,
    day: Option<u32>,
    hour: Option<u32>,
    min: Option<u32>,
    sec: Option<u32>,
) -> bool {
    &&& year matches Some(x) ==> 0 <= x <= 2100
    &&& month matches Some(x) ==> x <= 12
    &&& day matches Some(x) ==> x <= 31
    &&& hour matches Some(x) ==> x < 24
    &&& min matches Some(x) ==> x < 60
    &&& sec matches Some(x) ==> x < 60
}

/// The fluent surface on which a job's schedules are written.
///
/// A builder holds the schedule under construction and the schedules
/// finished so far; `and` finishes the one and starts another.
pub trait JobBuilder: Sized {
    /// Whether the builder is in order inside.
    spec fn wf(&self) -> bool;

    /// The schedule under construction.
    spec fn builder(&self) -> BuilderView;

    /// The schedules finished so far, in the order in which they were.
    spec fn schedules(&self) -> Seq<ScheduleView>;

    /// A builder with nothing written and nothing finished.
    fn new() -> (b: Self)
        ensures
            b.wf(),
            b.builder() == BuilderView::fresh(),
            b.schedules() == Seq::<ScheduleView>::empty(),
    ;

    /// Finishes the schedule under construction: it is compiled and put
    /// behind those finished before, and a fresh one is started. The
    /// expression that the schedule compiles to is one that the cron
    /// grammar accepts.
    fn and(&mut self) -> (r: &mut Self)
        requires
            old(self).wf(),
            old(self).builder().accepted(),
        ensures
            r.wf(),
            r.schedules() == old(self).schedules().push(old(self).builder().compiled()),
            r.builder() == BuilderView::fresh(),
            *final(self) == *final(r),
    ;

    /// Finishes the schedule under construction, as `and` does, where the
    /// cron grammar accepts the expression that it compiles to; where it
    /// does not, nothing is finished and the builder stays as it is.
    fn try_and(&mut self) -> (done: bool)
        requires
            old(self).wf(),
        ensures
            final(self).wf(),
            done == old(self).builder().accepted(),
            done ==> final(self).schedules() == old(self).schedules().push(
                old(self).builder().compiled(),
            ) && final(self).builder() == BuilderView::fresh(),
            !done ==> final(self).schedules() == old(self).schedules() && final(self).builder()
                == old(self).builder(),
    {
        let accepted = self.get_mut_cron_builder().is_accepted();
        if accepted {
            self.and();
        }
        accepted
    }

    /// Each firing runs `n` invocations one after the other, `interval`
    /// apart.
    fn repeat_seq(&mut self, n: u32, interval: Interval) -> (r: &mut Self)
        requires
            old(self).wf(),
            interval.reducible(),
        ensures
            r.wf(),
            r.builder() == (BuilderView {
                repeat: n,
                interval: interval.seconds_spec() as u64,
                is_async: false,
                ..old(self).builder()
            }),
            r.schedules() == old(self).schedules(),
            *final(self) == *final(r),
    ;

    /// Each firing starts `n` invocations that run side by side, `interval`
    /// apart.
    fn repeat_async(&mut self, n: u32, interval: Interval) -> (r: &mut Self)
        requires
            old(self).wf(),
            interval.reducible(),
        ensures
            r.wf(),
            r.builder() == (BuilderView {
                repeat: n,
                interval: interval.seconds_spec() as u64,
                is_async: true,
                ..old(self).builder()
            }),
            r.schedules() == old(self).schedules(),
            *final(self) == *final(r),
    ;

    /// The schedule under construction, to be written to. What is written
    /// must leave it with its seven fields.
    fn get_mut_cron_builder(&mut self) -> (r: &mut JobScheduleBuilder)
        requires
            old(self).wf(),
        ensures
            r.wf(),
            r@ == old(self).builder(),
            final(r).wf() ==> final(self).wf(),
            final(r).wf() ==> final(self).builder() == final(r)@,
            final(r).wf() ==> final(self).schedules() == old(self).schedules(),
    ;

    /// The since-gate of the schedule under construction, to be written to.
    fn get_mut_since(&mut self) -> (r: &mut SinceGate)
        requires
            old(self).wf(),
        ensures
            *r == old(self).builder().since,
            final(self).wf(),
            final(self).builder() == (BuilderView { since: *final(r), ..old(self).builder() }),
            final(self).schedules() == old(self).schedules(),
    ;

    /// Runs at the given point of its unit.
    fn at(&mut self, interval: Interval) -> (r: &mut Self)
        requires
            old(self).wf(),
        ensures
            r.wf(),
            r.builder() == old(self).builder().at(interval),
            r.schedules() == old(self).schedules(),
            *final(self) == *final(r),
    {
        self.get_mut_cron_builder().at(interval);
        self
    }

    /// Runs at `start` and at every multiple of `interval` after it.
    fn since_every(&mut self, start: Interval, interval: Interval) -> (r: &mut Self)
        requires
            old(self).wf(),
            jobschedule::same_unit(start, interval),
        ensures
            r.wf(),
            r.builder() == old(self).builder().since_every(start, interval),
            r.schedules() == old(self).schedules(),
            *final(self) == *final(r),
    {
        self.get_mut_cron_builder().since_every(start, interval);
        self
    }

    /// Runs at every multiple of a numeric interval, or on a day of the
    /// week, or on every working day.
    fn every(&mut self, interval: Interval) -> (r: &mut Self)
        requires
            old(self).wf(),
        ensures
            r.wf(),
            r.builder() == old(self).builder().every(interval),
            r.schedules() == old(self).schedules(),
            *final(self) == *final(r),
    {
        self.get_mut_cron_builder().every(interval);
        self
    }

    /// Runs at every point from `start` to `end`.
    fn from_to(&mut self, start: Interval, end: Interval) -> (r: &mut Self)
        requires
            old(self).wf(),
            jobschedule::same_unit(start, end),
        ensures
            r.wf(),
            r.builder() == old(self).builder().from_to(start, end),
            r.schedules() == old(self).schedules(),
            *final(self) == *final(r),
    {
        self.get_mut_cron_builder().from_to(start, end);
        self
    }

    /// Runs at the given components of a date and time: `at` for each that
    /// is given, from the year down to the second.
    fn at_datetime(
        &mut self,
        year: Option<i32>,
        month: Option<u32>,
        day: Option<u32>,
        hour: Option<u32>,
        min: Option<u32>,
        sec: Option<u32>,
    ) -> (r: &mut Self)
        requires
            old(self).wf(),
            components_in_domain(year, month, day, hour, min, sec),
        ensures
            r.wf(),
            r.builder() == at_components(old(self).builder(), year, month, day, hour, min, sec),
            r.schedules() == old(self).schedules(),
            *final(self) == *final(r),
    {
        if let Some(x) = year {
            self.at((x as u32).year());
        }
        if let Some(x) = month {
            self.at(x.month());
        }
        if let Some(x) = day {
            self.at(x.day());
        }
        if let Some(x) = hour {
            self.at(x.hour());
        }
        if let Some(x) = min {
            self.at(x.minute());
        }
        if let Some(x) = sec {
            self.at(x.second());
        }
        self
    }

    /// Runs at the given time of day.
    fn at_time(&mut self, hour: u32, min: u32, sec: u32) -> (r: &mut Self)
        requires
            old(self).wf(),
            hour < 24,
            min < 60,
            sec < 60,
        ensures
            r.wf(),
            r.builder() == old(self).builder().at(Interval::Hours(hour)).at(
                Interval::Minutes(min),
            ).at(Interval::Seconds(sec)),
            r.schedules() == old(self).schedules(),
            *final(self) == *final(r),
    {
        self.at_datetime(None, None, None, Some(hour), Some(min), Some(sec));
        self
    }

    /// Runs on the given date.
    fn at_date(&mut self, year: i32, month: u32, day: u32) -> (r: &mut Self)
        requires
            old(self).wf(),
            0 <= year <= 2100,
            month <= 12,
            day <= 31,
        ensures
            r.wf(),
            r.builder() == old(self).builder().at(Interval::Years(year as u32)).at(
                Interval::Months(month),
            ).at(Interval::Days(day)),
            r.schedules() == old(self).schedules(),
            *final(self) == *final(r),
    {
        self.at_datetime(Some(year), Some(month), Some(day), None, None, None);
        self
    }

    /// Holds the job back until the given date and time.
    fn since_datetime(
        &mut self,
        year: i32,
        month: u32,
        day: u32,
        hour: u32,
        min: u32,
        sec: u32,
    ) -> (r: &mut Self)
        requires
            old(self).wf(),
        ensures
            r.wf(),
            r.builder() == (BuilderView {
                since: (Some((year, month, day)), Some((hour, min, sec))),
                ..old(self).builder()
            }),
            r.schedules() == old(self).schedules(),
            *final(self) == *final(r),
    {
        let since = self.get_mut_since();
        *since = (Some((year, month, day)), Some((hour, min, sec)));
        self
    }

    /// Holds the job back until the given date; the time of the since-gate stays.
    fn since_date(&mut self, year: i32, month: u32, day: u32) -> (r: &mut Self)
        requires
            old(self).wf(),
        ensures
            r.wf(),
            r.builder() == (BuilderView {
                since: (Some((year, month, day)), old(self).builder().since.1),
                ..old(self).builder()
            }),
            r.schedules() == old(self).schedules(),
            *final(self) == *final(r),
    {
        let since = self.get_mut_since();
        since.0 = Some((year, month, day));
        self
    }

    /// Holds the job back until the given time of day; the date of the since-gate
    /// stays.
    fn since_time(&mut self, hour: u32, min: u32, sec: u32) -> (r: &mut Self)
        requires
            old(self).wf(),
        ensures
            r.wf(),
            r.builder() == (BuilderView {
                since: (old(self).builder().since.0, Some((hour, min, sec))),
                ..old(self).builder()
            }),
            r.schedules() == old(self).schedules(),
            *final(self) == *final(r),
    {
        let since = self.get_mut_since();
        since.1 = Some((hour, min, sec));
        self
    }

    /// Waits `delay` seconds more at each firing.
    fn after(&mut self, delay: u64) -> (r: &mut Self)
        requires
            old(self).wf(),
            old(self).builder().delay + delay <= u64::MAX,
        ensures
            r.wf(),
            r.builder() == old(self).builder().delayed(delay),
            r.schedules() == old(self).schedules(),
            *final(self) == *final(r),
    {
        self.get_mut_cron_builder().delay(delay);
        self
    }
}

} // verus!
