//! A job's own state, and the builder that jobs are written with.

use crate::calendar::{cron_next_after, cron_upcoming, MAX_INSTANT};
use crate::interval::Interval;
use crate::job::jobschedule::{BuilderView, JobSchedule, JobScheduleBuilder, ScheduleView, SinceGate};
use crate::job::async_job::AsyncJobBuilder;
use crate::job::sync_job::SyncJobBuilder;
use crate::job::{JobBuilder, JobId};
use crate::scheduler::item::ScheduleItem;
use crate::zone::Zone;
use vstd::prelude::*;

verus! {

/// What the scheduler keeps of a job: its identity, whether it was
/// cancelled, its schedule and the instant of its latest firing.
#[derive(Debug)]
pub struct BaseJob {
    pub id: JobId,
    pub cancel: bool,
    pub jobschedule: JobSchedule,
    pub current_time: u64,
}

impl Clone for BaseJob {
    fn clone(&self) -> (copy: Self)
        ensures
            copy == *self,
    {
        BaseJob {
            id: self.id,
            cancel: self.cancel,
            jobschedule: self.jobschedule.clone(),
            current_time: self.current_time,
        }
    }
}

impl BaseJob {
    /// The next firing of the job after `now`, reckoned in the zone `east`
    /// seconds east of UTC: none for a cancelled job, else the instant that
    /// is found next for its schedule, where one is found.
    pub open spec fn upcoming(&self, now: u64, east: i32) -> Option<ScheduleItem> {
        if self.cancel {
            None
        } else {
            match cron_upcoming(self.jobschedule.cron@, now, east) {
                Some(t) => Some(ScheduleItem { id: self.id, time: t }),
                None => None,
            }
        }
    }

    /// The instant at which the job is next due after `now`.
    pub open spec fn due_after(&self, now: u64, east: i32) -> Option<u64> {
        match self.upcoming(now, east) {
            Some(item) => Some(item.time),
            None => None,
        }
    }

    /// The job after it took note of its next firing after `now`.
    pub open spec fn noted(&self, now: u64, east: i32) -> BaseJob {
        BaseJob {
            current_time: match self.upcoming(now, east) {
                Some(item) => item.time,
                None => self.current_time,
            },
            ..*self
        }
    }

    /// A job with the given schedule, not cancelled and not yet fired; the
    /// scheduler gives it its identity.
    pub fn new(jobschedule: JobSchedule) -> (job: Self)
        ensures
            job.id == JobId(0),
            !job.cancel,
            job.jobschedule == jobschedule,
            job.current_time == 0,
    {
        BaseJob { id: JobId(0), cancel: false, jobschedule, current_time: 0 }
    }

    /// The firing that the job last took note of.
    pub fn current(&mut self) -> (item: Option<ScheduleItem>)
        ensures
            item == Some(ScheduleItem { id: old(self).id, time: old(self).current_time }),
            *final(self) == *old(self),
    {
        Some(ScheduleItem { id: self.id, time: self.current_time })
    }

    /// Takes note of the next instant of the schedule: a cancelled job has
    /// no next firing and notes nothing; any other job notes the instant,
    /// where there is one, and is due at it.
    pub fn note(&mut self, instant: Option<u64>) -> (item: Option<ScheduleItem>)
        ensures
            item == (if old(self).cancel {
                None
            } else {
                match instant {
                    Some(t) => Some(ScheduleItem { id: old(self).id, time: t }),
                    None => None,
                }
            }),
            *final(self) == (BaseJob {
                current_time: match item {
                    Some(i) => i.time,
                    None => old(self).current_time,
                },
                ..*old(self)
            }),
    {
        if self.cancel {
            return None;
        }
        match instant {
            Some(t) => {
                self.current_time = t;
                Some(ScheduleItem { id: self.id, time: t })
            },
            None => None,
        }
    }

    /// The next firing of the job after `now`, which the job takes note of.
    /// A cancelled job has none, whatever its schedule and the instant.
    pub fn next(&mut self, now: u64, tz: Zone) -> (item: Option<ScheduleItem>)
        requires
            !old(self).cancel ==> old(self).jobschedule.valid(),
            !old(self).cancel ==> now <= MAX_INSTANT,
        ensures
            item == old(self).upcoming(now, tz.offset()),
            item matches Some(i) ==> i.time > now,
            *final(self) == (BaseJob {
                current_time: match item {
                    Some(i) => i.time,
                    None => old(self).current_time,
                },
                ..*old(self)
            }),
    {
        if self.cancel {
            return None;
        }
        let instant = cron_next_after(self.jobschedule.cron.as_str(), now, tz.east_seconds());
        self.note(instant)
    }
}

/// The builder that jobs are written with.
pub struct BaseJobBuilder {
    jobschedules: Option<Vec<JobSchedule>>,
    builder: JobScheduleBuilder,
}

/// The views of a list of schedules.
pub open spec fn schedule_views(list: Seq<JobSchedule>) -> Seq<ScheduleView> {
    Seq::new(list.len(), |i: int| list[i]@)
}

/// Whether `info` is a job as `BaseJob::new` makes it, with the schedule
/// `schedule`.
pub open spec fn is_new_job(info: BaseJob, schedule: ScheduleView) -> bool {
    &&& info.id == JobId(0)
    &&& !info.cancel
    &&& info.current_time == 0
    &&& info.jobschedule@ == schedule
}

impl BaseJobBuilder {
    /// Finishes the schedule under construction and hands the finished
    /// schedules out, leaving none behind.
    fn take_schedules(&mut self) -> (list: Vec<JobSchedule>)
        requires
            old(self).wf(),
            old(self).builder().accepted(),
        ensures
            forall|i: int| 0 <= i < list@.len() ==> (#[trigger] list@[i]).valid(),
            final(self).wf(),
            final(self).builder() == BuilderView::fresh(),
            final(self).schedules() == Seq::<ScheduleView>::empty(),
            schedule_views(list@) == old(self).schedules().push(old(self).builder().compiled()),
    {
        self.and();
        match self.jobschedules.take() {
            Some(list) => list,
            None => Vec::new(),
        }
    }

    /// Finishes the builder as `run_sync` does where the cron grammar
    /// accepts the expression of the schedule under construction; where it
    /// does not, there are no jobs, and the builder stays as it is.
    pub fn try_run_sync<F: Copy>(&mut self, f: F) -> (jobs: Option<Vec<SyncJobBuilder<F>>>)
        requires
            old(self).wf(),
        ensures
            final(self).wf(),
            jobs is Some <==> old(self).builder().accepted(),
            jobs is None ==> final(self).builder() == old(self).builder(),
            jobs is None ==> final(self).schedules() == old(self).schedules(),
            jobs matches Some(list) ==> {
                &&& final(self).builder() == BuilderView::fresh()
                &&& final(self).schedules() == Seq::<ScheduleView>::empty()
                &&& list@.len() == old(self).schedules().len() + 1
                &&& forall|i: int|
                    0 <= i < list@.len() ==> (#[trigger] list@[i]).f == f && is_new_job(
                        list@[i].info,
                        old(self).schedules().push(old(self).builder().compiled())[i],
                    ) && list@[i].info.jobschedule.valid()
            },
    {
        if self.builder.is_accepted() {
            Some(self.run_sync(f))
        } else {
            None
        }
    }

    /// Finishes the builder: the schedule under construction is finished
    /// as by `and`, and each finished schedule becomes a job of its own with
    /// the blocking handler `f`. The builder is left empty. The
    /// expression of the schedule under construction is one that the cron
    /// grammar accepts.
    pub fn run_sync<F: Copy>(&mut self, f: F) -> (jobs: Vec<SyncJobBuilder<F>>)
        requires
            old(self).wf(),
            old(self).builder().accepted(),
        ensures
            forall|i: int|
                0 <= i < jobs@.len() ==> (#[trigger] jobs@[i]).info.jobschedule.valid(),
            final(self).wf(),
            final(self).builder() == BuilderView::fresh(),
            final(self).schedules() == Seq::<ScheduleView>::empty(),
            jobs@.len() == old(self).schedules().len() + 1,
            forall|i: int|
                0 <= i < jobs@.len() ==> (#[trigger] jobs@[i]).f == f && is_new_job(
                    jobs@[i].info,
                    old(self).schedules().push(old(self).builder().compiled())[i],
                ),
    {
        let list = self.take_schedules();
        let ghost all = old(self).schedules().push(old(self).builder().compiled());
        let mut jobs: Vec<SyncJobBuilder<F>> = Vec::new();
        let mut i: usize = 0;
        while i < list.len()
            invariant
                i <= list@.len(),
                jobs@.len() == i,
                schedule_views(list@) == all,
                all == old(self).schedules().push(old(self).builder().compiled()),
                forall|j: int| 0 <= j < list@.len() ==> (#[trigger] list@[j]).valid(),
                forall|j: int|
                    0 <= j < i ==> (#[trigger] jobs@[j]).f == f && is_new_job(jobs@[j].info, all[j])
                        && jobs@[j].info.jobschedule.valid(),
            decreases list@.len() - i,
        {
            assert(schedule_views(list@)[i as int] == list@[i as int]@);
            jobs.push(SyncJobBuilder { f, info: BaseJob::new(list[i].clone()) });
            i += 1;
        }
        assert(schedule_views(list@).len() == list@.len());
        jobs
    }

    /// Finishes the builder as `run_async` does where the cron grammar
    /// accepts the expression of the schedule under construction; where it
    /// does not, there are no jobs, and the builder stays as it is.
    pub fn try_run_async<F: Copy>(&mut self, f: F) -> (jobs: Option<Vec<AsyncJobBuilder<F>>>)
        requires
            old(self).wf(),
        ensures
            final(self).wf(),
            jobs is Some <==> old(self).builder().accepted(),
            jobs is None ==> final(self).builder() == old(self).builder(),
            jobs is None ==> final(self).schedules() == old(self).schedules(),
            jobs matches Some(list) ==> {
                &&& final(self).builder() == BuilderView::fresh()
                &&& final(self).schedules() == Seq::<ScheduleView>::empty()
                &&& list@.len() == old(self).schedules().len() + 1
                &&& forall|i: int|
                    0 <= i < list@.len() ==> (#[trigger] list@[i]).f == f && is_new_job(
                        list@[i].info,
                        old(self).schedules().push(old(self).builder().compiled())[i],
                    ) && list@[i].info.jobschedule.valid()
            },
    {
        if self.builder.is_accepted() {
            Some(self.run_async(f))
        } else {
            None
        }
    }

    /// Finishes the builder: the schedule under construction is finished
    /// as by `and`, and each finished schedule becomes a job of its own with
    /// the suspending handler `f`. The builder is left empty. The
    /// expression of the schedule under construction is one that the cron
    /// grammar accepts.
    pub fn run_async<F: Copy>(&mut self, f: F) -> (jobs: Vec<AsyncJobBuilder<F>>)
        requires
            old(self).wf(),
            old(self).builder().accepted(),
        ensures
            forall|i: int|
                0 <= i < jobs@.len() ==> (#[trigger] jobs@[i]).info.jobschedule.valid(),
            final(self).wf(),
            final(self).builder() == BuilderView::fresh(),
            final(self).schedules() == Seq::<ScheduleView>::empty(),
            jobs@.len() == old(self).schedules().len() + 1,
            forall|i: int|
                0 <= i < jobs@.len() ==> (#[trigger] jobs@[i]).f == f && is_new_job(
                    jobs@[i].info,
                    old(self).schedules().push(old(self).builder().compiled())[i],
                ),
    {
        let list = self.take_schedules();
        let ghost all = old(self).schedules().push(old(self).builder().compiled());
        let mut jobs: Vec<AsyncJobBuilder<F>> = Vec::new();
        let mut i: usize = 0;
        while i < list.len()
            invariant
                i <= list@.len(),
                jobs@.len() == i,
                schedule_views(list@) == all,
                all == old(self).schedules().push(old(self).builder().compiled()),
                forall|j: int| 0 <= j < list@.len() ==> (#[trigger] list@[j]).valid(),
                forall|j: int|
                    0 <= j < i ==> (#[trigger] jobs@[j]).f == f && is_new_job(jobs@[j].info, all[j])
                        && jobs@[j].info.jobschedule.valid(),
            decreases list@.len() - i,
        {
            assert(schedule_views(list@)[i as int] == list@[i as int]@);
            jobs.push(AsyncJobBuilder { f, info: BaseJob::new(list[i].clone()) });
            i += 1;
        }
        assert(schedule_views(list@).len() == list@.len());
        jobs
    }
}

impl JobBuilder for BaseJobBuilder {
    closed spec fn wf(&self) -> bool {
        &&& self.builder.wf()
        &&& self.jobschedules matches Some(list) ==> forall|i: int|
            0 <= i < list@.len() ==> (#[trigger] list@[i]).valid()
    }

    closed spec fn builder(&self) -> BuilderView {
        self.builder@
    }

    closed spec fn schedules(&self) -> Seq<ScheduleView> {
        match self.jobschedules {
            Some(list) => schedule_views(list@),
            None => Seq::empty(),
        }
    }

    fn new() -> (b: Self) {
        Self { builder: JobScheduleBuilder::new(), jobschedules: None }
    }

    fn and(&mut self) -> (r: &mut Self) {
        let schedule = self.builder.build();
        let mut list = match self.jobschedules.take() {
            Some(list) => list,
            None => Vec::new(),
        };
        let ghost before = list@;
        list.push(schedule);
        assert(schedule_views(list@) =~= schedule_views(before).push(schedule@));
        self.jobschedules = Some(list);
        self.builder = JobScheduleBuilder::new();
        self
    }

    fn repeat_seq(&mut self, n: u32, interval: Interval) -> (r: &mut Self) {
        self.builder.is_async = false;
        self.builder.repeat = n;
        self.builder.interval = interval.to_sec();
        self
    }

    fn repeat_async(&mut self, n: u32, interval: Interval) -> (r: &mut Self) {
        self.builder.is_async = true;
        self.builder.repeat = n;
        self.builder.interval = interval.to_sec();
        self
    }

    fn get_mut_cron_builder(&mut self) -> (r: &mut JobScheduleBuilder) {
        &mut self.builder
    }

    fn get_mut_since(&mut self) -> (r: &mut SinceGate) {
        &mut self.builder.since
    }
}

} // verus!
