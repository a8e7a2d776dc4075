//! Jobs whose handler gives up the thread while it waits.

use crate::calendar::MAX_INSTANT;
use crate::job::base_job::BaseJob;
use crate::job::Job;
use crate::scheduler::item::ScheduleJobItem;
use crate::zone::Zone;
use vstd::prelude::*;

verus! {

/// A job whose handler gives up the thread while it waits, before it knows its zone.
pub struct AsyncJobBuilder<F> {
    pub f: F,
    pub info: BaseJob,
}

/// A job whose handler gives up the thread while it waits.
pub struct AsyncJob<F> {
    pub tz: Zone,
    pub f: F,
    pub info: BaseJob,
}

impl<F: Copy> AsyncJobBuilder<F> {
    /// The job, with its schedule reckoned in `tz`.
    pub fn with_tz(&self, tz: Zone) -> (job: AsyncJob<F>)
        ensures
            job.tz == tz,
            job.f == self.f,
            job.info == self.info,
    {
        AsyncJob { tz, f: self.f, info: self.info.clone() }
    }
}

impl<F: Copy> AsyncJob<F> {
    /// A copy of the job.
    pub fn box_clone(&self) -> (copy: Self)
        ensures
            copy.tz == self.tz,
            copy.f == self.f,
            copy.info == self.info,
    {
        AsyncJob { tz: self.tz, f: self.f, info: self.info.clone() }
    }

    /// The next firing of the job after `now`, reckoned in the zone of the
    /// job, as an entry that carries a copy of the job as it then is.
    ///
    /// A job whose schedule the cron grammar does not accept has no next
    /// firing, and stays as it is.
    pub fn next_job(&mut self, now: u64) -> (item: Option<ScheduleJobItem<Self>>)
        requires
            now <= MAX_INSTANT,
        ensures
            final(self).tz == old(self).tz,
            final(self).f == old(self).f,
            !old(self).info.jobschedule.valid() ==> item is None && final(self).info == old(
                self,
            ).info,
            old(self).info.jobschedule.valid() ==> {
                &&& final(self).info == old(self).info.noted(now, old(self).tz.offset())
                &&& item is Some <==> old(self).info.upcoming(now, old(self).tz.offset()) is Some
            },
            item matches Some(entry) ==> {
                &&& Some(entry.time) == old(self).info.due_after(now, old(self).tz.offset())
                &&& entry.time > now
                &&& entry.job.tz == final(self).tz
                &&& entry.job.f == final(self).f
                &&& entry.job.info == final(self).info
            },
    {
        if !self.info.jobschedule.is_valid() {
            return None;
        }
        let tz = self.tz;
        match self.info.next(now, tz) {
            Some(found) => Some(ScheduleJobItem { time: found.time, job: self.box_clone() }),
            None => None,
        }
    }
}

impl<F> Job for AsyncJob<F> {
    type Rest = (Zone, F);

    open spec fn info(&self) -> BaseJob {
        self.info
    }

    open spec fn rest(&self) -> (Zone, F) {
        (self.tz, self.f)
    }

    fn base(&self) -> (info: &BaseJob) {
        &self.info
    }

    fn base_mut(&mut self) -> (info: &mut BaseJob) {
        &mut self.info
    }
}

} // verus!
