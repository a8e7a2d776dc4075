use easy_timer::interval::{Interval, TimeUnits};
use easy_timer::job::firing::FiringStep::Sleep;
use easy_timer::job::firing::{FiringStep, FiringTask};
use easy_timer::job::{BaseJobBuilder, Job, JobBuilder, JobSchedule};
use easy_timer::zone::Zone;

fn schedule(delay: u64, repeat: u32, interval: u64, is_async: bool) -> JobSchedule {
    JobSchedule {
        since: (None, None),
        delay,
        cron: "* * * * * * *".to_string(),
        is_async,
        repeat,
        interval,
    }
}

fn steps(mut task: FiringTask) -> Vec<FiringStep> {
    let mut out = Vec::new();
    loop {
        match task.step() {
            FiringStep::Done => break,
            step => out.push(step),
        }
    }
    assert_eq!(task.step(), FiringStep::Done);
    assert_eq!(task.step(), FiringStep::Done);
    out
}

const RUN: FiringStep = FiringStep::Invoke { concurrent: false };
const SPAWN: FiringStep = FiringStep::Invoke { concurrent: true };

#[test]
fn single_invocation() {
    assert_eq!(steps(FiringTask::new(&schedule(0, 1, 1, false), None)), vec![RUN]);
    assert_eq!(steps(FiringTask::new(&schedule(0, 1, 0, true), None)), vec![SPAWN]);
}

#[test]
fn delay_and_since_wait_come_first() {
    assert_eq!(steps(FiringTask::new(&schedule(4, 1, 1, false), None)), vec![Sleep(4), RUN]);
    assert_eq!(steps(FiringTask::new(&schedule(0, 1, 1, false), Some(9))), vec![Sleep(9), RUN]);
    assert_eq!(
        steps(FiringTask::new(&schedule(4, 2, 3, false), Some(9))),
        vec![Sleep(4), Sleep(9), RUN, Sleep(3), RUN]
    );
    assert_eq!(steps(FiringTask::new(&schedule(0, 1, 1, false), Some(0))), vec![RUN]);
    assert_eq!(steps(FiringTask::new(&schedule(0, 1, 1, false), Some(-3))), vec![RUN]);
}

#[test]
fn sequential_burst() {
    let plan = steps(FiringTask::new(&schedule(0, 3, 1, false), None));
    assert_eq!(plan, vec![RUN, Sleep(1), RUN, Sleep(1), RUN]);
}

#[test]
fn concurrent_burst() {
    let plan = steps(FiringTask::new(&schedule(0, 3, 5, true), None));
    assert_eq!(plan, vec![SPAWN, Sleep(5), SPAWN, Sleep(5), SPAWN]);
    let slept: u64 = plan
        .iter()
        .map(|s| match s {
            Sleep(d) => *d,
            _ => 0,
        })
        .sum();
    assert_eq!(slept, (3 - 1) * 5);
}

#[test]
fn burst_without_interval_has_no_waits() {
    assert_eq!(steps(FiringTask::new(&schedule(0, 4, 0, false), None)), vec![RUN, RUN, RUN, RUN]);
}

#[test]
fn burst_of_none_does_nothing() {
    assert_eq!(steps(FiringTask::new(&schedule(0, 0, 5, false), None)), vec![]);
    assert_eq!(
        steps(FiringTask::new(&schedule(2, 0, 5, false), None)),
        vec![Sleep(2)]
    );
}

#[test]
fn long_burst_counts_out() {
    let plan = steps(FiringTask::new(&schedule(0, 1000, 7, false), None));
    assert_eq!(plan.len(), 1999);
    assert_eq!(plan.iter().filter(|s| **s == RUN).count(), 1000);
    assert_eq!(plan.iter().filter(|s| **s == Sleep(7)).count(), 999);
    for (i, s) in plan.iter().enumerate() {
        assert_eq!(*s == RUN, i % 2 == 0);
    }
}

#[test]
fn monday_sequential_repeat_burst() {
    let mut b = BaseJobBuilder::new();
    let jobs = b.every(Interval::Monday).repeat_seq(3, 1.seconds()).run_sync(());
    let mut job = jobs[0].with_tz(Zone::utc());
    assert!(job.info.jobschedule.is_valid());
    // The first Monday after the epoch is 1970-01-05.
    let fire = job.next(0, Zone::utc()).unwrap().time;
    assert_eq!(fire, 4 * 86_400);
    assert_eq!(steps(job.firing(fire, Zone::utc())), vec![RUN, Sleep(1), RUN, Sleep(1), RUN]);
}

#[test]
fn saturday_concurrent_repeat_burst() {
    let mut b = BaseJobBuilder::new();
    let jobs =
        b.every(Interval::Saturday).at_time(14, 13, 0).repeat_async(3, 5.seconds()).run_async(());
    let mut job = jobs[0].with_tz(Zone::utc());
    assert!(job.info.jobschedule.is_valid());
    let fire = job.next(0, Zone::utc()).unwrap().time;
    assert_eq!(fire, 2 * 86_400 + 14 * 3600 + 13 * 60);
    assert_eq!(
        steps(job.firing(fire, Zone::utc())),
        vec![SPAWN, Sleep(5), SPAWN, Sleep(5), SPAWN]
    );
}

#[test]
fn firing_waits_out_what_is_left_of_the_since_time() {
    let mut b = BaseJobBuilder::new();
    let jobs = b.every(10.seconds()).since_time(0, 1, 0).after(2).run_sync(());
    let job = jobs[0].with_tz(Zone::utc());
    assert_eq!(steps(job.firing(10, Zone::utc())), vec![Sleep(2), Sleep(50), RUN]);
    assert_eq!(steps(job.firing(60, Zone::utc())), vec![Sleep(2), RUN]);
    assert_eq!(steps(job.firing(70, Zone::utc())), vec![Sleep(2), RUN]);
}
