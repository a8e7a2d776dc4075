use easy_timer::extensions::TypeKey;
use easy_timer::interval::{Interval, TimeUnits};
use easy_timer::job::{BaseJob, BaseJobBuilder, JobBuilder, JobId, JobSchedule, SyncJob};
use easy_timer::scheduler::heap_scheduler::{Dispatch, HeapScheduler};
use easy_timer::scheduler::item::ScheduleItem;
use easy_timer::zone::Zone;

type Scheduler = HeapScheduler<SyncJob<u32>, i64>;

fn jobs_of(b: &mut BaseJobBuilder, f: u32) -> Vec<SyncJob<u32>> {
    b.run_sync(f).iter().map(|j| j.with_tz(Zone::utc())).collect()
}

/// A job with a schedule written by hand, which the grammar may reject.
fn job_with(cron: &str, f: u32) -> SyncJob<u32> {
    let schedule = JobSchedule {
        since: (None, None),
        delay: 0,
        cron: cron.to_string(),
        is_async: false,
        repeat: 1,
        interval: 1,
    };
    SyncJob { tz: Zone::utc(), f, info: BaseJob::new(schedule) }
}

fn fire(id: usize, time: u64, wait: u64) -> Dispatch {
    Dispatch::Fire { item: ScheduleItem { id: JobId(id), time }, wait }
}

#[test]
fn scheduler_without_jobs_is_idle() {
    let mut s = Scheduler::with_tz(Zone::utc());
    assert_eq!(s.job_count(), 0);
    assert_eq!(s.get_tz().east_seconds(), 0);
    assert_eq!(s.next_action(0), Dispatch::Idle);
    assert_eq!(s.reschedule(JobId(1), 0), None);
    assert!(!s.cancel(JobId(1)));
    assert!(s.job(JobId(0)).is_none());
    let local = Scheduler::new();
    assert_eq!(local.job_count(), 0);
}

#[test]
fn ids_are_dense_from_one() {
    let mut s = Scheduler::with_tz(Zone::utc());
    let mut b = BaseJobBuilder::new();
    for expected in 1..=5usize {
        let job = jobs_of(b.every(10.seconds()), expected as u32).remove(0);
        assert_eq!(s.try_add_job(job, 0), Some(JobId(expected)));
        assert_eq!(s.job(JobId(expected)).unwrap().f, expected as u32);
        assert_eq!(s.job(JobId(expected)).unwrap().info.id, JobId(expected));
    }
    assert_eq!(s.job_count(), 5);
    assert!(s.job(JobId(6)).is_none());
}

#[test]
fn a_schedule_that_the_grammar_rejects_is_not_registered() {
    let mut s = Scheduler::with_tz(Zone::utc());
    let bad = job_with("0 0 99 * * * *", 0);
    assert_eq!(s.try_add_job(bad, 0), None);
    assert_eq!(s.job_count(), 0);
    assert_eq!(s.next_action(1_000_000), Dispatch::Idle);
}

#[test]
fn single_job_fires_at_its_instant() {
    let mut s = Scheduler::with_tz(Zone::utc());
    let mut b = BaseJobBuilder::new();
    let job = jobs_of(b.at_time(0, 0, 10), 0).remove(0);
    let id = s.try_add_job(job, 0).unwrap();
    assert_eq!(s.job(id).unwrap().info.current_time, 10);
    // Seen four seconds before its instant, it fires after four seconds.
    assert_eq!(s.next_action(6), fire(1, 10, 4));
    assert_eq!(s.next_action(6), Dispatch::Idle);
    // When the wait is over it is put back, due a day later.
    assert_eq!(s.reschedule(id, 10), Some(ScheduleItem { id, time: 86_410 }));
    assert_eq!(s.reschedule(id, 10), None);
    // Seen late, it fires at once.
    assert_eq!(s.next_action(90_000), fire(1, 86_410, 0));
}

#[test]
fn jobs_fire_in_order_of_their_instants() {
    let mut s = Scheduler::with_tz(Zone::utc());
    let mut b = BaseJobBuilder::new();
    for (n, sec) in [50u32, 20, 40, 10, 30].into_iter().enumerate() {
        let job = jobs_of(b.at_time(0, 0, sec), n as u32).remove(0);
        s.try_add_job(job, 0).unwrap();
    }
    let mut order = Vec::new();
    loop {
        match s.next_action(0) {
            Dispatch::Fire { item, wait } => {
                assert_eq!(wait, item.time);
                order.push((item.time, item.id.0));
            }
            Dispatch::Idle => break,
            Dispatch::Evict(_) => panic!("no job was cancelled"),
        }
    }
    assert_eq!(order, vec![(10, 4), (20, 2), (30, 5), (40, 3), (50, 1)]);
}

#[test]
fn jobs_of_one_instant_fire_by_id() {
    let mut s = Scheduler::with_tz(Zone::utc());
    let mut b = BaseJobBuilder::new();
    for n in 0..4u32 {
        let job = jobs_of(b.every(10.seconds()), n).remove(0);
        s.try_add_job(job, 0).unwrap();
    }
    for id in 1..=4 {
        assert_eq!(s.next_action(10), fire(id, 10, 0));
    }
    assert_eq!(s.next_action(10), Dispatch::Idle);
}

#[test]
fn cancelled_job_is_evicted_and_stays_out() {
    let mut s = Scheduler::with_tz(Zone::utc());
    let mut b = BaseJobBuilder::new();
    let first = jobs_of(b.every(10.seconds()), 0).remove(0);
    let second = jobs_of(b.every(15.seconds()), 0).remove(0);
    let a = s.try_add_job(first, 0).unwrap();
    let c = s.try_add_job(second, 0).unwrap();
    assert!(s.cancel(a));
    assert!(s.job(a).unwrap().info.cancel);
    assert!(!s.job(c).unwrap().info.cancel);
    assert_eq!(s.next_action(10), Dispatch::Evict(ScheduleItem { id: a, time: 10 }));
    assert_eq!(s.reschedule(a, 10), None);
    assert_eq!(s.next_action(15), fire(2, 15, 0));
    assert_eq!(s.reschedule(c, 15), Some(ScheduleItem { id: c, time: 30 }));
    assert_eq!(s.reschedule(a, 15), None);
    assert_eq!(s.next_action(30), fire(2, 30, 0));
    assert_eq!(s.next_action(30), Dispatch::Idle);
}

#[test]
fn job_cancelled_in_flight_is_not_put_back() {
    let mut s = Scheduler::with_tz(Zone::utc());
    let mut b = BaseJobBuilder::new();
    let job = jobs_of(b.every(10.seconds()), 0).remove(0);
    let id = s.try_add_job(job, 0).unwrap();
    assert_eq!(s.next_action(10), fire(1, 10, 0));
    assert!(s.cancel(id));
    assert_eq!(s.reschedule(id, 10), None);
    assert_eq!(s.next_action(1000), Dispatch::Idle);
}

#[test]
fn a_job_has_one_entry_at_a_time() {
    let mut s = Scheduler::with_tz(Zone::utc());
    let mut b = BaseJobBuilder::new();
    let job = jobs_of(b.every(10.seconds()), 0).remove(0);
    let id = s.try_add_job(job, 0).unwrap();
    // The job is due already: putting it back again changes nothing.
    assert_eq!(s.reschedule(id, 0), None);
    assert_eq!(s.reschedule(id, 50), None);
    assert_eq!(s.next_action(10), fire(1, 10, 0));
    assert_eq!(s.next_action(10), Dispatch::Idle);
}

#[test]
fn multi_schedule_job_fires_for_each_schedule() {
    let mut s = Scheduler::with_tz(Zone::utc());
    let mut b = BaseJobBuilder::new();
    b.every(Interval::Thursday).at_time(8, 0, 0).and().every(Interval::Wednesday).at_time(
        20, 45, 30,
    );
    for job in jobs_of(&mut b, 7) {
        s.try_add_job(job, 0).unwrap();
    }
    assert_eq!(s.job_count(), 2);
    let week = 7 * 86_400;
    let thursday = 8 * 3600;
    let wednesday = 6 * 86_400 + 20 * 3600 + 45 * 60 + 30;
    let mut fired = Vec::new();
    let mut now = 0;
    while fired.len() < 4 {
        match s.next_action(now) {
            Dispatch::Fire { item, wait } => {
                now += wait;
                assert_eq!(now, item.time);
                fired.push(item.time);
                s.reschedule(item.id, now).unwrap();
            }
            other => panic!("unexpected {:?}", other),
        }
    }
    assert_eq!(fired, vec![thursday, wednesday, week + thursday, week + wednesday]);
}

#[test]
fn every_ten_seconds_load() {
    let mut s = Scheduler::with_tz(Zone::utc());
    let mut b = BaseJobBuilder::new();
    let job = jobs_of(b.every(10.seconds()), 1).remove(0);
    let count = 200_000usize;
    for _ in 0..count {
        s.try_add_job(job.box_clone(), 0).unwrap();
    }
    assert_eq!(s.job_count(), count);
    let mut counter = 0u64;
    let mut last = 0;
    loop {
        match s.next_action(10) {
            Dispatch::Fire { item, wait } => {
                assert_eq!((item.time, wait), (10, 0));
                assert!(item.id.0 > last);
                last = item.id.0;
                counter += s.job(item.id).unwrap().f as u64;
            }
            Dispatch::Idle => break,
            Dispatch::Evict(_) => panic!("no job was cancelled"),
        }
    }
    assert_eq!(counter, 200_000);
}

#[test]
fn extensions_are_kept_by_the_scheduler() {
    let mut s = Scheduler::with_tz(Zone::utc());
    let key = TypeKey::of(1, "i64");
    s.add_ext(key, -4);
    s.add_ext(TypeKey::of(2, "other"), 9);
    assert_eq!(*s.extensions().get_data(&key).get_ref(), -4);
    s.add_ext(key, 5);
    assert_eq!(*s.extensions().get_data(&key).get_ref(), 5);
    assert_eq!(*s.extensions().get_data(&TypeKey::of(2, "other")).get_ref(), 9);
}

#[test]
fn add_registers_jobs_in_their_order() {
    let mut s = Scheduler::with_tz(Zone::utc());
    let mut b = BaseJobBuilder::new();
    let jobs = vec![
        jobs_of(b.every(30.seconds()), 1).remove(0),
        jobs_of(b.every(20.seconds()), 2).remove(0),
        jobs_of(b.every(10.seconds()), 3).remove(0),
    ];
    s.add(jobs, 0).add(Vec::new(), 0);
    assert_eq!(s.job_count(), 3);
    assert_eq!(s.job(JobId(1)).unwrap().f, 1);
    assert_eq!(s.job(JobId(2)).unwrap().f, 2);
    assert_eq!(s.job(JobId(3)).unwrap().f, 3);
    assert_eq!(s.next_action(0), fire(3, 10, 10));
    assert_eq!(s.next_action(0), fire(2, 20, 20));
    assert_eq!(s.next_action(0), fire(1, 30, 30));
    assert_eq!(s.next_action(0), Dispatch::Idle);
}

#[test]
fn try_add_registers_all_or_none() {
    let mut s = Scheduler::with_tz(Zone::utc());
    let mixed = vec![
        job_with("*/30 * * * * * *", 1),
        job_with("0 61 * * * * *", 2),
        job_with("*/10 * * * * * *", 3),
    ];
    assert!(!s.try_add(mixed, 0));
    assert_eq!(s.job_count(), 0);
    assert_eq!(s.next_action(0), Dispatch::Idle);
    let good = vec![job_with("*/30 * * * * * *", 1), job_with("*/10 * * * * * *", 3)];
    assert!(s.try_add(good, 0));
    assert!(s.try_add(Vec::new(), 0));
    assert_eq!(s.job_count(), 2);
    assert_eq!(s.job(JobId(2)).unwrap().f, 3);
    assert_eq!(s.next_action(0), fire(2, 10, 10));
    assert_eq!(s.next_action(0), fire(1, 30, 30));
}

#[test]
fn registered_jobs_keep_their_handlers() {
    let mut s = Scheduler::with_tz(Zone::utc());
    let a = s.try_add_job(job_with("*/10 * * * * * *", 41), 0).unwrap();
    let c = s.try_add_job(job_with("*/15 * * * * * *", 42), 0).unwrap();
    assert_eq!(s.next_action(10), fire(1, 10, 0));
    s.reschedule(a, 10);
    assert!(s.cancel(c));
    s.add_ext(TypeKey::of(1, "i64"), 3);
    assert_eq!(s.next_action(15), Dispatch::Evict(ScheduleItem { id: c, time: 15 }));
    assert_eq!(s.job(a).unwrap().f, 41);
    assert_eq!(s.job(c).unwrap().f, 42);
    assert_eq!(s.job(a).unwrap().tz.east_seconds(), 0);
}

#[test]
fn add_syncbuilder_registers_each_schedule() {
    let mut s = Scheduler::with_tz(Zone::east(3600).unwrap());
    let mut b = BaseJobBuilder::new();
    let builders = b.at_time(1, 0, 0).and().at_time(0, 30, 0).run_sync(9);
    assert_eq!(builders.len(), 2);
    s.add_syncbuilder(builders, 0);
    assert_eq!(s.job_count(), 2);
    assert_eq!(s.job(JobId(1)).unwrap().tz.east_seconds(), 3600);
    assert_eq!(s.job(JobId(1)).unwrap().f, 9);
    assert_eq!(s.job(JobId(2)).unwrap().info.jobschedule.cron, "0 30 0 * * * *");
    // An hour east of UTC the epoch is 01:00:00: half past midnight comes
    // first, the next day.
    assert_eq!(s.next_action(0), fire(2, 86_400 - 1800, 86_400 - 1800));
    assert_eq!(s.next_action(0), fire(1, 86_400, 86_400));
}

#[test]
fn add_asyncbuilder_registers_each_schedule() {
    let mut s: HeapScheduler<easy_timer::job::AsyncJob<u32>, i64> =
        HeapScheduler::with_tz(Zone::utc());
    let mut b = BaseJobBuilder::new();
    s.add_asyncbuilder(b.every(20.seconds()).and().every(5.seconds()).run_async(4), 100);
    assert_eq!(s.job_count(), 2);
    assert_eq!(s.next_action(100), fire(2, 105, 5));
    assert_eq!(s.next_action(100), fire(1, 120, 20));
}

#[test]
fn try_add_builders_registers_all_or_none() {
    let mut s = Scheduler::with_tz(Zone::utc());
    let mut b = BaseJobBuilder::new();
    let mut builders = b.every(20.seconds()).and().every(5.seconds()).run_sync(4);
    builders[1].info.jobschedule.cron = "5 * *".to_string();
    assert!(!s.try_add_syncbuilder(builders, 0));
    assert_eq!(s.job_count(), 0);
    let builders = b.every(20.seconds()).and().every(5.seconds()).run_sync(4);
    assert!(s.try_add_syncbuilder(builders, 0));
    assert_eq!(s.job_count(), 2);
    let mut t: HeapScheduler<easy_timer::job::AsyncJob<u32>, i64> =
        HeapScheduler::with_tz(Zone::utc());
    let mut builders = b.every(20.seconds()).run_async(4);
    builders[0].info.jobschedule.cron = String::new();
    assert!(!t.try_add_asyncbuilder(builders, 0));
    assert!(t.try_add_asyncbuilder(b.every(20.seconds()).run_async(4), 0));
    assert_eq!(t.job_count(), 1);
}
