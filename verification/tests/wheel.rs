use easy_timer::interval::{Interval, TimeUnits};
use easy_timer::job::{BaseJobBuilder, JobBuilder, JobId, SyncJob};
use easy_timer::scheduler::heap_scheduler::Dispatch;
use easy_timer::scheduler::item::ScheduleItem;
use easy_timer::scheduler::timing_wheel_scheduler::{Buckets, TimingWheel, TimingWheelScheduler};
use easy_timer::zone::Zone;

type Scheduler = TimingWheelScheduler<SyncJob<u32>, i64>;

fn item(id: usize, time: u64) -> ScheduleItem {
    ScheduleItem { id: JobId(id), time }
}

fn job(b: &mut BaseJobBuilder, f: u32) -> SyncJob<u32> {
    b.run_sync(f).remove(0).with_tz(Zone::utc())
}

/// Ticks until something is ready or `limit` is reached, and hands out what
/// fires at the first instant at which anything does.
fn run_to_next(s: &mut Scheduler, limit: u64) -> Vec<(u64, usize, u64)> {
    let mut fired = Vec::new();
    while s.current_time() < limit {
        s.tick();
        loop {
            match s.next_action() {
                Dispatch::Fire { item, wait } => fired.push((item.time, item.id.0, wait)),
                Dispatch::Evict(_) => {}
                Dispatch::Idle => break,
            }
        }
        if !fired.is_empty() {
            break;
        }
    }
    fired
}

#[test]
fn ring_of_buckets() {
    let mut ring = Buckets::new(4);
    assert_eq!(ring.len(), 4);
    for b in 0..4 {
        assert!(ring.take(b).is_empty());
    }
    ring.push(2, item(1, 10));
    ring.push(2, item(2, 11));
    ring.push(0, item(3, 12));
    assert_eq!(ring.take(2), vec![item(1, 10), item(2, 11)]);
    assert!(ring.take(2).is_empty());
    assert_eq!(ring.take(0), vec![item(3, 12)]);
    assert_eq!(Buckets::new(0).len(), 0);
}

#[test]
fn wheel_knows_its_ticks() {
    let mut wheel = TimingWheel::new(60, 60, 120);
    assert_eq!(wheel.tick_duration(), 60);
    assert_eq!(wheel.interval(), 3600);
    assert!(!wheel.fits(120));
    assert!(!wheel.fits(179));
    assert!(wheel.fits(180));
    assert!(wheel.fits(3719));
    assert!(!wheel.fits(3720));
    assert!(!wheel.fits(0));
    assert_eq!(wheel.bucket_index(0), 0);
    assert_eq!(wheel.bucket_index(59), 0);
    assert_eq!(wheel.bucket_index(60), 1);
    assert_eq!(wheel.bucket_index(3599), 59);
    assert_eq!(wheel.bucket_index(3600), 0);
    assert_eq!(wheel.hand(), 2);
    assert_eq!(wheel.current_time(), 120);
    assert_eq!(wheel.wheel_size(), 60);
    assert_eq!(wheel.counts(), vec![0; 60]);
    assert!(wheel.advance_to(180));
    assert_eq!(wheel.hand(), 3);
    assert!(!wheel.advance_to(181));
    assert_eq!(wheel.hand(), 3);
    assert!(wheel.advance_to(0));
    assert!(wheel.fits(60));
}

#[test]
fn wheel_hands_out_the_bucket_of_the_tick_that_begins() {
    let mut wheel = TimingWheel::new(4, 10, 5);
    wheel.put(item(1, 15));
    wheel.put(item(2, 27));
    wheel.put(item(3, 19));
    wheel.put(item(4, 44));
    assert_eq!(wheel.counts(), vec![1, 2, 1, 0]);
    let mut out = Vec::new();
    for now in 6..=50u64 {
        let taken = wheel.turn();
        if now % 10 != 0 {
            assert!(taken.is_empty());
        }
        for e in taken {
            assert!(now <= e.time && e.time < now + 10);
            out.push((now, e.id.0));
        }
    }
    assert_eq!(out, vec![(10, 1), (10, 3), (20, 2), (40, 4)]);
}

#[test]
fn default_wheels_are_a_day() {
    let s = Scheduler::new(1_700_000_000);
    assert_eq!(s.current_time(), 1_700_000_000);
    assert_eq!(s.job_count(), 0);
    let east = s.get_tz().east_seconds();
    assert!(-86_400 < east && east < 86_400);
    assert_eq!(s.get_layer(&item(1, 1_700_000_000)), None);
    assert_eq!(s.get_layer(&item(1, 1_699_999_999)), None);
    assert_eq!(s.get_layer(&item(1, 1_700_000_001)), Some((0, 1_700_000_001 % 60)));
    assert_eq!(s.get_layer(&item(1, 1_700_000_059)), Some((0, (1_700_000_059u64 % 60) as usize)));
    assert_eq!(
        s.get_layer(&item(1, 1_700_000_060)),
        Some((1, (1_700_000_060u64 / 60 % 60) as usize))
    );
    assert_eq!(
        s.get_layer(&item(1, 1_700_003_599)),
        Some((1, (1_700_003_599u64 / 60 % 60) as usize))
    );
    assert_eq!(
        s.get_layer(&item(1, 1_700_003_600)),
        Some((2, (1_700_003_600u64 / 3600 % 24) as usize))
    );
    assert_eq!(
        s.get_layer(&item(1, 1_700_086_399)),
        Some((2, (1_700_086_399u64 / 3600 % 24) as usize))
    );
    assert_eq!(s.get_layer(&item(1, 1_700_086_400)), None);
    assert_eq!(s.layers().len(), 3);
    assert_eq!(s.layers()[2].tick_duration(), 3600);
    assert_eq!(s.queue_lengths(), (0, 0));
}

#[test]
fn every_ten_seconds_on_wheels() {
    let mut s = Scheduler::with_tz(1, vec![60, 60, 24], Zone::utc(), 0);
    let mut b = BaseJobBuilder::new();
    let id = s.try_add_job(job(b.every(10.seconds()), 7)).unwrap();
    assert_eq!(id, JobId(1));
    assert_eq!(s.job(id).unwrap().f, 7);
    assert_eq!(s.next_action(), Dispatch::Idle);
    let mut now = 0;
    for expected in [10u64, 20, 30, 40, 50, 60, 70] {
        let fired = run_to_next(&mut s, 1000);
        assert_eq!(fired, vec![(expected, 1, 0)]);
        assert_eq!(s.current_time(), expected);
        assert!(s.current_time() > now);
        now = s.current_time();
        assert_eq!(s.reschedule(id, now), Some(item(1, expected + 10)));
        assert_eq!(s.reschedule(id, now), None);
    }
}

#[test]
fn entries_come_down_the_wheels_and_fire_on_time() {
    let mut s = Scheduler::with_tz(1, vec![60, 60, 24], Zone::utc(), 0);
    let mut b = BaseJobBuilder::new();
    // 00:00:45, 00:07:03, 05:30:00, and Monday, four days away.
    s.try_add_job(job(b.at_time(0, 0, 45), 0)).unwrap();
    s.try_add_job(job(b.at_time(0, 7, 3), 0)).unwrap();
    s.try_add_job(job(b.at_time(5, 30, 0), 0)).unwrap();
    s.try_add_job(job(b.every(Interval::Monday), 0)).unwrap();
    assert_eq!(s.queue_lengths(), (0, 1));
    assert_eq!(s.layers()[0].counts().iter().sum::<usize>(), 1);
    assert_eq!(s.layers()[1].counts().iter().sum::<usize>(), 1);
    assert_eq!(s.layers()[2].counts().iter().sum::<usize>(), 1);
    assert_eq!(s.layers()[0].counts()[45], 1);
    assert_eq!(s.layers()[1].counts()[7], 1);
    assert_eq!(s.layers()[2].counts()[5], 1);
    let limit = 5 * 86_400;
    assert_eq!(run_to_next(&mut s, limit), vec![(45, 1, 0)]);
    assert_eq!(s.current_time(), 45);
    assert_eq!(run_to_next(&mut s, limit), vec![(423, 2, 0)]);
    assert_eq!(s.current_time(), 423);
    assert_eq!(run_to_next(&mut s, limit), vec![(19_800, 3, 0)]);
    assert_eq!(s.current_time(), 19_800);
    assert_eq!(run_to_next(&mut s, limit), vec![(345_600, 4, 0)]);
    assert_eq!(s.current_time(), 345_600);
    assert_eq!(run_to_next(&mut s, limit), vec![]);
}

#[test]
fn many_entries_each_fire_at_their_instant() {
    let mut s = Scheduler::with_tz(1, vec![7, 5, 3], Zone::utc(), 1000);
    let mut b = BaseJobBuilder::new();
    let mut expected = Vec::new();
    let mut x: u64 = 99;
    for n in 0..300usize {
        x = x.wrapping_mul(6364136223846793005).wrapping_add(1442695040888963407);
        let sec = ((x >> 33) % 60) as u32;
        let min = ((x >> 40) % 60) as u32;
        s.try_add_job(job(b.at_time(0, min, sec), 0)).unwrap();
        let mut time = (min * 60 + sec) as u64;
        if time <= 1000 {
            time += 86_400;
        }
        expected.push((time, n + 1));
    }
    expected.sort();
    let mut fired = Vec::new();
    loop {
        let batch = run_to_next(&mut s, 100_000);
        if batch.is_empty() {
            break;
        }
        for (time, id, wait) in batch {
            assert_eq!(time, s.current_time());
            assert_eq!(wait, 0);
            fired.push((time, id));
        }
    }
    fired.sort();
    assert_eq!(fired, expected);
}

#[test]
fn coarse_ticks_fire_within_the_tick() {
    let mut s = Scheduler::with_tz(5, vec![4, 3], Zone::utc(), 0);
    let mut b = BaseJobBuilder::new();
    // Due at 3: within the tick from now, so ready at once.
    s.try_add_job(job(b.at_time(0, 0, 3), 0)).unwrap();
    assert_eq!(s.next_action(), Dispatch::Fire { item: item(1, 3), wait: 3 });
    s.try_add_job(job(b.at_time(0, 0, 7), 0)).unwrap();
    s.try_add_job(job(b.at_time(0, 0, 48), 0)).unwrap();
    s.try_add_job(job(b.at_time(0, 2, 1), 0)).unwrap();
    assert_eq!(run_to_next(&mut s, 1000), vec![(7, 2, 2)]);
    assert_eq!(s.current_time(), 5);
    assert_eq!(run_to_next(&mut s, 1000), vec![(48, 3, 3)]);
    assert_eq!(s.current_time(), 45);
    assert_eq!(run_to_next(&mut s, 1000), vec![(121, 4, 1)]);
    assert_eq!(s.current_time(), 120);
}

#[test]
fn cancelled_job_is_evicted_from_the_wheels() {
    let mut s = Scheduler::with_tz(1, vec![60, 60, 24], Zone::utc(), 0);
    let mut b = BaseJobBuilder::new();
    let a = s.try_add_job(job(b.every(10.seconds()), 0)).unwrap();
    let c = s.try_add_job(job(b.every(15.seconds()), 0)).unwrap();
    assert!(s.cancel(a));
    assert!(!s.cancel(JobId(3)));
    assert!(!s.cancel(JobId(0)));
    for _ in 0..10 {
        s.tick();
    }
    assert_eq!(s.next_action(), Dispatch::Evict(item(1, 10)));
    assert_eq!(s.next_action(), Dispatch::Idle);
    assert_eq!(s.reschedule(a, 10), None);
    assert_eq!(run_to_next(&mut s, 100), vec![(15, 2, 0)]);
    assert_eq!(s.reschedule(c, 15), Some(item(2, 30)));
    assert_eq!(run_to_next(&mut s, 100), vec![(30, 2, 0)]);
    assert_eq!(run_to_next(&mut s, 100), vec![]);
}

#[test]
fn a_schedule_that_the_grammar_rejects_is_not_put_on_the_wheels() {
    let mut s = Scheduler::with_tz(1, vec![60], Zone::utc(), 0);
    let mut b = BaseJobBuilder::new();
    let mut bad = job(b.at(Interval::Days(4)), 0);
    bad.info.jobschedule.cron = "0 0 0 40 * * *".to_string();
    assert_eq!(s.try_add_job(bad), None);
    assert_eq!(s.job_count(), 0);
    assert_eq!(run_to_next(&mut s, 200), vec![]);
}

#[test]
fn every_ten_seconds_load_on_wheels() {
    let mut s = Scheduler::with_tz(1, vec![60, 60, 24], Zone::utc(), 0);
    let mut b = BaseJobBuilder::new();
    let first = job(b.every(10.seconds()), 1);
    for _ in 0..200_000 {
        s.try_add_job(first.box_clone()).unwrap();
    }
    for _ in 0..9 {
        s.tick();
        assert_eq!(s.next_action(), Dispatch::Idle);
    }
    s.tick();
    let mut counter = 0u64;
    loop {
        match s.next_action() {
            Dispatch::Fire { item, wait } => {
                assert_eq!((item.time, wait), (10, 0));
                counter += s.job(item.id).unwrap().f as u64;
            }
            Dispatch::Idle => break,
            Dispatch::Evict(_) => panic!("no job was cancelled"),
        }
    }
    assert_eq!(counter, 200_000);
}

#[test]
fn wheels_keep_extensions() {
    let mut s = Scheduler::with_tz(1, vec![60], Zone::utc(), 0);
    let key = easy_timer::extensions::TypeKey::of(4, "i64");
    s.add_ext(key, 12);
    assert_eq!(*s.extensions().get_data(&key).get_ref(), 12);
}

#[test]
fn the_bucket_under_the_hand_is_empty_after_a_tick() {
    let mut s = Scheduler::with_tz(1, vec![10, 6], Zone::utc(), 0);
    let mut b = BaseJobBuilder::new();
    for sec in [1u32, 3, 9, 10, 11, 25, 59] {
        let j = job(b.at_time(0, 0, sec), sec);
        let id = s.try_add_job(j).unwrap();
        assert_eq!(s.job(id).unwrap().f, sec);
    }
    for now in 1..=70u64 {
        s.tick();
        assert_eq!(s.current_time(), now);
        assert_eq!(s.layers().len(), 2);
        let finest = &s.layers()[0];
        assert_eq!((finest.wheel_size(), finest.tick_duration()), (10, 1));
        assert_eq!(finest.counts()[finest.hand()], 0);
        let coarse = &s.layers()[1];
        assert_eq!((coarse.wheel_size(), coarse.tick_duration()), (6, 10));
        if now % 10 == 0 {
            assert_eq!(coarse.counts()[coarse.hand()], 0);
        }
        while s.next_action() != Dispatch::Idle {}
    }
    for id in 1..=7usize {
        assert!(s.job(JobId(id)).is_some());
    }
    assert_eq!(s.job(JobId(4)).unwrap().f, 10);
}
