use easy_timer::interval::{Interval, TimeUnits};
use easy_timer::job::jobschedule::seconds_until;
use easy_timer::job::{BaseJob, BaseJobBuilder, Job, JobBuilder, JobSchedule, JobScheduleBuilder};
use easy_timer::zone::Zone;

fn schedule(cron: &str) -> JobSchedule {
    JobSchedule {
        since: (None, None),
        delay: 0,
        cron: cron.to_string(),
        is_async: false,
        repeat: 1,
        interval: 1,
    }
}

fn upcoming(cron: &str, from: u64, tz: Zone, count: usize) -> Vec<u64> {
    let mut job = BaseJob::new(schedule(cron));
    assert!(job.jobschedule.is_valid());
    let mut out = Vec::new();
    let mut now = from;
    for _ in 0..count {
        match job.next(now, tz) {
            Some(item) => {
                assert_eq!(job.current_time, item.time);
                now = item.time;
                out.push(item.time);
            }
            None => break,
        }
    }
    out
}

#[test]
fn jobschedule_test() {
    let cron = JobScheduleBuilder::new().build().cron;
    assert_eq!(cron, "0 0 0 * * * *");
    let now = 1_700_000_000;
    let tz = Zone::local();
    let a = upcoming(&cron, now, tz, 1);
    let b = upcoming(&cron, now, tz, 1);
    assert_eq!(a, b);
}

#[test]
fn test_since_every() {
    let times = upcoming("0 2/5 0 * * * *", 0, Zone::utc(), 5);
    for t in times.iter() {
        println!("{:?}", t);
    }
    assert_eq!(times, vec![120, 420, 720, 1020, 1320]);
}

#[test]
fn main_test() {
    let mut b = JobScheduleBuilder::new();
    b.every(Interval::Saturday).every(Interval::Sunday);
    let s = b.build().cron;
    assert_eq!(s, "0 0 0 * * 7,1 *");
    let times = upcoming(&s, 0, Zone::utc(), 100);
    assert_eq!(times.len(), 100);
    for i in times.iter() {
        println!("{}", i);
    }
    // 1970-01-03 was the first Saturday after the epoch.
    assert_eq!(times[0], 2 * 86_400);
    assert_eq!(times[1], 3 * 86_400);
    assert_eq!(times[2], 9 * 86_400);
    for t in times.iter() {
        assert_eq!(t % 86_400, 0);
        let day = (t / 86_400 + 4) % 7;
        assert!(day == 6 || day == 0);
    }
}

#[test]
fn grammar_accepts_and_rejects() {
    assert!(schedule("0 0 0 * * * *").is_valid());
    assert!(schedule("*/3 * * * * * *").is_valid());
    assert!(schedule("0 13 14 * * 7 *").is_valid());
    assert!(!schedule("").is_valid());
    assert!(!schedule("61 * * * * * *").is_valid());
    assert!(!schedule("*/0 * * * * * *").is_valid());
    assert!(!schedule("0 0 0 * * 8 *").is_valid());
    assert!(!schedule("not a schedule").is_valid());
}

#[test]
fn builder_can_write_what_the_grammar_rejects() {
    let mut b = JobScheduleBuilder::new();
    b.at(Interval::Seconds(75));
    assert_eq!(b.compile(), "75 * * * * * *");
    assert!(!b.is_accepted());
    assert!(b.try_build().is_none());
    // The builder stays as it was: nothing was filled in.
    assert_eq!(b.cron[0].as_deref(), Some("75"));
    assert!(b.cron[1..].iter().all(|field| field.is_none()));
}

#[test]
fn try_build_builds_what_the_grammar_accepts() {
    let mut b = JobScheduleBuilder::new();
    b.at(Interval::Seconds(15)).delay(4);
    assert_eq!(b.compile(), "15 * * * * * *");
    assert!(b.is_accepted());
    let built = b.try_build().unwrap();
    assert_eq!(built.cron, "15 * * * * * *");
    assert_eq!(built.delay, 4);
    assert!(built.is_valid());
    assert_eq!(b.cron[1].as_deref(), Some("*"));
    assert_eq!(JobScheduleBuilder::new().compile(), "0 0 0 * * * *");
}

#[test]
fn try_and_and_try_run_finish_only_what_the_grammar_accepts() {
    let mut b = BaseJobBuilder::new();
    b.at(Interval::Hours(30));
    assert!(!b.try_and());
    assert!(b.try_run_sync(1u8).is_none());
    assert!(b.try_run_async(1u8).is_none());
    // The rejected schedule is still under construction; a fresh builder
    // is needed to go on.
    let mut c = BaseJobBuilder::new();
    c.at(Interval::Hours(3));
    assert!(c.try_and());
    c.at(Interval::Hours(4));
    let jobs = c.try_run_sync(2u8).unwrap();
    assert_eq!(jobs.len(), 2);
    assert_eq!(jobs[0].info.jobschedule.cron, "0 0 3 * * * *");
    assert_eq!(jobs[1].info.jobschedule.cron, "0 0 4 * * * *");
    assert!(jobs.iter().all(|j| j.info.jobschedule.is_valid() && j.f == 2));
    let jobs = c.every(Interval::Weekday).try_run_async('y').unwrap();
    assert_eq!(jobs.len(), 1);
    assert_eq!(jobs[0].info.jobschedule.cron, "0 0 0 * * 2-6 *");
}

#[test]
fn next_is_strictly_after_now() {
    let tz = Zone::utc();
    assert_eq!(upcoming("0 0 0 * * * *", 0, tz, 2), vec![86_400, 172_800]);
    assert_eq!(upcoming("0 0 0 * * * *", 86_399, tz, 1), vec![86_400]);
    assert_eq!(upcoming("0 0 0 * * * *", 86_400, tz, 1), vec![172_800]);
    assert_eq!(upcoming("*/10 * * * * * *", 0, tz, 3), vec![10, 20, 30]);
    assert_eq!(upcoming("*/10 * * * * * *", 5, tz, 1), vec![10]);
}

#[test]
fn next_is_reckoned_in_the_zone() {
    // 2023-11-14 22:13:20 UTC; the next midnight of UTC is 1_700_006_400.
    let now = 1_700_000_000;
    assert_eq!(upcoming("0 0 0 * * * *", now, Zone::utc(), 1), vec![1_700_006_400]);
    // Eight hours east the day has turned already, and the next midnight
    // comes eight hours before the one after next of UTC.
    let east8 = Zone::east(8 * 3600).unwrap();
    assert_eq!(upcoming("0 0 0 * * * *", now, east8, 1), vec![1_700_006_400 + 16 * 3600]);
    // Five hours west midnight comes five hours after that of UTC.
    let west5 = Zone::east(-5 * 3600).unwrap();
    assert_eq!(upcoming("0 0 0 * * * *", now, west5, 1), vec![1_700_006_400 + 5 * 3600]);
    assert_eq!(upcoming("0 0 0 * * * *", 0, east8, 1), vec![16 * 3600]);
}

#[test]
fn single_fire_each_day() {
    let mut b = BaseJobBuilder::new();
    let jobs = b.at_time(0, 0, 10).since_date(1970, 1, 1).run_sync(());
    let cron = jobs[0].info.jobschedule.cron.clone();
    assert_eq!(cron, "10 0 0 * * * *");
    assert_eq!(upcoming(&cron, 0, Zone::utc(), 2), vec![10, 86_410]);
}

#[test]
fn weekday_restriction() {
    let mut b = BaseJobBuilder::new();
    let jobs = b.every(Interval::Weekday).at_time(9, 0, 0).run_sync(());
    let cron = jobs[0].info.jobschedule.cron.clone();
    assert_eq!(cron, "0 0 9 * * 2-6 *");
    // The epoch began a Thursday: Thursday, Friday, then Monday to Friday.
    let day = 86_400;
    let nine = 9 * 3600;
    assert_eq!(
        upcoming(&cron, 0, Zone::utc(), 7),
        vec![
            nine,
            day + nine,
            4 * day + nine,
            5 * day + nine,
            6 * day + nine,
            7 * day + nine,
            8 * day + nine
        ]
    );
}

#[test]
fn a_finite_schedule_comes_to_an_end() {
    assert_eq!(upcoming("0 0 0 1 1 * 2099", 4_102_444_800, Zone::utc(), 3), vec![]);
    assert_eq!(upcoming("0 0 0 1 1 * 1971", 365 * 86_400 - 1, Zone::utc(), 3), vec![365 * 86_400]);
    assert_eq!(upcoming("0 0 0 1 1 * 1971", 365 * 86_400, Zone::utc(), 3), vec![]);
}

#[test]
fn cancelled_job_has_no_next() {
    let mut job = BaseJob::new(schedule("* * * * * * *"));
    assert_eq!(job.next(5, Zone::utc()).map(|i| i.time), Some(6));
    assert_eq!(job.current().map(|i| i.time), Some(6));
    job.cancel = true;
    assert_eq!(job.next(6, Zone::utc()), None);
    assert_eq!(job.current_time, 6);
    assert_eq!(job.note(Some(9)), None);
    assert_eq!(job.current_time, 6);
    job.cancel = false;
    assert_eq!(job.note(None), None);
    assert_eq!(job.note(Some(9)).map(|i| (i.id.0, i.time)), Some((0, 9)));
    assert_eq!(job.current_time, 9);
}

#[test]
fn seconds_until_counts_only_what_lies_ahead() {
    assert_eq!(seconds_until(Some(100), 40), Some(60));
    assert_eq!(seconds_until(Some(100), 100), None);
    assert_eq!(seconds_until(Some(100), 101), None);
    assert_eq!(seconds_until(Some(-5), 0), None);
    assert_eq!(seconds_until(None, 0), None);
    assert_eq!(seconds_until(Some(i64::MAX), 0), Some(i64::MAX));
}

#[test]
fn since_delay_waits_for_the_date_and_time() {
    let utc = Zone::utc();
    let mut s = schedule("0 0 0 * * * *");
    assert_eq!(s.get_since_delay_sec(1000, utc), None);
    s.since = (Some((1970, 1, 2)), Some((0, 0, 30)));
    assert_eq!(s.get_since_delay_sec(0, utc), Some(86_430));
    assert_eq!(s.get_since_delay_sec(86_429, utc), Some(1));
    assert_eq!(s.get_since_delay_sec(86_430, utc), None);
    // A date alone means its midnight.
    s.since = (Some((1970, 1, 3)), None);
    assert_eq!(s.get_since_delay_sec(10, utc), Some(2 * 86_400 - 10));
    // A time alone means that time today.
    s.since = (None, Some((1, 0, 0)));
    assert_eq!(s.get_since_delay_sec(86_400 + 60, utc), Some(3540));
    assert_eq!(s.get_since_delay_sec(86_400 + 3600, utc), None);
    // In a zone east of UTC the same wall clock comes earlier.
    let east2 = Zone::east(7200).unwrap();
    s.since = (Some((1970, 1, 2)), Some((2, 0, 0)));
    assert_eq!(s.get_since_delay_sec(0, east2), Some(86_400));
    s.since = (None, Some((3, 0, 0)));
    assert_eq!(s.get_since_delay_sec(0, east2), Some(3600));
    // A date that the calendar does not have holds nothing back.
    s.since = (Some((2023, 2, 30)), None);
    assert_eq!(s.get_since_delay_sec(0, utc), None);
}

#[test]
fn zones() {
    assert_eq!(Zone::utc().east_seconds(), 0);
    assert_eq!(Zone::east(3600).unwrap().east_seconds(), 3600);
    assert_eq!(Zone::east(-86_399).unwrap().east_seconds(), -86_399);
    assert!(Zone::east(86_400).is_none());
    assert!(Zone::east(-86_400).is_none());
    let local = Zone::local().east_seconds();
    assert!(-86_400 < local && local < 86_400);
}

#[test]
fn job_trait_on_sync_and_async_jobs() {
    let mut b = BaseJobBuilder::new();
    let builders = b.every(10.seconds()).after(2).run_sync(5u8);
    let mut job = builders[0].with_tz(Zone::utc());
    assert_eq!(job.f, 5);
    job.set_id(easy_timer::job::JobId(3));
    assert_eq!(job.get_id().0, 3);
    assert_eq!(job.next(0, Zone::utc()).map(|i| (i.id.0, i.time)), Some((3, 10)));
    let copy = job.box_clone();
    assert_eq!(copy.info.current_time, 10);
    job.cancel();
    assert_eq!(job.next(10, Zone::utc()), None);
    assert!(!copy.info.cancel);
    let builders = b.every(1.minutes()).run_async('x');
    let mut job = builders[0].with_tz(Zone::utc());
    assert_eq!(job.f, 'x');
    assert_eq!(job.next(0, Zone::utc()).map(|i| i.time), Some(60));
}

#[test]
fn next_job_carries_the_job_along() {
    let mut b = BaseJobBuilder::new();
    let mut job = b.every(10.seconds()).run_sync(3u8).remove(0).with_tz(Zone::utc());
    job.set_id(easy_timer::job::JobId(2));
    let entry = job.next_job(25).unwrap();
    assert_eq!(entry.time, 30);
    assert_eq!(entry.job.info.current_time, 30);
    assert_eq!(entry.job.info.id.0, 2);
    assert_eq!(entry.job.f, 3);
    assert_eq!(job.info.current_time, 30);
    job.cancel();
    assert!(job.next_job(30).is_none());
    let mut job = b.every(1.hours()).run_async(0u8).remove(0).with_tz(Zone::east(1800).unwrap());
    let entry = job.next_job(0).unwrap();
    assert_eq!(entry.time, 1800);
    assert_eq!(entry.job.tz.east_seconds(), 1800);
}

#[test]
fn found_instants_are_later_than_asked() {
    let expressions = [
        "* * * * * * *",
        "0 0 0 * * * *",
        "*/7 */5 */3 * * * *",
        "0 0 0 29 2 * *",
        "0 0 0 * * 7,1 *",
        "30 45 20 * * 4 *",
        "0 0 0 1 1 * 2099",
        "59 59 23 31 12 * *",
        "0 30 9,12,15 1,15 5-8 2,4,6 2018/2",
    ];
    let zones = [0, 3600, -3600, 8 * 3600, -11 * 3600, 86_399, -86_399, 19_800];
    let mut x: u64 = 7;
    for cron in expressions {
        let mut job = BaseJob::new(schedule(cron));
        assert!(job.jobschedule.is_valid());
        for east in zones {
            let tz = Zone::east(east).unwrap();
            for round in 0..40 {
                x = x.wrapping_mul(6364136223846793005).wrapping_add(1442695040888963407);
                let now = match round {
                    0 => 0,
                    1 => 1,
                    2 => 86_399,
                    3 => 4_102_444_799,
                    4 => 4_133_980_799,
                    5 => 253_402_300_799,
                    _ => (x >> 32) % 4_200_000_000,
                };
                if let Some(item) = job.next(now, tz) {
                    assert!(item.time > now, "{} after {} in {}", cron, now, east);
                }
            }
        }
    }
}
