use easy_timer::interval::{Interval, TimeUnits};
use easy_timer::job::{BaseJobBuilder, JobBuilder, JobScheduleBuilder};

fn slot(b: &JobScheduleBuilder, i: usize) -> Option<&str> {
    b.cron[i].as_deref()
}

#[test]
fn new_builder_is_empty() {
    let b = JobScheduleBuilder::new();
    assert_eq!(b.cron.len(), 7);
    assert!(b.cron.iter().all(|s| s.is_none()));
    assert_eq!(b.since, (None, None));
    assert_eq!(b.delay, 0);
    assert_eq!(b.repeat, 1);
    assert_eq!(b.interval, 1);
    assert!(!b.is_async);
}

#[test]
fn at_writes_each_unit_into_its_field() {
    let cases = [
        (Interval::Seconds(7), 0, "7"),
        (Interval::Minutes(59), 1, "59"),
        (Interval::Hours(0), 2, "0"),
        (Interval::Days(31), 3, "31"),
        (Interval::Months(12), 4, "12"),
        (Interval::Weeks(3), 5, "3"),
        (Interval::Years(2100), 6, "2100"),
    ];
    for (interval, index, text) in cases {
        let mut b = JobScheduleBuilder::new();
        b.at(interval);
        for i in 0..7 {
            if i == index {
                assert_eq!(slot(&b, i), Some(text));
            } else {
                assert_eq!(slot(&b, i), None);
            }
        }
    }
}

#[test]
fn at_writes_days_of_the_week_by_number() {
    let days = [
        (Interval::Sunday, "1"),
        (Interval::Monday, "2"),
        (Interval::Tuesday, "3"),
        (Interval::Wednesday, "4"),
        (Interval::Thursday, "5"),
        (Interval::Friday, "6"),
        (Interval::Saturday, "7"),
    ];
    for (day, text) in days {
        let mut b = JobScheduleBuilder::new();
        b.at(day);
        assert_eq!(slot(&b, 5), Some(text));
        let mut e = JobScheduleBuilder::new();
        e.every(day);
        assert_eq!(slot(&e, 5), Some(text));
    }
}

#[test]
fn repeated_at_lists_in_order_of_the_calls() {
    let mut b = JobScheduleBuilder::new();
    b.at(Interval::Minutes(40)).at(Interval::Minutes(5)).at(Interval::Minutes(13));
    assert_eq!(slot(&b, 1), Some("40,5,13"));
    assert_eq!(slot(&b, 0), None);
}

#[test]
fn every_seconds_three_compiles_with_stars() {
    let mut b = JobScheduleBuilder::new();
    b.every(3.seconds());
    assert_eq!(slot(&b, 0), Some("*/3"));
    let schedule = b.build();
    assert_eq!(schedule.cron, "*/3 * * * * * *");
    for i in 1..7 {
        assert_eq!(slot(&b, i), Some("*"));
    }
}

#[test]
fn at_time_compiles_to_second_minute_hour() {
    let mut b = BaseJobBuilder::new();
    let jobs = b.at_time(14, 13, 0).run_sync(());
    assert_eq!(jobs.len(), 1);
    assert_eq!(jobs[0].info.jobschedule.cron, "0 13 14 * * * *");
    let mut c = BaseJobBuilder::new();
    let jobs = c.at_time(23, 59, 58).run_sync(());
    assert_eq!(jobs[0].info.jobschedule.cron, "58 59 23 * * * *");
}

#[test]
fn at_date_compiles_to_midnight_of_the_date() {
    let mut b = BaseJobBuilder::new();
    let jobs = b.at_date(2024, 2, 29).run_sync(());
    assert_eq!(jobs[0].info.jobschedule.cron, "0 0 0 29 2 * 2024");
}

#[test]
fn at_datetime_takes_what_is_given() {
    let mut b = BaseJobBuilder::new();
    let jobs = b.at_datetime(None, Some(6), None, Some(12), None, Some(30)).run_sync(());
    assert_eq!(jobs[0].info.jobschedule.cron, "30 * 12 * 6 * *");
}

#[test]
fn weekday_is_two_to_six() {
    let mut b = JobScheduleBuilder::new();
    b.every(Interval::Weekday);
    assert_eq!(slot(&b, 5), Some("2-6"));
    assert_eq!(b.build().cron, "0 0 0 * * 2-6 *");
    let mut c = JobScheduleBuilder::new();
    c.at(Interval::Sunday).at(Interval::Weekday);
    assert_eq!(slot(&c, 5), Some("2-6"));
}

#[test]
fn since_every_and_from_to_write_pairs() {
    let mut b = JobScheduleBuilder::new();
    b.since_every(2.minutes(), 5.minutes());
    assert_eq!(slot(&b, 1), Some("2/5"));
    assert_eq!(b.build().cron, "0 2/5 * * * * *");
    let mut c = JobScheduleBuilder::new();
    c.from_to(9.hours(), 17.hours()).from_to(20.hours(), 22.hours());
    assert_eq!(slot(&c, 2), Some("9-17,20-22"));
    assert_eq!(c.build().cron, "0 0 9-17,20-22 * * * *");
}

#[test]
fn build_fills_fields_above_a_set_one() {
    let mut b = JobScheduleBuilder::new();
    b.at(12.months());
    let schedule = b.build();
    assert_eq!(schedule.cron, "0 0 0 * 12 * *");
    assert_eq!(slot(&b, 3), None);
    assert_eq!(slot(&b, 4), Some("12"));
    assert_eq!(slot(&b, 5), Some("*"));
    assert_eq!(slot(&b, 6), Some("*"));
}

#[test]
fn build_keeps_the_settings() {
    let mut b = JobScheduleBuilder::new();
    b.delay(5).delay(7);
    b.since = (Some((2030, 1, 2)), Some((3, 4, 5)));
    b.repeat = 4;
    b.interval = 9;
    b.is_async = true;
    let schedule = b.build();
    assert_eq!(schedule.delay, 12);
    assert_eq!(schedule.since, (Some((2030, 1, 2)), Some((3, 4, 5))));
    assert_eq!(schedule.repeat, 4);
    assert_eq!(schedule.interval, 9);
    assert!(schedule.is_async);
    assert_eq!(schedule.cron, "0 0 0 * * * *");
}

#[test]
fn and_finishes_one_schedule_and_starts_another() {
    let mut b = BaseJobBuilder::new();
    let jobs = b
        .every(Interval::Thursday)
        .at_time(8, 0, 0)
        .after(3)
        .and()
        .every(Interval::Wednesday)
        .at_time(20, 45, 30)
        .run_sync(());
    assert_eq!(jobs.len(), 2);
    assert_eq!(jobs[0].info.jobschedule.cron, "0 0 8 * * 5 *");
    assert_eq!(jobs[0].info.jobschedule.delay, 3);
    assert_eq!(jobs[1].info.jobschedule.cron, "30 45 20 * * 4 *");
    assert_eq!(jobs[1].info.jobschedule.delay, 0);
    let again = b.run_async(());
    assert_eq!(again.len(), 1);
    assert_eq!(again[0].info.jobschedule.cron, "0 0 0 * * * *");
}

#[test]
fn repeat_sets_count_interval_and_mode() {
    let mut b = BaseJobBuilder::new();
    let jobs = b.every(Interval::Monday).repeat_seq(3, 1.seconds()).run_sync(());
    let s = &jobs[0].info.jobschedule;
    assert_eq!((s.repeat, s.interval, s.is_async), (3, 1, false));
    assert_eq!(s.cron, "0 0 0 * * 2 *");
    let mut c = BaseJobBuilder::new();
    let jobs = c
        .every(Interval::Saturday)
        .at_time(14, 13, 0)
        .repeat_async(3, 2.minutes())
        .run_async(());
    let s = &jobs[0].info.jobschedule;
    assert_eq!((s.repeat, s.interval, s.is_async), (3, 120, true));
    assert_eq!(s.cron, "0 13 14 * * 7 *");
    let mut d = BaseJobBuilder::new();
    let jobs = d.repeat_async(2, 1.hours()).repeat_seq(5, 1.days()).run_sync(());
    let s = &jobs[0].info.jobschedule;
    assert_eq!((s.repeat, s.interval, s.is_async), (5, 86400, false));
}

#[test]
fn since_calls_set_the_parts_they_name() {
    let mut b = BaseJobBuilder::new();
    let jobs = b.since_date(2031, 5, 6).run_sync(());
    assert_eq!(jobs[0].info.jobschedule.since, (Some((2031, 5, 6)), None));
    let jobs = b.since_time(7, 8, 9).run_sync(());
    assert_eq!(jobs[0].info.jobschedule.since, (None, Some((7, 8, 9))));
    let jobs = b.since_time(7, 8, 9).since_date(2031, 5, 6).run_sync(());
    assert_eq!(jobs[0].info.jobschedule.since, (Some((2031, 5, 6)), Some((7, 8, 9))));
    let jobs = b.since_datetime(2032, 1, 2, 3, 4, 5).run_sync(());
    assert_eq!(jobs[0].info.jobschedule.since, (Some((2032, 1, 2)), Some((3, 4, 5))));
}

#[test]
fn new_jobs_are_not_cancelled_and_carry_the_handler() {
    let mut b = BaseJobBuilder::new();
    let jobs = b.every(10.seconds()).run_sync(41u8);
    assert_eq!(jobs[0].f, 41);
    assert_eq!(jobs[0].info.id.0, 0);
    assert!(!jobs[0].info.cancel);
    assert_eq!(jobs[0].info.current_time, 0);
}

#[test]
fn weekend_list_compiles_as_written() {
    let mut b = JobScheduleBuilder::new();
    b.every(Interval::Saturday).every(Interval::Sunday);
    assert_eq!(b.build().cron, "0 0 0 * * 7,1 *");
}
