use easy_timer::interval::{Interval, TimeUnits};
use easy_timer::text::{decimal_string, digit_to_char};

#[test]
fn constructors_make_their_variant() {
    assert_eq!(1.seconds(), Interval::Seconds(1));
    assert_eq!(59.minutes(), Interval::Minutes(59));
    assert_eq!(23.hours(), Interval::Hours(23));
    assert_eq!(31.days(), Interval::Days(31));
    assert_eq!(12.months(), Interval::Months(12));
    assert_eq!(7.weeks(), Interval::Weeks(7));
    assert_eq!(2100.years(), Interval::Years(2100));
    assert_eq!(0.second(), Interval::Seconds(0));
    assert_eq!(2.minute(), Interval::Minutes(2));
    assert_eq!(3.hour(), Interval::Hours(3));
    assert_eq!(4.day(), Interval::Days(4));
    assert_eq!(5.month(), Interval::Months(5));
    assert_eq!(6.week(), Interval::Weeks(6));
    assert_eq!(1970.year(), Interval::Years(1970));
}

#[test]
fn to_sec_reduces_each_unit() {
    assert_eq!(Interval::Seconds(59).to_sec(), 59);
    assert_eq!(Interval::Minutes(2).to_sec(), 120);
    assert_eq!(Interval::Hours(3).to_sec(), 10_800);
    assert_eq!(Interval::Days(2).to_sec(), 172_800);
    assert_eq!(Interval::Weeks(1).to_sec(), 604_800);
    assert_eq!(Interval::Weeks(u32::MAX).to_sec(), 4_294_967_295 * 604_800);
    assert_eq!(Interval::Seconds(0).to_sec(), 0);
}

#[test]
fn reducible_units_are_the_five_of_fixed_length() {
    assert!(Interval::Seconds(1).is_reducible());
    assert!(Interval::Minutes(1).is_reducible());
    assert!(Interval::Hours(1).is_reducible());
    assert!(Interval::Days(1).is_reducible());
    assert!(Interval::Weeks(1).is_reducible());
    assert!(!Interval::Months(1).is_reducible());
    assert!(!Interval::Years(1).is_reducible());
    assert!(!Interval::Monday.is_reducible());
    assert!(!Interval::Weekday.is_reducible());
}

#[test]
fn decimal_numerals() {
    assert_eq!(decimal_string(0), "0");
    assert_eq!(decimal_string(7), "7");
    assert_eq!(decimal_string(10), "10");
    assert_eq!(decimal_string(2100), "2100");
    assert_eq!(decimal_string(1_000_000), "1000000");
    assert_eq!(decimal_string(u32::MAX), "4294967295");
    for d in 0..10u32 {
        assert_eq!(digit_to_char(d), char::from_digit(d, 10).unwrap());
    }
}

#[test]
fn prelude_names_what_a_program_needs() {
    let seconds: easy_timer::prelude::Interval = 5.seconds();
    assert_eq!(seconds, Interval::Seconds(5));
    let zone = easy_timer::prelude::Zone::utc();
    assert_eq!(zone.east_seconds(), 0);
}
