//! Time quanta: the units in which a schedule is written.

use vstd::prelude::*;

verus! {

/// A quantum of time. The numeric variants carry a magnitude in their own
/// unit; the remaining variants name a day of the week, or the working week.
#[derive(Clone, Copy, Debug, PartialEq, Eq, Structural)]
pub enum Interval {
    /// A number of seconds, or the second of the minute.
    Seconds(u32),
    /// A number of minutes, or the minute of the hour.
    Minutes(u32),
    /// A number of hours, or the hour of the day.
    Hours(u32),
    /// A number of days, or the day of the month.
    Days(u32),
    /// A number of months, or the month of the year.
    Months(u32),
    /// A number of weeks.
    Weeks(u32),
    /// A number of years, or the calendar year.
    Years(u32),
    /// Every Monday.
    Monday,
    /// Every Tuesday.
    Tuesday,
    /// Every Wednesday.
    Wednesday,
    /// Every Thursday.
    Thursday,
    /// Every Friday.
    Friday,
    /// Every Saturday.
    Saturday,
    /// Every Sunday.
    Sunday,
    /// Every working day, Monday through Friday.
    Weekday,
}

impl Interval {
    /// Whether the interval has a fixed length in seconds. Months and years
    /// vary in length, and the days of the week are not lengths at all.
    pub open spec fn reducible(self) -> bool {
        self is Seconds || self is Minutes || self is Hours || self is Days || self is Weeks
    }

    /// The length of a reducible interval in seconds.
    pub open spec fn seconds_spec(self) -> nat
        recommends
            self.reducible(),
    {
        match self {
            Interval::Seconds(x) => x as nat,
            Interval::Minutes(x) => x as nat * 60,
            Interval::Hours(x) => x as nat * 3600,
            Interval::Days(x) => x as nat * 86400,
            Interval::Weeks(x) => x as nat * 604800,
            _ => 0,
        }
    }

    /// Whether the interval carries a magnitude.
    pub open spec fn is_numeric(self) -> bool {
        self.reducible() || self is Months || self is Years
    }

    /// The magnitude of a numeric interval.
    pub open spec fn magnitude(self) -> nat
        recommends
            self.is_numeric(),
    {
        match self {
            Interval::Seconds(x) => x as nat,
            Interval::Minutes(x) => x as nat,
            Interval::Hours(x) => x as nat,
            Interval::Days(x) => x as nat,
            Interval::Months(x) => x as nat,
            Interval::Weeks(x) => x as nat,
            Interval::Years(x) => x as nat,
            _ => 0,
        }
    }

    /// Whether a numeric interval lies in the domain of its unit:
    /// seconds and minutes below 60, hours below 24, days up to 31, months
    /// up to 12, weeks up to 7 and years up to 2100.
    pub open spec fn in_domain(self) -> bool {
        match self {
            Interval::Seconds(x) => x < 60,
            Interval::Minutes(x) => x < 60,
            Interval::Hours(x) => x < 24,
            Interval::Days(x) => x <= 31,
            Interval::Months(x) => x <= 12,
            Interval::Weeks(x) => x <= 7,
            Interval::Years(x) => x <= 2100,
            _ => true,
        }
    }

    /// Reduces the interval to its length in seconds.
    pub fn to_sec(self) -> (secs: u64)
        requires
            self.reducible(),
        ensures
            secs == self.seconds_spec(),
    {
        match self {
            Interval::Seconds(x) => x as u64,
            Interval::Minutes(x) => x as u64 * 60,
            Interval::Hours(x) => x as u64 * 3600,
            Interval::Days(x) => x as u64 * 86400,
            Interval::Weeks(x) => x as u64 * 604800,
            _ => 0,
        }
    }

    /// Whether the interval has a fixed length in seconds.
    pub fn is_reducible(self) -> (b: bool)
        ensures
            b == self.reducible(),
    {
        match self {
            Interval::Seconds(_) => true,
            Interval::Minutes(_) => true,
            Interval::Hours(_) => true,
            Interval::Days(_) => true,
            Interval::Weeks(_) => true,
            _ => false,
        }
    }
}

/// Turns a plain magnitude into an [`Interval`] of a chosen unit.
///
/// Each constructor accepts only magnitudes in the domain of its unit.
pub trait TimeUnits: Sized {
    /// The magnitude that the value stands for.
    spec fn units(self) -> nat;

    fn seconds(self) -> (r: Interval)
        requires
            self.units() < 60,
        ensures
            r is Seconds,
            r.magnitude() == self.units(),
            r.in_domain(),
    ;

    fn minutes(self) -> (r: Interval)
        requires
            self.units() < 60,
        ensures
            r is Minutes,
            r.magnitude() == self.units(),
            r.in_domain(),
    ;

    fn hours(self) -> (r: Interval)
        requires
            self.units() < 24,
        ensures
            r is Hours,
            r.magnitude() == self.units(),
            r.in_domain(),
    ;

    fn days(self) -> (r: Interval)
        requires
            self.units() <= 31,
        ensures
            r is Days,
            r.magnitude() == self.units(),
            r.in_domain(),
    ;

    fn months(self) -> (r: Interval)
        requires
            self.units() <= 12,
        ensures
            r is Months,
            r.magnitude() == self.units(),
            r.in_domain(),
    ;

    fn weeks(self) -> (r: Interval)
        requires
            self.units() <= 7,
        ensures
            r is Weeks,
            r.magnitude() == self.units(),
            r.in_domain(),
    ;

    fn years(self) -> (r: Interval)
        requires
            self.units() <= 2100,
        ensures
            r is Years,
            r.magnitude() == self.units(),
            r.in_domain(),
    ;

    fn second(self) -> (r: Interval)
        requires
            self.units() < 60,
        ensures
            r is Seconds,
            r.magnitude() == self.units(),
            r.in_domain(),
    {
        self.seconds()
    }

    fn minute(self) -> (r: Interval)
        requires
            self.units() < 60,
        ensures
            r is Minutes,
            r.magnitude() == self.units(),
            r.in_domain(),
    {
        self.minutes()
    }

    fn hour(self) -> (r: Interval)
        requires
            self.units() < 24,
        ensures
            r is Hours,
            r.magnitude() == self.units(),
            r.in_domain(),
    {
        self.hours()
    }

    fn day(self) -> (r: Interval)
        requires
            self.units() <= 31,
        ensures
            r is Days,
            r.magnitude() == self.units(),
            r.in_domain(),
    {
        self.days()
    }

    fn month(self) -> (r: Interval)
        requires
            self.units() <= 12,
        ensures
            r is Months,
            r.magnitude() == self.units(),
            r.in_domain(),
    {
        self.months()
    }

    fn year(self) -> (r: Interval)
        requires
            self.units() <= 2100,
        ensures
            r is Years,
            r.magnitude() == self.units(),
            r.in_domain(),
    {
        self.years()
    }

    fn week(self) -> (r: Interval)
        requires
            self.units() <= 7,
        ensures
            r is Weeks,
            r.magnitude() == self.units(),
            r.in_domain(),
    {
        self.weeks()
    }
}

impl TimeUnits for u32 {
    open spec fn units(self) -> nat {
        self as nat
    }

    fn seconds(self) -> (r: Interval)
        ensures
            r == Interval::Seconds(self),
    {
        Interval::Seconds(self)
    }

    fn minutes(self) -> (r: Interval)
        ensures
            r == Interval::Minutes(self),
    {
        Interval::Minutes(self)
    }

    fn hours(self) -> (r: Interval)
        ensures
            r == Interval::Hours(self),
    {
        Interval::Hours(self)
    }

    fn days(self) -> (r: Interval)
        ensures
            r == Interval::Days(self),
    {
        Interval::Days(self)
    }

    fn months(self) -> (r: Interval)
        ensures
            r == Interval::Months(self),
    {
        Interval::Months(self)
    }

    fn weeks(self) -> (r: Interval)
        ensures
            r == Interval::Weeks(self),
    {
        Interval::Weeks(self)
    }

    fn years(self) -> (r: Interval)
        ensures
            r == Interval::Years(self),
    {
        Interval::Years(self)
    }
}

} // verus!
