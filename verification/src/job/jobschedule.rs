//! The schedule builder: fluent calls accumulate into seven cron fields,
//! which compile into one cron expression.

use crate::calendar::{
    civil_date, civil_date_at, civil_instant, civil_timestamp, cron_accepts, cron_is_valid,
    MAX_INSTANT,
};
use crate::interval::Interval;
use crate::text::{decimal, push_decimal};
use crate::zone::Zone;
use vstd::prelude::*;

verus! {

/// The seven cron fields as text: second, minute, hour, day of month, month,
/// day of week, year. An empty field is `None`.
pub type Slots = Seq<Option<Seq<char>>>;

/// A date, as year, month and day.
pub type Ymd = (i32, u32, u32);

/// A time of day, as hour, minute and second.
pub type Hms = (u32, u32, u32);

/// A lower bound on the wall clock before which a job does not fire: an
/// optional date and an optional time of day.
pub type SinceGate = (Option<Ymd>, Option<Hms>);

/// A compiled schedule: the cron expression and what goes with it.
#[derive(Debug)]
pub struct JobSchedule {
    /// The since-gate before which the job does not fire.
    pub since: SinceGate,
    /// Seconds to wait at each firing, before anything else.
    pub delay: u64,
    /// The cron expression, seven fields separated by single spaces.
    pub cron: String,
    /// Whether the invocations of a burst run concurrently.
    pub is_async: bool,
    /// The number of invocations in a burst.
    pub repeat: u32,
    /// Seconds between two invocations of a burst.
    pub interval: u64,
}

impl Clone for JobSchedule {
    fn clone(&self) -> (copy: Self)
        ensures
            copy == *self,
    {
        JobSchedule {
            since: self.since,
            delay: self.delay,
            cron: self.cron.clone(),
            is_async: self.is_async,
            repeat: self.repeat,
            interval: self.interval,
        }
    }
}

/// A schedule under construction: the seven cron fields as far as they are
/// written, and what goes with them.
pub struct JobScheduleBuilder {
    /// The since-gate before which the job does not fire.
    pub since: SinceGate,
    /// Seconds to wait at each firing, before anything else.
    pub delay: u64,
    /// The seven fields, each with what was written to it.
    pub cron: Vec<Option<String>>,
    /// Whether the invocations of a burst run concurrently.
    pub is_async: bool,
    /// The number of invocations in a burst.
    pub repeat: u32,
    /// Seconds between two invocations of a burst.
    pub interval: u64,
}

/// What a compiled schedule is, with the expression as a sequence of
/// characters.
pub struct ScheduleView {
    pub since: SinceGate,
    pub delay: u64,
    pub cron: Seq<char>,
    pub is_async: bool,
    pub repeat: u32,
    pub interval: u64,
}

impl View for JobSchedule {
    type V = ScheduleView;

    open spec fn view(&self) -> ScheduleView {
        ScheduleView {
            since: self.since,
            delay: self.delay,
            cron: self.cron@,
            is_async: self.is_async,
            repeat: self.repeat,
            interval: self.interval,
        }
    }
}

/// What a builder is, with the fields as sequences of characters.
pub struct BuilderView {
    pub since: SinceGate,
    pub delay: u64,
    pub slots: Slots,
    pub is_async: bool,
    pub repeat: u32,
    pub interval: u64,
}

impl View for JobScheduleBuilder {
    type V = BuilderView;

    open spec fn view(&self) -> BuilderView {
        BuilderView {
            since: self.since,
            delay: self.delay,
            slots: Seq::new(
                self.cron@.len(),
                |i: int|
                    match self.cron@[i] {
                        Some(s) => Some(s@),
                        None => None,
                    },
            ),
            is_async: self.is_async,
            repeat: self.repeat,
            interval: self.interval,
        }
    }
}

/// The field that an interval is written into. The days of the week, the
/// working week and a number of weeks all go to the day-of-week field.
pub open spec fn slot_of(interval: Interval) -> int {
    match interval {
        Interval::Seconds(_) => 0,
        Interval::Minutes(_) => 1,
        Interval::Hours(_) => 2,
        Interval::Days(_) => 3,
        Interval::Months(_) => 4,
        Interval::Years(_) => 6,
        _ => 5,
    }
}

/// The number of a day of the week, Sunday being 1 and Saturday 7.
pub open spec fn weekday_number(interval: Interval) -> nat {
    match interval {
        Interval::Sunday => 1,
        Interval::Monday => 2,
        Interval::Tuesday => 3,
        Interval::Wednesday => 4,
        Interval::Thursday => 5,
        Interval::Friday => 6,
        Interval::Saturday => 7,
        _ => 0,
    }
}

/// Monday through Friday, as a range of day numbers: `2-6`.
pub open spec fn working_week() -> Seq<char> {
    seq!['2', '-', '6']
}

/// What `at` writes for an interval: the magnitude of a numeric interval,
/// the number of a day of the week, or the working week.
pub open spec fn at_text(interval: Interval) -> Seq<char> {
    if interval.is_numeric() {
        decimal(interval.magnitude())
    } else if interval is Weekday {
        working_week()
    } else {
        decimal(weekday_number(interval))
    }
}

/// What `every` writes for an interval: `*/n` for a numeric interval, and
/// what `at` writes for the others.
pub open spec fn every_text(interval: Interval) -> Seq<char> {
    if interval.is_numeric() {
        seq!['*', '/'] + decimal(interval.magnitude())
    } else {
        at_text(interval)
    }
}

/// Two magnitudes joined by a separator, as in `2/5` or `1-4`.
pub open spec fn pair_text(first: Interval, sep: char, second: Interval) -> Seq<char> {
    decimal(first.magnitude()) + seq![sep] + decimal(second.magnitude())
}

/// Whether two intervals are numeric and of the same unit.
pub open spec fn same_unit(a: Interval, b: Interval) -> bool {
    a.is_numeric() && b.is_numeric() && slot_of(a) == slot_of(b) && (a is Weeks <==> b is Weeks)
}

/// A field after one more fragment: the fragment alone in an empty field,
/// else the field, a comma and the fragment.
pub open spec fn extend(slot: Option<Seq<char>>, text: Seq<char>) -> Option<Seq<char>> {
    match slot {
        Some(s) => Some(s + seq![','] + text),
        None => Some(text),
    }
}

/// The fields after a fragment was added to field `index`.
pub open spec fn added(slots: Slots, index: int, text: Seq<char>) -> Slots {
    slots.update(index, extend(slots[index], text))
}

/// The fields after `text` was written for `interval`. The working week
/// replaces what the day-of-week field held; everything else is added to
/// its field.
pub open spec fn written(slots: Slots, interval: Interval, text: Seq<char>) -> Slots {
    if interval is Weekday {
        slots.update(5, Some(text))
    } else {
        added(slots, slot_of(interval), text)
    }
}

/// Whether a field below `j` is set.
pub open spec fn set_below(slots: Slots, j: int) -> bool
    decreases j,
{
    j > 0 && (slots[j - 1] is Some || set_below(slots, j - 1))
}

/// The fields after the compile rule: an empty field above a set one is
/// unconstrained, and holds `*`.
pub open spec fn cascaded(slots: Slots) -> Slots {
    Seq::new(
        7,
        |j: int|
            if slots[j] is None && set_below(slots, j) {
                Some(seq!['*'])
            } else {
                slots[j]
            },
    )
}

/// The text of field `j` in the expression: what the field holds, else `0`
/// for second, minute and hour and `*` for the others.
pub open spec fn plain_text(slot: Option<Seq<char>>, j: int) -> Seq<char> {
    match slot {
        Some(s) => s,
        None => if j < 3 {
            seq!['0']
        } else {
            seq!['*']
        },
    }
}

/// The text of field `j` in the expression that `slots` compile to.
pub open spec fn field_text(slots: Slots, j: int) -> Seq<char> {
    plain_text(cascaded(slots)[j], j)
}

/// The cron expression that `slots` compile to: the seven field texts,
/// separated by single spaces.
pub open spec fn expression(slots: Slots) -> Seq<char> {
    field_text(slots, 0) + seq![' '] + field_text(slots, 1) + seq![' '] + field_text(slots, 2)
        + seq![' '] + field_text(slots, 3) + seq![' '] + field_text(slots, 4) + seq![' ']
        + field_text(slots, 5) + seq![' '] + field_text(slots, 6)
}

/// Seven empty fields.
pub open spec fn empty_slots() -> Slots {
    Seq::new(7, |i: int| None::<Seq<char>>)
}

impl BuilderView {
    /// A builder holds seven fields.
    pub open spec fn wf(self) -> bool {
        self.slots.len() == 7
    }

    /// The builder as `new` makes it: no field set, no gate, no delay, one
    /// invocation per firing.
    pub open spec fn fresh() -> BuilderView {
        BuilderView {
            since: (None, None),
            delay: 0,
            slots: empty_slots(),
            is_async: false,
            repeat: 1,
            interval: 1,
        }
    }

    /// The builder with other fields.
    pub open spec fn with_slots(self, slots: Slots) -> BuilderView {
        BuilderView { slots, ..self }
    }

    /// The builder after `at(interval)`.
    pub open spec fn at(self, interval: Interval) -> BuilderView {
        self.with_slots(written(self.slots, interval, at_text(interval)))
    }

    /// The builder after `every(interval)`.
    pub open spec fn every(self, interval: Interval) -> BuilderView {
        self.with_slots(written(self.slots, interval, every_text(interval)))
    }

    /// The builder after `since_every(start, interval)`.
    pub open spec fn since_every(self, start: Interval, interval: Interval) -> BuilderView {
        self.with_slots(added(self.slots, slot_of(start), pair_text(start, '/', interval)))
    }

    /// The builder after `from_to(start, end)`.
    pub open spec fn from_to(self, start: Interval, end: Interval) -> BuilderView {
        self.with_slots(added(self.slots, slot_of(start), pair_text(start, '-', end)))
    }

    /// The builder after `delay(secs)`.
    pub open spec fn delayed(self, secs: u64) -> BuilderView {
        BuilderView { delay: (self.delay + secs) as u64, ..self }
    }

    /// The builder after the compile rule has filled its fields.
    pub open spec fn settled(self) -> BuilderView {
        self.with_slots(cascaded(self.slots))
    }

    /// Whether the expression that the builder compiles to is one that the
    /// cron grammar accepts.
    pub open spec fn accepted(self) -> bool {
        cron_accepts(expression(self.slots))
    }

    /// The schedule that the builder compiles to.
    pub open spec fn compiled(self) -> ScheduleView {
        ScheduleView {
            since: self.since,
            delay: self.delay,
            cron: expression(self.slots),
            is_async: self.is_async,
            repeat: self.repeat,
            interval: self.interval,
        }
    }
}

/// `at` with a numeric interval writes its magnitude, in decimal, into the
/// field of its unit, and leaves the other fields as they were.
pub proof fn lemma_at_writes_magnitude(b: BuilderView, v: Interval, other: int)
    requires
        b.wf(),
        v.is_numeric(),
        b.slots[slot_of(v)] is None,
        0 <= other < 7,
        other != slot_of(v),
    ensures
        b.at(v).wf(),
        b.at(v).slots[slot_of(v)] == Some(decimal(v.magnitude())),
        b.at(v).slots[other] == b.slots[other],
{
}

/// `at` with two intervals of one unit, one after the other, leaves both
/// magnitudes in the field of the unit, in that order, with a comma
/// between.
pub proof fn lemma_at_twice_lists(b: BuilderView, v: Interval, w: Interval)
    requires
        b.wf(),
        same_unit(v, w),
        b.slots[slot_of(v)] is None,
    ensures
        b.at(v).at(w).slots[slot_of(v)] == Some(
            decimal(v.magnitude()) + seq![','] + decimal(w.magnitude()),
        ),
{
}

/// `every` and `at` with the working week put `2-6` into the day-of-week
/// field, whatever it held, and the expression shows it there.
pub proof fn lemma_weekday_is_two_to_six(b: BuilderView)
    requires
        b.wf(),
    ensures
        b.every(Interval::Weekday).slots[5] == Some(working_week()),
        b.at(Interval::Weekday).slots[5] == Some(working_week()),
        field_text(b.every(Interval::Weekday).slots, 5) == working_week(),
        working_week() == seq!['2', '-', '6'],
{
    reveal_with_fuel(set_below, 8);
}

/// Nothing but `every` with a number of seconds compiles to `*/n` in the
/// field of the seconds and `*` in each of the six others.
pub proof fn lemma_every_seconds_compiles(n: u32)
    ensures
        BuilderView::fresh().every(Interval::Seconds(n)).compiled().cron == seq!['*', '/']
            + decimal(n as nat) + seq![' ', '*', ' ', '*', ' ', '*', ' ', '*', ' ', '*', ' ', '*'],
{
    reveal_with_fuel(set_below, 8);
    let b = BuilderView::fresh().every(Interval::Seconds(n));
    assert(b.compiled().cron =~= seq!['*', '/'] + decimal(n as nat) + seq![
        ' ',
        '*',
        ' ',
        '*',
        ' ',
        '*',
        ' ',
        '*',
        ' ',
        '*',
        ' ',
        '*',
    ]);
}

/// Nothing but a time of day compiles to `s m h * * * *`: `at` with the
/// hour, the minute and the second, as `at_time` calls it.
pub proof fn lemma_at_time_compiles(hour: u32, min: u32, sec: u32)
    ensures
        BuilderView::fresh().at(Interval::Hours(hour)).at(Interval::Minutes(min)).at(
            Interval::Seconds(sec),
        ).compiled().cron == decimal(sec as nat) + seq![' '] + decimal(min as nat) + seq![' ']
            + decimal(hour as nat) + seq![' ', '*', ' ', '*', ' ', '*', ' ', '*'],
{
    reveal_with_fuel(set_below, 8);
    let b = BuilderView::fresh().at(Interval::Hours(hour)).at(Interval::Minutes(min)).at(
        Interval::Seconds(sec),
    );
    assert(b.compiled().cron =~= decimal(sec as nat) + seq![' '] + decimal(min as nat) + seq![' ']
        + decimal(hour as nat) + seq![' ', '*', ' ', '*', ' ', '*', ' ', '*']);
}

/// Nothing but a date compiles to `0 0 0 d mo * y`: `at` with the year, the
/// month and the day, as `at_date` calls it.
pub proof fn lemma_at_date_compiles(year: u32, month: u32, day: u32)
    ensures
        BuilderView::fresh().at(Interval::Years(year)).at(Interval::Months(month)).at(
            Interval::Days(day),
        ).compiled().cron == seq!['0', ' ', '0', ' ', '0', ' '] + decimal(day as nat) + seq![' ']
            + decimal(month as nat) + seq![' ', '*', ' '] + decimal(year as nat),
{
    reveal_with_fuel(set_below, 8);
    let b = BuilderView::fresh().at(Interval::Years(year)).at(Interval::Months(month)).at(
        Interval::Days(day),
    );
    assert(b.compiled().cron =~= seq!['0', ' ', '0', ' ', '0', ' '] + decimal(day as nat) + seq![
        ' ',
    ] + decimal(month as nat) + seq![' ', '*', ' '] + decimal(year as nat));
}

/// A builder with nothing written compiles to midnight of every day:
/// `0 0 0 * * * *`.
pub proof fn lemma_fresh_compiles_to_midnight()
    ensures
        BuilderView::fresh().compiled().cron == seq![
            '0',
            ' ',
            '0',
            ' ',
            '0',
            ' ',
            '*',
            ' ',
            '*',
            ' ',
            '*',
            ' ',
            '*',
        ],
{
    reveal_with_fuel(set_below, 8);
    assert(BuilderView::fresh().compiled().cron =~= seq![
        '0',
        ' ',
        '0',
        ' ',
        '0',
        ' ',
        '*',
        ' ',
        '*',
        ' ',
        '*',
        ' ',
        '*',
    ]);
}

/// The field of an interval.
fn slot_index(interval: Interval) -> (index: usize)
    ensures
        index == slot_of(interval),
{
    match interval {
        Interval::Seconds(_) => 0,
        Interval::Minutes(_) => 1,
        Interval::Hours(_) => 2,
        Interval::Days(_) => 3,
        Interval::Months(_) => 4,
        Interval::Years(_) => 6,
        _ => 5,
    }
}

/// The magnitude of a numeric interval, and `None` for the others.
fn numeric_value(interval: Interval) -> (value: Option<u32>)
    ensures
        value is Some <==> interval.is_numeric(),
        value matches Some(x) ==> x == interval.magnitude(),
{
    match interval {
        Interval::Seconds(x) => Some(x),
        Interval::Minutes(x) => Some(x),
        Interval::Hours(x) => Some(x),
        Interval::Days(x) => Some(x),
        Interval::Months(x) => Some(x),
        Interval::Weeks(x) => Some(x),
        Interval::Years(x) => Some(x),
        _ => None,
    }
}

/// The number of a day of the week, and 0 for the other intervals.
fn day_number(interval: Interval) -> (n: u32)
    ensures
        n == weekday_number(interval),
{
    match interval {
        Interval::Sunday => 1,
        Interval::Monday => 2,
        Interval::Tuesday => 3,
        Interval::Wednesday => 4,
        Interval::Thursday => 5,
        Interval::Friday => 6,
        Interval::Saturday => 7,
        _ => 0,
    }
}

/// Whether two intervals are numeric and of the same unit.
pub fn is_same_unit(a: Interval, b: Interval) -> (same: bool)
    ensures
        same == same_unit(a, b),
{
    match (a, b) {
        (Interval::Seconds(_), Interval::Seconds(_)) => true,
        (Interval::Minutes(_), Interval::Minutes(_)) => true,
        (Interval::Hours(_), Interval::Hours(_)) => true,
        (Interval::Days(_), Interval::Days(_)) => true,
        (Interval::Months(_), Interval::Months(_)) => true,
        (Interval::Weeks(_), Interval::Weeks(_)) => true,
        (Interval::Years(_), Interval::Years(_)) => true,
        _ => false,
    }
}

/// The text that `at` writes for an interval.
fn at_fragment(interval: Interval) -> (text: String)
    ensures
        text@ == at_text(interval),
{
    let mut text = String::new();
    match numeric_value(interval) {
        Some(x) => {
            push_decimal(&mut text, x);
        },
        None => {
            if let Interval::Weekday = interval {
                text.push('2');
                text.push('-');
                text.push('6');
            } else {
                push_decimal(&mut text, day_number(interval));
            }
        },
    }
    assert(text@ =~= at_text(interval));
    text
}

/// The text that `every` writes for an interval.
fn every_fragment(interval: Interval) -> (text: String)
    ensures
        text@ == every_text(interval),
{
    match numeric_value(interval) {
        Some(x) => {
            let mut text = String::new();
            text.push('*');
            text.push('/');
            push_decimal(&mut text, x);
            assert(text@ =~= every_text(interval));
            text
        },
        None => at_fragment(interval),
    }
}

/// Two magnitudes joined by a separator.
fn pair_fragment(first: Interval, sep: char, second: Interval) -> (text: String)
    requires
        first.is_numeric(),
        second.is_numeric(),
    ensures
        text@ == pair_text(first, sep, second),
{
    let mut text = String::new();
    if let Some(x) = numeric_value(first) {
        push_decimal(&mut text, x);
    }
    text.push(sep);
    if let Some(y) = numeric_value(second) {
        push_decimal(&mut text, y);
    }
    assert(text@ =~= pair_text(first, sep, second));
    text
}

impl JobScheduleBuilder {
    /// A builder holds seven fields.
    pub open spec fn wf(&self) -> bool {
        self.cron@.len() == 7
    }

    /// An empty builder: no field set, no gate, no delay, one invocation
    /// per firing.
    pub fn new() -> (b: Self)
        ensures
            b.wf(),
            b@ == BuilderView::fresh(),
    {
        let b = JobScheduleBuilder {
            since: (None, None),
            cron: vec![None, None, None, None, None, None, None],
            repeat: 1,
            interval: 1,
            is_async: false,
            delay: 0,
        };
        assert(b@.slots =~= empty_slots());
        b
    }

    /// Adds `delay` seconds to the delay.
    pub fn delay(&mut self, delay: u64) -> (r: &mut Self)
        requires
            old(self).delay + delay <= u64::MAX,
        ensures
            r@ == old(self)@.delayed(delay),
            r.wf() == old(self).wf(),
            *final(self) == *final(r),
    {
        self.delay += delay;
        self
    }

    /// Adds a fragment to field `index`.
    fn add_fragment(&mut self, index: usize, text: String)
        requires
            old(self).wf(),
            index < 7,
        ensures
            final(self).wf(),
            final(self)@ == old(self)@.with_slots(added(old(self)@.slots, index as int, text@)),
    {
        let mut field = String::new();
        match &self.cron[index] {
            Some(prev) => {
                field.append(prev.as_str());
                field.push(',');
            },
            None => {},
        }
        field.append(text.as_str());
        assert(Some(field@) =~= extend(old(self)@.slots[index as int], text@));
        self.cron.set(index, Some(field));
        assert(self@.slots =~= added(old(self)@.slots, index as int, text@));
    }

    /// Replaces what field `index` holds.
    fn set_field(&mut self, index: usize, text: String)
        requires
            old(self).wf(),
            index < 7,
        ensures
            final(self).wf(),
            final(self)@ == old(self)@.with_slots(
                old(self)@.slots.update(index as int, Some(text@)),
            ),
    {
        self.cron.set(index, Some(text));
        assert(self@.slots =~= old(self)@.slots.update(index as int, Some(text@)));
    }

    /// Writes `text` for `interval`.
    fn write(&mut self, interval: Interval, text: String)
        requires
            old(self).wf(),
        ensures
            final(self).wf(),
            final(self)@ == old(self)@.with_slots(written(old(self)@.slots, interval, text@)),
    {
        if let Interval::Weekday = interval {
            self.set_field(5, text);
        } else {
            self.add_fragment(slot_index(interval), text);
        }
    }

    /// Runs at the given point of its unit: the magnitude of a numeric
    /// interval goes to the field of its unit, a day of the week goes to the
    /// day-of-week field by its number, and the working week replaces that
    /// field with `2-6`. A field that held something already holds it
    /// still, then a comma, then the new fragment.
    pub fn at(&mut self, interval: Interval) -> (r: &mut Self)
        requires
            old(self).wf(),
        ensures
            r.wf(),
            r@ == old(self)@.at(interval),
            *final(self) == *final(r),
    {
        self.write(interval, at_fragment(interval));
        self
    }

    /// Runs at every multiple of a numeric interval (`*/n`), or on a day of
    /// the week, or on every working day.
    pub fn every(&mut self, interval: Interval) -> (r: &mut Self)
        requires
            old(self).wf(),
        ensures
            r.wf(),
            r@ == old(self)@.every(interval),
            *final(self) == *final(r),
    {
        self.write(interval, every_fragment(interval));
        self
    }

    /// Runs at `start` and then at every multiple of `interval` after it
    /// (`start/interval`). Both are numeric and of one unit.
    pub fn since_every(&mut self, start: Interval, interval: Interval) -> (r: &mut Self)
        requires
            old(self).wf(),
            same_unit(start, interval),
        ensures
            r.wf(),
            r@ == old(self)@.since_every(start, interval),
            *final(self) == *final(r),
    {
        self.add_fragment(slot_index(start), pair_fragment(start, '/', interval));
        self
    }

    /// Runs at every point from `start` to `end` (`start-end`). Both are
    /// numeric and of one unit.
    pub fn from_to(&mut self, start: Interval, end: Interval) -> (r: &mut Self)
        requires
            old(self).wf(),
            same_unit(start, end),
        ensures
            r.wf(),
            r@ == old(self)@.from_to(start, end),
            *final(self) == *final(r),
    {
        self.add_fragment(slot_index(start), pair_fragment(start, '-', end));
        self
    }

    /// Appends the text of field `j` to `out`: what the field holds, else
    /// its default.
    fn push_field(&self, out: &mut String, j: usize)
        requires
            self.wf(),
            j < 7,
        ensures
            final(out)@ == old(out)@ + plain_text(self@.slots[j as int], j as int),
    {
        match &self.cron[j] {
            Some(text) => {
                out.append(text.as_str());
            },
            None => {
                if j < 3 {
                    out.push('0');
                } else {
                    out.push('*');
                }
            },
        }
        assert(out@ =~= old(out)@ + plain_text(self@.slots[j as int], j as int));
    }

    /// Appends the text that field `j` has in the expression to `out`, and
    /// says whether a field up to `j` is set. `below` says whether a field
    /// below `j` is.
    fn push_compiled(&self, out: &mut String, j: usize, below: bool) -> (set: bool)
        requires
            self.wf(),
            j < 7,
            below == set_below(self@.slots, j as int),
        ensures
            final(out)@ == old(out)@ + field_text(self@.slots, j as int),
            set == set_below(self@.slots, j + 1),
    {
        let set = match &self.cron[j] {
            Some(text) => {
                out.append(text.as_str());
                true
            },
            None => {
                if below || j >= 3 {
                    out.push('*');
                } else {
                    out.push('0');
                }
                below
            },
        };
        assert(out@ =~= old(out)@ + field_text(self@.slots, j as int));
        set
    }

    /// The cron expression that the fields compile to, the builder staying
    /// as it is: every empty field above a set one counts as `*`, any other
    /// empty field as `0` for second, minute and hour and as `*` for the
    /// others, and the seven are joined by single spaces.
    pub fn compile(&self) -> (text: String)
        requires
            self.wf(),
        ensures
            text@ == expression(self@.slots),
    {
        let mut text = String::new();
        let set = self.push_compiled(&mut text, 0, false);
        text.push(' ');
        let set = self.push_compiled(&mut text, 1, set);
        text.push(' ');
        let set = self.push_compiled(&mut text, 2, set);
        text.push(' ');
        let set = self.push_compiled(&mut text, 3, set);
        text.push(' ');
        let set = self.push_compiled(&mut text, 4, set);
        text.push(' ');
        let set = self.push_compiled(&mut text, 5, set);
        text.push(' ');
        let _ = self.push_compiled(&mut text, 6, set);
        assert(text@ =~= expression(self@.slots));
        text
    }

    /// Whether the expression that the fields compile to is one that the
    /// cron grammar accepts.
    pub fn is_accepted(&self) -> (accepted: bool)
        requires
            self.wf(),
        ensures
            accepted == self@.accepted(),
    {
        let text = self.compile();
        cron_is_valid(text.as_str())
    }

    /// Compiles the fields into a schedule where the cron grammar accepts
    /// their expression, as `build` does; where it does not, there is no
    /// schedule, and the builder stays as it is.
    pub fn try_build(&mut self) -> (schedule: Option<JobSchedule>)
        requires
            old(self).wf(),
        ensures
            final(self).wf(),
            schedule is Some <==> old(self)@.accepted(),
            schedule matches Some(built) ==> {
                &&& final(self)@ == old(self)@.settled()
                &&& built@ == old(self)@.compiled()
                &&& built.valid()
            },
            schedule is None ==> final(self)@ == old(self)@,
    {
        if self.is_accepted() {
            Some(self.build())
        } else {
            None
        }
    }

    /// Compiles the fields into a schedule. The expression that they
    /// compile to is one that the cron grammar accepts.
    ///
    /// First every empty field above a set one is filled with `*`, in the
    /// builder itself. Then the seven fields are joined by single spaces,
    /// an empty field counting as `0` for second, minute and hour and as
    /// `*` for the others.
    pub fn build(&mut self) -> (schedule: JobSchedule)
        requires
            old(self).wf(),
            old(self)@.accepted(),
        ensures
            final(self).wf(),
            final(self)@ == old(self)@.settled(),
            schedule@ == old(self)@.compiled(),
            schedule.valid(),
    {
        let ghost before = old(self)@.slots;
        let mut i: usize = 0;
        while i < 6
            invariant
                i <= 6,
                self.wf(),
                self@.with_slots(before) == old(self)@,
                before == old(self)@.slots,
                before.len() == 7,
                forall|j: int| 0 <= j <= i ==> self@.slots[j] == cascaded(before)[j],
                forall|j: int| i < j < 7 ==> self@.slots[j] == before[j],
            decreases 6 - i,
        {
            proof {
                let up = i as int + 1;
                assert(set_below(before, up) == (before[up - 1] is Some || set_below(
                    before,
                    up - 1,
                )));
                assert(self@.slots[i as int] == cascaded(before)[i as int]);
                assert(self@.slots[up] == before[up]);
            }
            if self.cron[i].is_some() && self.cron[i + 1].is_none() {
                let mut star = String::new();
                star.push('*');
                assert(star@ =~= seq!['*']);
                self.set_field(i + 1, star);
            }
            assert(self@.slots[i as int + 1] == cascaded(before)[i as int + 1]);
            i += 1;
        }
        assert(self@.slots =~= cascaded(before));
        let mut text = String::new();
        self.push_field(&mut text, 0);
        text.push(' ');
        self.push_field(&mut text, 1);
        text.push(' ');
        self.push_field(&mut text, 2);
        text.push(' ');
        self.push_field(&mut text, 3);
        text.push(' ');
        self.push_field(&mut text, 4);
        text.push(' ');
        self.push_field(&mut text, 5);
        text.push(' ');
        self.push_field(&mut text, 6);
        assert(text@ =~= expression(before));
        JobSchedule {
            cron: text,
            repeat: self.repeat,
            interval: self.interval,
            since: self.since,
            is_async: self.is_async,
            delay: self.delay,
        }
    }
}

/// The instant that a since-gate holds a job back to, as seen at `now` in the
/// zone `east` seconds east of UTC: the date of the since-gate, or today where it
/// names none, at the time of the since-gate, or midnight where it names none.
/// `None` for a since-gate that names neither, and for one whose date and time
/// the calendar does not have.
pub open spec fn since_target(since: SinceGate, now: u64, east: i32) -> Option<i64> {
    if since.0 is None && since.1 is None {
        None
    } else {
        let date = match since.0 {
            Some(d) => d,
            None => civil_date_at(now, east),
        };
        let time = match since.1 {
            Some(t) => t,
            None => (0u32, 0u32, 0u32),
        };
        civil_instant(date.0, date.1, date.2, time.0, time.1, time.2, east)
    }
}

/// The seconds from `now` to the instant `target`, where that instant lies
/// ahead.
pub open spec fn wait_until(target: Option<i64>, now: u64) -> Option<i64> {
    match target {
        Some(t) => if t - now > 0 {
            Some((t - now) as i64)
        } else {
            None
        },
        None => None,
    }
}

/// The seconds to wait from `now` until `target`, where it lies ahead.
pub fn seconds_until(target: Option<i64>, now: u64) -> (wait: Option<i64>)
    ensures
        wait == wait_until(target, now),
{
    match target {
        Some(t) => {
            let gap: i128 = t as i128 - now as i128;
            if gap > 0 {
                Some(gap as i64)
            } else {
                None
            }
        },
        None => None,
    }
}

impl JobSchedule {
    /// Whether the expression of the schedule is one that the cron grammar
    /// accepts.
    pub open spec fn valid(&self) -> bool {
        cron_accepts(self.cron@)
    }

    /// Whether the expression of the schedule is one that the cron grammar
    /// accepts.
    pub fn is_valid(&self) -> (valid: bool)
        ensures
            valid == self.valid(),
    {
        cron_is_valid(self.cron.as_str())
    }

    /// The seconds that the since-gate of the schedule holds a firing back at
    /// `now`: the time left until the instant of the since-gate, where the since-gate
    /// names one and it lies ahead.
    pub fn get_since_delay_sec(&self, now: u64, tz: Zone) -> (wait: Option<i64>)
        requires
            now <= MAX_INSTANT,
        ensures
            wait == wait_until(since_target(self.since, now, tz.offset()), now),
    {
        let east = tz.east_seconds();
        let (ymd, hms) = self.since;
        if ymd.is_none() && hms.is_none() {
            return None;
        }
        let date = match ymd {
            Some(d) => d,
            None => civil_date(now, east),
        };
        let time = match hms {
            Some(t) => t,
            None => (0u32, 0u32, 0u32),
        };
        let target = civil_timestamp(date.0, date.1, date.2, time.0, time.1, time.2, east);
        seconds_until(target, now)
    }
}

} // verus!
