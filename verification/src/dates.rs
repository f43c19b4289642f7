//! Calendar dates in the local time zone and the date-based section labels.
use chrono::{DateTime, Datelike, Local, NaiveDate, NaiveDateTime, TimeZone, Timelike};
use vstd::prelude::*;

use crate::grouping::GroupMode;
use crate::text::push_char;

verus! {

/// Whether `y` is a leap year of the proleptic Gregorian calendar.
pub open spec fn is_leap_year(y: int) -> bool {
    y % 4 == 0 && (y % 100 != 0 || y % 400 == 0)
}

/// The number of days in month `m` (1-12) of year `y`.
pub open spec fn days_in_month(y: int, m: int) -> int {
    if m == 2 {
        if is_leap_year(y) { 29 } else { 28 }
    } else if m == 4 || m == 6 || m == 9 || m == 11 {
        30
    } else {
        31
    }
}

/// The days of year `y` before month `m` (1-12).
pub open spec fn days_before_month(y: int, m: int) -> int {
    let leap = if is_leap_year(y) && m > 2 { 1int } else { 0int };
    leap + if m == 1 {
        0int
    } else if m == 2 {
        31
    } else if m == 3 {
        59
    } else if m == 4 {
        90
    } else if m == 5 {
        120
    } else if m == 6 {
        151
    } else if m == 7 {
        181
    } else if m == 8 {
        212
    } else if m == 9 {
        243
    } else if m == 10 {
        273
    } else if m == 11 {
        304
    } else {
        334
    }
}

/// The day number of a date in the proleptic Gregorian calendar, January 1
/// of year 1 being day 1 (what chrono's `num_days_from_ce` gives).
pub open spec fn days_from_ce(y: int, m: int, d: int) -> int {
    let p = y - 1;
    p * 365 + p / 4 - p / 100 + p / 400 + days_before_month(y, m) + d
}

/// The day number of chrono's first date, January 1 of year -262143.
pub open spec fn first_day() -> int {
    -95746129
}

/// Whether chrono represents the date with this day number: from January 1
/// of year -262143 (`NaiveDate::MIN`) to December 31 of year 262142
/// (`NaiveDate::MAX`).
pub open spec fn representable_day(days: int) -> bool {
    first_day() <= days <= 95745399
}

/// The day number (January 1 of year 1 being day 1) of the UTC day that
/// holds Unix second `secs`; January 1, 1970 is day 719163.
pub open spec fn utc_day_of_second(secs: int) -> int {
    secs / 86400 + 719163
}

/// Whether year, month and day name a real date of the proleptic Gregorian
/// calendar.
pub open spec fn is_real_date(y: int, m: int, d: int) -> bool {
    1 <= m <= 12 && 1 <= d <= days_in_month(y, m)
}

/// The year, month and day of the date with day number `day`.
pub open spec fn date_of_day(day: int) -> (int, int, int) {
    choose|y: int, m: int, d: int| is_real_date(y, m, d) && days_from_ce(y, m, d) == day
}

/// Two decimal digits of `n` (below 100).
pub open spec fn two_digits(n: int) -> Seq<char> {
    seq![crate::grouping::digit_char(n / 10), crate::grouping::digit_char(n % 10)]
}

/// An offset of `offset` seconds east of UTC as RFC 3339 text: its sign
/// (`+` for zero), then hours and minutes of its size rounded to the
/// nearest minute, two digits each, with a colon between.
pub open spec fn spec_offset_text(offset: int) -> Seq<char> {
    let size: int = if offset < 0 { -offset } else { offset };
    let minutes = (size + 30) / 60;
    seq![if offset < 0 { '-' } else { '+' }] + two_digits(minutes / 60) + seq![':'] + two_digits(
        minutes % 60,
    )
}

/// Unix second `secs` read at `offset` seconds east of UTC, written as
/// chrono's `to_rfc3339` writes a whole second:
/// `YYYY-MM-DDTHH:MM:SS` of the local reading, then the offset.
pub open spec fn spec_rfc3339(secs: int, offset: int) -> Seq<char> {
    let local = secs + offset;
    let (y, m, d) = date_of_day(utc_day_of_second(local));
    let t = local % 86400;
    spec_year_text(y as i32) + seq!['-'] + two_digits(m) + seq!['-'] + two_digits(d) + seq!['T']
        + two_digits(t / 3600) + seq![':'] + two_digits(t % 3600 / 60) + seq![':'] + two_digits(t % 60)
        + spec_offset_text(offset)
}

/// Whether `text` is the RFC 3339 writing of Unix second `secs` at some
/// offset of less than a day either way, as a time zone can give.
pub open spec fn is_local_rfc3339(text: Seq<char>, secs: int) -> bool {
    exists|offset: int| -86400 < offset < 86400 && text == #[trigger] spec_rfc3339(secs, offset)
}

/// A calendar date: year, month (1-12), day of the month and its day
/// number counted from January 1 of year 1.
#[derive(Debug, Clone, Copy, PartialEq, Eq, Structural)]
pub struct CivilDate {
    pub year: i32,
    pub month: u32,
    pub day: u32,
    pub day_number: i64,
}

impl CivilDate {
    /// A real date that chrono represents, with its own day number.
    pub open spec fn wf(self) -> bool {
        &&& 1 <= self.month <= 12
        &&& 1 <= self.day <= days_in_month(self.year as int, self.month as int)
        &&& self.day_number == days_from_ce(self.year as int, self.month as int, self.day as int)
        &&& representable_day(self.day_number as int)
    }
}

/// Today's date in the machine's time zone (`Local::now().date_naive()`,
/// read as year, month, day and `num_days_from_ce`). It depends on the
/// clock and the time zone, so only that it is a date is stated.
#[verifier::external_body]
fn local_today() -> (today: CivilDate)
    ensures
        today.wf(),
{
    let d = Local::now().date_naive();
    CivilDate { year: d.year(), month: d.month(), day: d.day(), day_number: d.num_days_from_ce() as i64 }
}

/// The day before `date` (`NaiveDate::from_num_days_from_ce_opt`, then
/// `pred_opt`): the date whose day number is one less, `None` for chrono's
/// first date.
#[verifier::external_body]
fn previous_day(date: CivilDate) -> (before: Option<CivilDate>)
    requires
        date.wf(),
    ensures
        before is None <==> date.day_number == first_day(),
        before matches Some(b) ==> b.wf() && b.day_number == date.day_number - 1,
{
    NaiveDate::from_num_days_from_ce_opt(date.day_number as i32).and_then(|d| d.pred_opt()).map(
        |d| CivilDate { year: d.year(), month: d.month(), day: d.day(), day_number: d.num_days_from_ce() as i64 },
    )
}

/// The local date of the instant `millis` milliseconds after the Unix
/// epoch: `DateTime::from_timestamp_millis`, then the UTC time moved by the
/// machine's offset at that instant (`Local.offset_from_utc_datetime`,
/// `NaiveDateTime::checked_add_offset`) and its date. It is a date exactly
/// when the instant's UTC day and that day moved by the offset (less than a
/// day either way) are both in chrono's range; the local date is that UTC
/// day or one next to it. Which one depends on the time zone.
#[verifier::external_body]
fn local_date_of_millis(millis: i64) -> (date: Option<CivilDate>)
    ensures
        date is Some ==> representable_day(utc_day_of_second(millis as int / 1000)),
        representable_day(utc_day_of_second(millis as int / 1000) - 1) && representable_day(
            utc_day_of_second(millis as int / 1000) + 1,
        ) ==> date is Some,
        date matches Some(d) ==> d.wf() && utc_day_of_second(millis as int / 1000) - 1 <= d.day_number
            <= utc_day_of_second(millis as int / 1000) + 1,
{
    DateTime::from_timestamp_millis(millis).and_then(|t| t.naive_utc().checked_add_offset(Local.offset_from_utc_datetime(&t.naive_utc()))).map(
        |l| CivilDate { year: l.year(), month: l.month(), day: l.day(), day_number: l.date().num_days_from_ce() as i64 },
    )
}

/// The local date of Unix second `secs`: `DateTime::from_timestamp(secs,
/// 0)`, then the UTC time moved by the machine's offset at that instant
/// (`Local.offset_from_utc_datetime`, `NaiveDateTime::checked_add_offset`)
/// and its date; as for milliseconds, a date exactly when both the UTC day
/// and the local day are in chrono's range, and within a day of the UTC
/// day.
#[verifier::external_body]
fn local_date_of_secs(secs: i64) -> (date: Option<CivilDate>)
    ensures
        date is Some ==> representable_day(utc_day_of_second(secs as int)),
        representable_day(utc_day_of_second(secs as int) - 1) && representable_day(
            utc_day_of_second(secs as int) + 1,
        ) ==> date is Some,
        date matches Some(d) ==> d.wf() && utc_day_of_second(secs as int) - 1 <= d.day_number
            <= utc_day_of_second(secs as int) + 1,
{
    DateTime::from_timestamp(secs, 0).and_then(|t| t.naive_utc().checked_add_offset(Local.offset_from_utc_datetime(&t.naive_utc()))).map(
        |l| CivilDate { year: l.year(), month: l.month(), day: l.day(), day_number: l.date().num_days_from_ce() as i64 },
    )
}

/// The local time of Unix second `secs` written as RFC 3339:
/// `Local.timestamp_opt(secs, 0).single()` and `DateTime::to_rfc3339`.
/// There is a text exactly when chrono places the instant, that is when
/// its UTC day is in range; the text is [`spec_rfc3339`] of the instant at
/// the machine's offset there, which is less than a day either way and
/// depends on the time zone. For an instant whose neighbouring UTC days lie
/// outside chrono's range, chrono writes a local date past its own range,
/// and what it writes there is not stated.
#[verifier::external_body]
pub(crate) fn local_rfc3339(secs: i64) -> (text: Option<String>)
    ensures
        text is Some <==> representable_day(utc_day_of_second(secs as int)),
        text matches Some(t) ==> (representable_day(utc_day_of_second(secs as int) - 1)
            && representable_day(utc_day_of_second(secs as int) + 1) ==> is_local_rfc3339(t@, secs as int)),
{
    Local.timestamp_opt(secs, 0).single().map(|t| t.to_rfc3339())
}

/// Whether `yesterday` is the day before `today`, or `today` itself when
/// today is chrono's first date.
pub open spec fn is_day_before(yesterday: CivilDate, today: CivilDate) -> bool {
    ||| yesterday.day_number == today.day_number - 1
    ||| yesterday == today && today.day_number == first_day()
}

/// Today in the local time zone and the day before (today again when
/// chrono has no earlier date).
pub fn local_today_and_yesterday() -> (days: (CivilDate, CivilDate))
    ensures
        days.0.wf(),
        days.1.wf(),
        is_day_before(days.1, days.0),
{
    let today = local_today();
    let yesterday = match previous_day(today) {
        Some(day) => day,
        None => today,
    };
    (today, yesterday)
}

/// What the local date of an instant on UTC day `utc_day` can be: none
/// outside chrono's range, one inside it away from its edges, and then a
/// date within a day of `utc_day`.
pub open spec fn local_day_of_instant(date: Option<CivilDate>, utc_day: int) -> bool {
    &&& date is Some ==> representable_day(utc_day)
    &&& representable_day(utc_day - 1) && representable_day(utc_day + 1) ==> date is Some
    &&& date matches Some(d) ==> d.wf() && utc_day - 1 <= d.day_number <= utc_day + 1
}

/// The local date of a millisecond Unix timestamp (see
/// [`local_day_of_instant`]).
pub fn local_date_from_millis(millis: i64) -> (date: Option<CivilDate>)
    ensures
        local_day_of_instant(date, utc_day_of_second(millis as int / 1000)),
{
    local_date_of_millis(millis)
}

/// The local date of a second Unix timestamp (see [`local_day_of_instant`]).
pub fn local_date_from_secs(secs: i64) -> (date: Option<CivilDate>)
    ensures
        local_day_of_instant(date, utc_day_of_second(secs as int)),
{
    local_date_of_secs(secs)
}

/// English abbreviation of month `m` (1-12).
pub open spec fn spec_month_abbrev(m: u32) -> Seq<char> {
    if m == 1 {
        seq!['J', 'a', 'n']
    } else if m == 2 {
        seq!['F', 'e', 'b']
    } else if m == 3 {
        seq!['M', 'a', 'r']
    } else if m == 4 {
        seq!['A', 'p', 'r']
    } else if m == 5 {
        seq!['M', 'a', 'y']
    } else if m == 6 {
        seq!['J', 'u', 'n']
    } else if m == 7 {
        seq!['J', 'u', 'l']
    } else if m == 8 {
        seq!['A', 'u', 'g']
    } else if m == 9 {
        seq!['S', 'e', 'p']
    } else if m == 10 {
        seq!['O', 'c', 't']
    } else if m == 11 {
        seq!['N', 'o', 'v']
    } else {
        seq!['D', 'e', 'c']
    }
}

/// Zero-padded decimal digits of `n`, at least `width` of them.
pub open spec fn spec_padded(n: nat, width: nat) -> Seq<char>
    decreases width,
{
    let digits = crate::grouping::spec_decimal(n);
    if digits.len() >= width {
        digits
    } else {
        seq!['0'] + spec_padded(n, (width - 1) as nat)
    }
}

/// A year as chrono's `%Y` writes it: four zero-padded digits for years 0
/// to 9999, otherwise a sign and at least four digits.
pub open spec fn spec_year_text(year: i32) -> Seq<char> {
    if 0 <= year <= 9999 {
        spec_padded(year as nat, 4)
    } else if year < 0 {
        seq!['-'] + spec_padded((-year) as nat, 4)
    } else {
        seq!['+'] + spec_padded(year as nat, 4)
    }
}

/// `%b %Y`: month abbreviation, space, year.
pub open spec fn spec_month_year_label(date: CivilDate) -> Seq<char> {
    spec_month_abbrev(date.month) + seq![' '] + spec_year_text(date.year)
}

/// `%d %b %Y`: two-digit day, month abbreviation, year.
pub open spec fn spec_day_month_year_label(date: CivilDate) -> Seq<char> {
    spec_padded(date.day as nat, 2) + seq![' '] + spec_month_year_label(date)
}

pub(crate) fn push_all(s: &mut String, chars: &[char])
    ensures
        final(s)@ == old(s)@ + chars@,
{
    for i in 0..chars.len()
        invariant
            s@ == old(s)@ + chars@.take(i as int),
    {
        push_char(s, chars[i]);
        assert(chars@.take(i + 1) =~= chars@.take(i as int).push(chars@[i as int]));
        assert(old(s)@ + chars@.take(i + 1) =~= old(s)@ + chars@.take(i as int) + seq![chars@[i as int]]);
    }
    assert(chars@.take(chars@.len() as int) =~= chars@);
}

fn month_abbrev(m: u32) -> (text: Vec<char>)
    ensures
        text@ == spec_month_abbrev(m),
{
    let t = if m == 1 {
        vec!['J', 'a', 'n']
    } else if m == 2 {
        vec!['F', 'e', 'b']
    } else if m == 3 {
        vec!['M', 'a', 'r']
    } else if m == 4 {
        vec!['A', 'p', 'r']
    } else if m == 5 {
        vec!['M', 'a', 'y']
    } else if m == 6 {
        vec!['J', 'u', 'n']
    } else if m == 7 {
        vec!['J', 'u', 'l']
    } else if m == 8 {
        vec!['A', 'u', 'g']
    } else if m == 9 {
        vec!['S', 'e', 'p']
    } else if m == 10 {
        vec!['O', 'c', 't']
    } else if m == 11 {
        vec!['N', 'o', 'v']
    } else {
        vec!['D', 'e', 'c']
    };
    assert(t@ =~= spec_month_abbrev(m));
    t
}

fn padded(n: u64, width: usize) -> (text: Vec<char>)
    ensures
        text@ == spec_padded(n as nat, width as nat),
    decreases width,
{
    let digits = crate::grouping::decimal_digits(n);
    if digits.len() >= width {
        digits
    } else {
        let rest = padded(n, width - 1);
        let mut text = vec!['0'];
        for i in 0..rest.len()
            invariant
                text@ == seq!['0'] + rest@.take(i as int),
        {
            text.push(rest[i]);
            assert(rest@.take(i + 1) =~= rest@.take(i as int).push(rest@[i as int]));
            assert(seq!['0'] + rest@.take(i + 1) =~= (seq!['0'] + rest@.take(i as int)).push(rest@[i as int]));
        }
        assert(rest@.take(rest@.len() as int) =~= rest@);
        text
    }
}

fn year_text(year: i32) -> (text: Vec<char>)
    ensures
        text@ == spec_year_text(year),
{
    if 0 <= year && year <= 9999 {
        padded(year as u64, 4)
    } else {
        let (sign, magnitude) = if year < 0 {
            ('-', (-(year as i64)) as u64)
        } else {
            ('+', year as u64)
        };
        let digits = padded(magnitude, 4);
        let mut text = vec![sign];
        for i in 0..digits.len()
            invariant
                text@ == seq![sign] + digits@.take(i as int),
        {
            text.push(digits[i]);
            assert(digits@.take(i + 1) =~= digits@.take(i as int).push(digits@[i as int]));
            assert(seq![sign] + digits@.take(i + 1) =~= (seq![sign] + digits@.take(i as int)).push(
                digits@[i as int],
            ));
        }
        assert(digits@.take(digits@.len() as int) =~= digits@);
        text
    }
}

/// `Mon YYYY` label of a date.
pub fn month_year_label(date: CivilDate) -> (label: String)
    ensures
        label@ == spec_month_year_label(date),
{
    let mut label = String::new();
    push_all(&mut label, month_abbrev(date.month).as_slice());
    push_char(&mut label, ' ');
    push_all(&mut label, year_text(date.year).as_slice());
    assert(label@ =~= spec_month_year_label(date));
    label
}

/// `DD Mon YYYY` label of a date.
pub fn day_month_year_label(date: CivilDate) -> (label: String)
    ensures
        label@ == spec_day_month_year_label(date),
{
    let mut label = String::new();
    push_all(&mut label, padded(date.day as u64, 2).as_slice());
    push_char(&mut label, ' ');
    push_all(&mut label, month_abbrev(date.month).as_slice());
    push_char(&mut label, ' ');
    push_all(&mut label, year_text(date.year).as_slice());
    assert(label@ =~= spec_day_month_year_label(date));
    label
}

/// Whether a date lies at most two days from a wall clock's own day.
pub open spec fn within_two_days(d: CivilDate, c: WallClock) -> bool {
    let own = days_from_ce(c.year as int, c.month as int, c.day as int);
    own - 2 <= d.day_number <= own + 2
}

/// Whether a date is the calendar day of a wall clock.
pub open spec fn is_clock_day(d: CivilDate, c: WallClock) -> bool {
    d.year == c.year && d.month == c.month && d.day == c.day
}

/// The date a stored photo date denotes: RFC 3339 first (its instant's
/// local date, at most two days from the text's own day), then `%Y-%m-%d %H:%M:%S`, then `%Y-%m-%d %H-%M-%S` (the
/// wall clock's own day, with no date when the time zone gives that local
/// time no single instant). The first format that parses decides.
pub fn parse_photo_date(value: &str) -> (date: Option<CivilDate>)
    ensures
        date matches Some(d) ==> d.wf(),
        rfc3339_wall_clock(value@) matches Some(c) ==> (date matches Some(d) && within_two_days(d, c)),
        rfc3339_wall_clock(value@) is None ==> match naive_wall_clock(value@, "%Y-%m-%d %H:%M:%S"@) {
            Some(c) => date matches Some(d) ==> is_clock_day(d, c),
            None => match naive_wall_clock(value@, "%Y-%m-%d %H-%M-%S"@) {
                Some(c) => date matches Some(d) ==> is_clock_day(d, c),
                None => date is None,
            },
        },
{
    if let Some((_, day)) = parse_rfc3339(value) {
        return Some(day);
    }
    if let Some((_, day, single)) = parse_naive(value, "%Y-%m-%d %H:%M:%S") {
        return if single { Some(day) } else { None };
    }
    if let Some((_, day, single)) = parse_naive(value, "%Y-%m-%d %H-%M-%S") {
        return if single { Some(day) } else { None };
    }
    None
}

/// Whether two dates are the same calendar day.
pub open spec fn same_day(a: CivilDate, b: CivilDate) -> bool {
    a.year == b.year && a.month == b.month && a.day == b.day
}

/// History section of an edit made at `edited_at` (milliseconds), given the
/// local date of that instant, today and yesterday: Today, Yesterday,
/// Earlier This Week (within seven days), Earlier This Month (same calendar
/// month), else `Mon YYYY`; Unknown Date for a missing time.
pub open spec fn spec_history_label(
    edited_at: i64,
    date: Option<CivilDate>,
    today: CivilDate,
    yesterday: CivilDate,
) -> Seq<char> {
    if edited_at <= 0 {
        "Unknown Date"@
    } else {
        match date {
            None => "Unknown Date"@,
            Some(d) => if same_day(d, today) {
                "Today"@
            } else if same_day(d, yesterday) {
                "Yesterday"@
            } else if today.day_number - d.day_number <= 7 {
                "Earlier This Week"@
            } else if d.year == today.year && d.month == today.month {
                "Earlier This Month"@
            } else {
                spec_month_year_label(d)
            },
        }
    }
}

/// History section label from the edit time and the dates it was read
/// against.
pub fn history_label_for(
    edited_at: i64,
    date: Option<CivilDate>,
    today: CivilDate,
    yesterday: CivilDate,
) -> (label: String)
    requires
        today.wf(),
        date matches Some(d) ==> d.wf(),
    ensures
        label@ == spec_history_label(edited_at, date, today, yesterday),
{
    broadcast use vstd::string::group_string_axioms;

    if edited_at <= 0 {
        return "Unknown Date".to_string();
    }
    match date {
        None => "Unknown Date".to_string(),
        Some(d) => {
            if d.year == today.year && d.month == today.month && d.day == today.day {
                "Today".to_string()
            } else if d.year == yesterday.year && d.month == yesterday.month && d.day
                == yesterday.day {
                "Yesterday".to_string()
            } else if today.day_number - d.day_number <= 7 {
                "Earlier This Week".to_string()
            } else if d.year == today.year && d.month == today.month {
                "Earlier This Month".to_string()
            } else {
                month_year_label(d)
            }
        },
    }
}

/// Whether a History heading is the one for an edit at `edited_at`
/// milliseconds read against `today` and `yesterday` (the day before it),
/// `date` being a possible local date of that instant.
pub open spec fn explains_history_label(
    label: Seq<char>,
    edited_at: i64,
    date: Option<CivilDate>,
    today: CivilDate,
    yesterday: CivilDate,
) -> bool {
    &&& today.wf()
    &&& yesterday.wf()
    &&& is_day_before(yesterday, today)
    &&& edited_at > 0 ==> local_day_of_instant(date, utc_day_of_second(edited_at as int / 1000))
    &&& label == spec_history_label(edited_at, date, today, yesterday)
}

/// Sticky History heading for an edit made at `edited_at` milliseconds,
/// read against today's local date: [`spec_history_label`] of the edit's
/// local date, today and yesterday, whichever they are in the machine's
/// time zone.
pub fn history_group_label(edited_at: i64) -> (label: String)
    ensures
        edited_at <= 0 ==> label@ == "Unknown Date"@,
        exists|date: Option<CivilDate>, today: CivilDate, yesterday: CivilDate|
            #[trigger] explains_history_label(label@, edited_at, date, today, yesterday),
{
    if edited_at <= 0 {
        broadcast use vstd::string::group_string_axioms;

        let label = "Unknown Date".to_string();
        let (today, yesterday) = local_today_and_yesterday();
        assert(explains_history_label(label@, edited_at, None, today, yesterday));
        return label;
    }
    let date = local_date_from_millis(edited_at);
    let (today, yesterday) = local_today_and_yesterday();
    let label = history_label_for(edited_at, date, today, yesterday);
    assert(explains_history_label(label@, edited_at, date, today, yesterday));
    label
}

/// Date section label for Ungrouped, Day and Month grouping: Unknown Date
/// without a date, nothing when ungrouped, `Mon YYYY` by month, and Today,
/// Yesterday or `DD Mon YYYY` by day.
pub open spec fn spec_date_group_label(
    mode: GroupMode,
    date: Option<CivilDate>,
    today: CivilDate,
    yesterday: CivilDate,
) -> Seq<char> {
    match date {
        None => "Unknown Date"@,
        Some(d) => if mode == GroupMode::Month {
            spec_month_year_label(d)
        } else if mode == GroupMode::Day {
            if same_day(d, today) {
                "Today"@
            } else if same_day(d, yesterday) {
                "Yesterday"@
            } else {
                spec_day_month_year_label(d)
            }
        } else {
            Seq::empty()
        },
    }
}

/// Section label of a photo dated `date` for a date grouping `mode`.
pub fn date_group_label(
    mode: GroupMode,
    date: Option<CivilDate>,
    today: CivilDate,
    yesterday: CivilDate,
) -> (label: String)
    requires
        mode == GroupMode::Ungrouped || mode == GroupMode::Day || mode == GroupMode::Month,
    ensures
        label@ == spec_date_group_label(mode, date, today, yesterday),
{
    broadcast use vstd::string::group_string_axioms;

    match date {
        None => "Unknown Date".to_string(),
        Some(d) => {
            if mode == GroupMode::Month {
                month_year_label(d)
            } else if mode == GroupMode::Day {
                if d.year == today.year && d.month == today.month && d.day == today.day {
                    "Today".to_string()
                } else if d.year == yesterday.year && d.month == yesterday.month && d.day
                    == yesterday.day {
                    "Yesterday".to_string()
                } else {
                    day_month_year_label(d)
                }
            } else {
                String::new()
            }
        },
    }
}

/// The wall-clock reading of a date-time: year, month (1-12), day (1-31),
/// hour (0-23) and minute (0-59).
#[derive(Debug, Clone, Copy, PartialEq, Eq, Structural)]
pub struct WallClock {
    pub year: i32,
    pub month: u32,
    pub day: u32,
    pub hour: u32,
    pub minute: u32,
}

impl WallClock {
    pub open spec fn wf(self) -> bool {
        &&& 1 <= self.month <= 12
        &&& 1 <= self.day <= 31
        &&& self.hour < 24
        &&& self.minute < 60
    }
}

/// The wall-clock reading `DateTime::parse_from_rfc3339` finds in a text
/// (in the text's own offset), `None` when it does not parse.
pub uninterp spec fn rfc3339_wall_clock(value: Seq<char>) -> Option<WallClock>;

/// The wall-clock reading `NaiveDateTime::parse_from_str` finds in a text
/// for a format, `None` when it does not parse.
pub uninterp spec fn naive_wall_clock(value: Seq<char>, format: Seq<char>) -> Option<WallClock>;

/// `DateTime::parse_from_rfc3339`: `None` when the text does not parse;
/// otherwise its wall-clock reading in the text's own offset, which is
/// [`rfc3339_wall_clock`] of the text and a real date, and the local date
/// of that instant (`with_timezone(&Local)`, `date_naive`; RFC 3339 years
/// run from 0 to 9999, far inside chrono's range). The text's offset and
/// the machine's are each less than a day, so the local date is at most two
/// days from the wall clock's own day; which one it is depends on the time
/// zone.
#[verifier::external_body]
fn parse_rfc3339(value: &str) -> (parsed: Option<(WallClock, CivilDate)>)
    ensures
        parsed is Some <==> rfc3339_wall_clock(value@) is Some,
        parsed matches Some(p) ==> rfc3339_wall_clock(value@) == Some(p.0) && p.0.wf() && p.1.wf()
            && is_real_date(p.0.year as int, p.0.month as int, p.0.day as int)
            && within_two_days(p.1, p.0),
{
    DateTime::parse_from_rfc3339(value).ok().map(|t| {
        let clock = WallClock { year: t.year(), month: t.month(), day: t.day(), hour: t.hour(), minute: t.minute() };
        let d = t.with_timezone(&Local).date_naive();
        (clock, CivilDate { year: d.year(), month: d.month(), day: d.day(), day_number: d.num_days_from_ce() as i64 })
    })
}

/// `NaiveDateTime::parse_from_str` with `format`: `None` when the text does
/// not parse; otherwise its wall-clock reading, which is
/// [`naive_wall_clock`] of the text and format, the date of that reading
/// (`date`, with `num_days_from_ce`), and whether the machine's time zone
/// gives that local time a single instant
/// (`Local.from_local_datetime(..).single()`), which is not stated.
#[verifier::external_body]
fn parse_naive(value: &str, format: &str) -> (parsed: Option<(WallClock, CivilDate, bool)>)
    ensures
        parsed is Some <==> naive_wall_clock(value@, format@) is Some,
        parsed matches Some(p) ==> naive_wall_clock(value@, format@) == Some(p.0) && p.0.wf() && p.1.wf()
            && is_clock_day(p.1, p.0),
{
    NaiveDateTime::parse_from_str(value, format).ok().map(|t| {
        let clock = WallClock { year: t.year(), month: t.month(), day: t.day(), hour: t.hour(), minute: t.minute() };
        let d = t.date();
        let day = CivilDate { year: d.year(), month: d.month(), day: d.day(), day_number: d.num_days_from_ce() as i64 };
        (clock, day, Local.from_local_datetime(&t).single().is_some())
    })
}

/// The hour on a 12-hour clock (12 for midnight and noon).
pub open spec fn hour12(hour: u32) -> u32 {
    if hour % 12 == 0 { 12 } else { hour % 12 }
}

/// `%b %-d, %Y, %-I:%M %p`: month abbreviation, unpadded day, year, unpadded
/// 12-hour hour, two-digit minute and AM or PM.
pub open spec fn spec_wall_clock_text(c: WallClock) -> Seq<char> {
    spec_month_abbrev(c.month) + seq![' '] + crate::grouping::spec_decimal(c.day as nat) + seq![',', ' ']
        + spec_year_text(c.year) + seq![',', ' '] + crate::grouping::spec_decimal(hour12(c.hour) as nat) + seq![':']
        + spec_padded(c.minute as nat, 2) + seq![' '] + if c.hour < 12 {
        seq!['A', 'M']
    } else {
        seq!['P', 'M']
    }
}

/// How the info bar writes a stored date: an RFC 3339 or
/// `%Y-%m-%d %H:%M:%S` date-time as [`spec_wall_clock_text`], anything else
/// as it is.
pub open spec fn spec_format_date(value: Seq<char>) -> Seq<char> {
    match rfc3339_wall_clock(value) {
        Some(c) => spec_wall_clock_text(c),
        None => match naive_wall_clock(value, "%Y-%m-%d %H:%M:%S"@) {
            Some(c) => spec_wall_clock_text(c),
            None => value,
        },
    }
}

fn wall_clock_text(c: WallClock) -> (text: String)
    requires
        c.wf(),
    ensures
        text@ == spec_wall_clock_text(c),
{
    let mut text = String::new();
    push_all(&mut text, month_abbrev(c.month).as_slice());
    push_char(&mut text, ' ');
    push_all(&mut text, crate::grouping::decimal_digits(c.day as u64).as_slice());
    push_char(&mut text, ',');
    push_char(&mut text, ' ');
    push_all(&mut text, year_text(c.year).as_slice());
    push_char(&mut text, ',');
    push_char(&mut text, ' ');
    let h: u32 = if c.hour % 12 == 0 { 12 } else { c.hour % 12 };
    push_all(&mut text, crate::grouping::decimal_digits(h as u64).as_slice());
    push_char(&mut text, ':');
    push_all(&mut text, padded(c.minute as u64, 2).as_slice());
    push_char(&mut text, ' ');
    if c.hour < 12 {
        push_char(&mut text, 'A');
    } else {
        push_char(&mut text, 'P');
    }
    push_char(&mut text, 'M');
    assert(text@ =~= spec_wall_clock_text(c));
    text
}

/// A stored date as the info bar shows it (see [`spec_format_date`]).
pub fn format_date(value: &str) -> (text: String)
    ensures
        text@ == spec_format_date(value@),
{
    if let Some((c, _)) = parse_rfc3339(value) {
        return wall_clock_text(c);
    }
    if let Some((c, _, _)) = parse_naive(value, "%Y-%m-%d %H:%M:%S") {
        return wall_clock_text(c);
    }
    crate::text::string_of(&crate::text::chars_of(value))
}

/// Two zero-padded digits of a number below 100.
proof fn lemma_padded_two_digits(n: nat)
    requires
        n < 100,
    ensures
        spec_padded(n, 2) == seq![((n / 10) + 48) as char, ((n % 10) + 48) as char],
{
    if n < 10 {
        assert(crate::grouping::spec_decimal(n) == seq![crate::grouping::digit_char(n as int)]);
        assert(spec_padded(n, 1) == crate::grouping::spec_decimal(n));
        assert(spec_padded(n, 2) =~= seq!['0'] + spec_padded(n, 1));
        assert(seq!['0'] + seq![crate::grouping::digit_char(n as int)] =~= seq![
            ((n / 10) + 48) as char,
            ((n % 10) + 48) as char,
        ]);
    } else {
        assert(crate::grouping::spec_decimal(n / 10) == seq![crate::grouping::digit_char((n / 10) as int)]);
        assert(crate::grouping::spec_decimal(n) == crate::grouping::spec_decimal(n / 10).push(
            crate::grouping::digit_char((n % 10) as int),
        ));
        assert(crate::grouping::spec_decimal(n) =~= seq![((n / 10) + 48) as char, ((n % 10) + 48) as char]);
    }
}

/// In Day grouping a date that is neither today nor yesterday is headed by
/// its day of the month in two digits (zero-padded), then its month
/// abbreviation and year, each after a space; so two days of a month never
/// share a heading.
pub proof fn lemma_day_heading_starts_with_day(d: CivilDate, e: CivilDate, today: CivilDate, yesterday: CivilDate)
    requires
        d.wf(),
        e.wf(),
        !same_day(d, today),
        !same_day(d, yesterday),
        !same_day(e, today),
        !same_day(e, yesterday),
    ensures
        ({
            let l = spec_date_group_label(GroupMode::Day, Some(d), today, yesterday);
            &&& l.len() > 3
            &&& l[0] == ((d.day / 10) + 48) as char
            &&& l[1] == ((d.day % 10) + 48) as char
            &&& l[2] == ' '
            &&& l.subrange(3, 6) == spec_month_abbrev(d.month)
            &&& l[6] == ' '
            &&& l.skip(7) == spec_year_text(d.year)
        }),
        d.day != e.day ==> spec_date_group_label(GroupMode::Day, Some(d), today, yesterday)
            != spec_date_group_label(GroupMode::Day, Some(e), today, yesterday),
{
    lemma_padded_two_digits(d.day as nat);
    lemma_padded_two_digits(e.day as nat);
    let l = spec_date_group_label(GroupMode::Day, Some(d), today, yesterday);
    let m = spec_date_group_label(GroupMode::Day, Some(e), today, yesterday);
    assert(l == spec_padded(d.day as nat, 2) + seq![' '] + spec_month_year_label(d));
    assert(m == spec_padded(e.day as nat, 2) + seq![' '] + spec_month_year_label(e));
    assert(spec_month_abbrev(d.month).len() == 3);
    assert(l.subrange(3, 6) =~= spec_month_abbrev(d.month));
    assert(l.skip(7) =~= spec_year_text(d.year));
    assert(l[0] == spec_padded(d.day as nat, 2)[0]);
    assert(l[1] == spec_padded(d.day as nat, 2)[1]);
    assert(m[0] == spec_padded(e.day as nat, 2)[0]);
    assert(m[1] == spec_padded(e.day as nat, 2)[1]);
    if d.day != e.day {
        if d.day / 10 == e.day / 10 {
            assert(d.day % 10 != e.day % 10);
            assert(l[1] != m[1]);
        } else {
            assert(l[0] != m[0]);
        }
    }
}

/// The info bar's time of day ends in AM for hours before noon and in PM
/// from noon to 23:59.
pub proof fn lemma_wall_clock_marker(c: WallClock)
    ensures
        ({
            let t = spec_wall_clock_text(c);
            &&& t.len() >= 2
            &&& t[t.len() - 1] == 'M'
            &&& t[t.len() - 2] == (if c.hour >= 12 { 'P' } else { 'A' })
        }),
{
    let t = spec_wall_clock_text(c);
    let marker = if c.hour < 12 { seq!['A', 'M'] } else { seq!['P', 'M'] };
    let head = spec_month_abbrev(c.month) + seq![' '] + crate::grouping::spec_decimal(c.day as nat) + seq![',', ' ']
        + spec_year_text(c.year) + seq![',', ' '] + crate::grouping::spec_decimal(hour12(c.hour) as nat) + seq![':']
        + spec_padded(c.minute as nat, 2) + seq![' '];
    assert(t == head + marker);
    assert(t[t.len() - 1] == marker[1]);
    assert(t[t.len() - 2] == marker[0]);
}

/// The History heading of an edit is Today for today's date and
/// Yesterday for yesterday's (when that is not also today).
pub proof fn lemma_history_today_and_yesterday(edited_at: i64, d: CivilDate, today: CivilDate, yesterday: CivilDate)
    requires
        edited_at > 0,
    ensures
        same_day(d, today) ==> spec_history_label(edited_at, Some(d), today, yesterday) == "Today"@,
        !same_day(d, today) && same_day(d, yesterday) ==> spec_history_label(edited_at, Some(d), today, yesterday)
            == "Yesterday"@,
        !same_day(d, today) && !same_day(d, yesterday) && today.day_number - d.day_number <= 7
            ==> spec_history_label(edited_at, Some(d), today, yesterday) == "Earlier This Week"@,
        spec_history_label(edited_at, None, today, yesterday) == "Unknown Date"@,
        spec_history_label(0, Some(d), today, yesterday) == "Unknown Date"@,
{
}

/// In Day grouping today's photos are headed Today and yesterday's
/// Yesterday; photos without a date are under Unknown Date in every
/// grouping.
pub proof fn lemma_day_heading_today_and_yesterday(mode: GroupMode, d: CivilDate, today: CivilDate, yesterday: CivilDate)
    ensures
        same_day(d, today) ==> spec_date_group_label(GroupMode::Day, Some(d), today, yesterday) == "Today"@,
        !same_day(d, today) && same_day(d, yesterday) ==> spec_date_group_label(
            GroupMode::Day,
            Some(d),
            today,
            yesterday,
        ) == "Yesterday"@,
        spec_date_group_label(mode, None, today, yesterday) == "Unknown Date"@,
{
}

/// In Month grouping two dates share a heading when they are in the same
/// month of the same year, and dates of different months never do.
pub proof fn lemma_month_heading_groups_by_month(d: CivilDate, e: CivilDate, today: CivilDate, yesterday: CivilDate)
    requires
        d.wf(),
        e.wf(),
    ensures
        d.year == e.year && d.month == e.month ==> spec_date_group_label(GroupMode::Month, Some(d), today, yesterday)
            == spec_date_group_label(GroupMode::Month, Some(e), today, yesterday),
        d.month != e.month ==> spec_date_group_label(GroupMode::Month, Some(d), today, yesterday)
            != spec_date_group_label(GroupMode::Month, Some(e), today, yesterday),
{
    let l = spec_date_group_label(GroupMode::Month, Some(d), today, yesterday);
    let m = spec_date_group_label(GroupMode::Month, Some(e), today, yesterday);
    if d.month != e.month {
        assert(l.subrange(0, 3) =~= spec_month_abbrev(d.month));
        assert(m.subrange(0, 3) =~= spec_month_abbrev(e.month));
        assert(spec_month_abbrev(d.month) != spec_month_abbrev(e.month)) by {
            let a = spec_month_abbrev(d.month);
            let b = spec_month_abbrev(e.month);
            assert(a[0] != b[0] || a[1] != b[1] || a[2] != b[2]);
        }
    }
}

} // verus!
