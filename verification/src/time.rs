//! Clock parsing and the Europe/Rome calendar rules.
use vstd::prelude::*;

use crate::error::{outcome_is, SchedulerError};
use crate::models::{AvailabilityInstance, AvailabilityRow, Date, PlanningWeek, RomeDateTime, Weekday, weekday_of_number};
use crate::text::{all_digits, chars_of, digits_value, is_digit, is_whitespace, parse_i64_chars, parse_i64_spec, push_char, push_two_digits, trim, trim_bounds, trim_leading, trim_trailing, two_digits};
use crate::zone::{
    read_rfc3339, rfc3339_reading, read_as,
    date_day_month, day_and_month, day_of_seconds, is_plannable_instant, is_valid_day, is_valid_instant,
    naive_datetime_text, naive_local_text, resolve_rome_local, rome_offset, rome_offset_at, rome_resolution,
    LocalResolution, SECONDS_PER_DAY, UNIX_EPOCH_DAY,
};

verus! {

/// Minutes in one day.
pub const MINUTES_PER_DAY: i64 = 1440;

/// The end minute of an interval after the overnight rule: an end that is not
/// after the start falls on the following day.
pub open spec fn spec_normalize_end_minute(start_minute: int, end_minute: int) -> int {
    if end_minute <= start_minute {
        end_minute + 1440
    } else {
        end_minute
    }
}

/// Moves an end that is not after the start to the following day.
pub fn normalize_end_minute(start_minute: i64, end_minute: i64) -> (res: i64)
    requires
        end_minute <= start_minute ==> end_minute + 1440 <= i64::MAX,
    ensures
        res == spec_normalize_end_minute(start_minute as int, end_minute as int),
        0 <= start_minute < 1440 && 0 <= end_minute <= 1440 ==> start_minute < res <= start_minute + 1440,
{
    if end_minute <= start_minute {
        end_minute + MINUTES_PER_DAY
    } else {
        end_minute
    }
}

/// `:` or `.`, the two accepted separators between hours and minutes.
pub open spec fn is_clock_separator(c: char) -> bool {
    c == ':' || c == '.'
}

/// `p` is the only position of `t` that holds a separator.
pub open spec fn sole_separator_at(t: Seq<char>, p: int) -> bool {
    &&& 0 <= p < t.len()
    &&& is_clock_separator(t[p])
    &&& forall|k: int| 0 <= k < t.len() && k != p ==> !is_clock_separator(#[trigger] t[k])
}

/// The outcome of reading a clock time `HH:MM` or `HH.MM`: minutes since
/// midnight, or the text of the refusal. `24:00` is accepted as an end only.
pub open spec fn clock_outcome(input: Seq<char>, is_end: bool) -> Result<i64, Seq<char>> {
    let t = trim(input);
    if !(exists|p: int| sole_separator_at(t, p)) {
        Err("orario '"@ + input + "' non valido, usa HH:MM o HH.MM"@)
    } else {
        let p = choose|p: int| sole_separator_at(t, p);
        match parse_i64_spec(t.take(p)) {
            None => Err("ora non valida in '"@ + input + "'"@),
            Some(hour) => match parse_i64_spec(t.skip(p + 1)) {
                None => Err("minuti non validi in '"@ + input + "'"@),
                Some(minute) => if !(0 <= minute <= 59) {
                    Err("minuti fuori range in '"@ + input + "'"@)
                } else if hour == 24 && minute == 0 && is_end {
                    Ok(1440)
                } else if !(0 <= hour <= 23) {
                    Err("ora fuori range in '"@ + input + "'"@)
                } else {
                    Ok((hour * 60 + minute) as i64)
                },
            },
        }
    }
}

/// `b` is `a` with some separators swapped: they agree everywhere except at
/// positions where both hold a separator.
pub open spec fn separator_variant(a: Seq<char>, b: Seq<char>) -> bool {
    &&& a.len() == b.len()
    &&& forall|i: int| 0 <= i < a.len() ==> a[i] == b[i] || (is_clock_separator(a[i]) && is_clock_separator(b[i]))
}

proof fn lemma_variant_trim_leading(a: Seq<char>, b: Seq<char>)
    requires
        separator_variant(a, b),
    ensures
        separator_variant(trim_leading(a), trim_leading(b)),
    decreases a.len(),
{
    if a.len() > 0 && is_whitespace(a[0]) {
        assert(a[0] == b[0]);
        lemma_variant_trim_leading(a.drop_first(), b.drop_first());
    } else if b.len() > 0 && is_whitespace(b[0]) {
        assert(a[0] == b[0]);
    }
}

proof fn lemma_variant_trim_trailing(a: Seq<char>, b: Seq<char>)
    requires
        separator_variant(a, b),
    ensures
        separator_variant(trim_trailing(a), trim_trailing(b)),
    decreases a.len(),
{
    if a.len() > 0 && is_whitespace(a.last()) {
        assert(a[a.len() - 1] == b[b.len() - 1]);
        lemma_variant_trim_trailing(a.drop_last(), b.drop_last());
    } else if b.len() > 0 && is_whitespace(b.last()) {
        assert(a[a.len() - 1] == b[b.len() - 1]);
    }
}

/// `21:00` and `21.00` read alike: swapping the separator of a clock time
/// changes neither whether it is accepted nor the minute it stands for.
pub proof fn lemma_separators_read_alike(a: Seq<char>, b: Seq<char>, is_end: bool)
    requires
        separator_variant(a, b),
    ensures
        clock_outcome(a, is_end) is Ok <==> clock_outcome(b, is_end) is Ok,
        clock_outcome(a, is_end) is Ok ==> clock_outcome(a, is_end) == clock_outcome(b, is_end),
{
    let ta = trim(a);
    let tb = trim(b);
    lemma_variant_trim_leading(a, b);
    lemma_variant_trim_trailing(trim_leading(a), trim_leading(b));
    assert(separator_variant(ta, tb));
    assert forall|k: int| 0 <= k < ta.len() implies is_clock_separator(#[trigger] ta[k]) == is_clock_separator(tb[k]) by {
    }
    assert forall|p: int| sole_separator_at(ta, p) <==> sole_separator_at(tb, p) by {
        if sole_separator_at(ta, p) {
            assert forall|k: int| 0 <= k < tb.len() && k != p implies !is_clock_separator(#[trigger] tb[k]) by {
                assert(is_clock_separator(ta[k]) == is_clock_separator(tb[k]));
            }
        }
        if sole_separator_at(tb, p) {
            assert forall|k: int| 0 <= k < ta.len() && k != p implies !is_clock_separator(#[trigger] ta[k]) by {
                assert(is_clock_separator(ta[k]) == is_clock_separator(tb[k]));
            }
        }
    }
    if exists|p: int| sole_separator_at(ta, p) {
        let p = choose|p: int| sole_separator_at(ta, p);
        let q = choose|q: int| sole_separator_at(tb, q);
        assert(sole_separator_at(tb, p));
        if q != p {
            assert(!is_clock_separator(tb[q]));
        }
        assert(ta.take(p) =~= tb.take(p)) by {
            assert forall|k: int| 0 <= k < p implies ta[k] == tb[k] by {
                assert(!is_clock_separator(ta[k]));
            }
        }
        assert(ta.skip(p + 1) =~= tb.skip(p + 1)) by {
            assert forall|k: int| p + 1 <= k < ta.len() implies ta[k] == tb[k] by {
                assert(!is_clock_separator(ta[k]));
            }
        }
    }
}

/// A clock time that is read is a minute of the day: from 0 to 1439, or
/// 1440 when read as an end.
pub proof fn lemma_clock_range(input: Seq<char>, is_end: bool)
    ensures
        clock_outcome(input, is_end) is Ok ==> {
            let m = clock_outcome(input, is_end)->Ok_0;
            &&& 0 <= m <= 1440
            &&& (m == 1440 ==> is_end)
        },
{
}

/// `prefix`, the input, then `suffix`, as an invalid-input error.
fn input_error(prefix: &str, input: &str, suffix: &str) -> (res: SchedulerError)
    ensures
        res == SchedulerError::InvalidInput(res->InvalidInput_0),
        res->InvalidInput_0@ == prefix@ + input@ + suffix@,
{
    let mut s = String::from_str(prefix);
    s.append(input);
    s.append(suffix);
    SchedulerError::InvalidInput(s)
}

/// Reads a clock time written `HH:MM` or `HH.MM` (surrounding white space
/// allowed) as minutes since midnight. `24:00` is accepted only as an end,
/// and then stands for the midnight that closes the day (1440).
pub fn parse_clock(input: &str, is_end: bool) -> (res: Result<i64, SchedulerError>)
    ensures
        outcome_is(res, clock_outcome(input@, is_end)),
        res is Ok ==> 0 <= res->Ok_0 <= 1440,
        res is Ok && !is_end ==> res->Ok_0 < 1440,
        res is Ok && res->Ok_0 == 1440 ==> is_end,
{
    let cs = chars_of(input);
    let (a, b) = trim_bounds(&cs);
    let ghost t = cs@.subrange(a as int, b as int);
    assert(t == trim(input@));
    let mut first: usize = a;
    let mut seen: usize = 0;
    let mut i: usize = a;
    while i < b
        invariant
            a <= i <= b <= cs.len(),
            t == cs@.subrange(a as int, b as int),
            seen <= 2,
            seen == 0 ==> forall|k: int| a <= k < i ==> !is_clock_separator(#[trigger] cs@[k]),
            seen >= 1 ==> a <= first < i && is_clock_separator(cs@[first as int]),
            seen == 1 ==> forall|k: int| a <= k < i && k != first ==> !is_clock_separator(#[trigger] cs@[k]),
            seen == 2 ==> exists|k: int| a <= k < i && k != first && is_clock_separator(#[trigger] cs@[k]),
        decreases b - i,
    {
        let c = cs[i];
        if c == ':' || c == '.' {
            if seen == 0 {
                first = i;
                seen = 1;
            } else {
                seen = 2;
            }
        }
        i = i + 1;
    }
    if seen != 1 {
        proof {
            assert forall|p: int| !sole_separator_at(t, p) by {
                if sole_separator_at(t, p) {
                    assert(is_clock_separator(cs@[a + p]));
                    if seen == 2 {
                        let k = choose|k: int| a <= k < i && k != first && is_clock_separator(#[trigger] cs@[k]);
                        assert(t[first - a] == cs@[first as int]);
                        assert(t[k - a] == cs@[k]);
                    }
                }
            }
        }
        return Err(input_error("orario '", input, "' non valido, usa HH:MM o HH.MM"));
    }
    let ghost p = first - a;
    proof {
        assert(sole_separator_at(t, p)) by {
            assert forall|k: int| 0 <= k < t.len() && k != p implies !is_clock_separator(#[trigger] t[k]) by {
                assert(t[k] == cs@[a + k]);
            }
        }
        let q = choose|q: int| sole_separator_at(t, q);
        if q != p {
            assert(!is_clock_separator(t[q]));
        }
        assert(t.take(p) =~= cs@.subrange(a as int, first as int));
        assert(t.skip(p + 1) =~= cs@.subrange(first + 1, b as int));
    }
    let hour = match parse_i64_chars(&cs, a, first) {
        Some(h) => h,
        None => {
            return Err(input_error("ora non valida in '", input, "'"));
        },
    };
    let minute = match parse_i64_chars(&cs, first + 1, b) {
        Some(m) => m,
        None => {
            return Err(input_error("minuti non validi in '", input, "'"));
        },
    };
    if !(0 <= minute && minute <= 59) {
        return Err(input_error("minuti fuori range in '", input, "'"));
    }
    if hour == 24 && minute == 0 && is_end {
        return Ok(1440);
    }
    if !(0 <= hour && hour <= 23) {
        return Err(input_error("ora fuori range in '", input, "'"));
    }
    Ok(hour * 60 + minute)
}

/// The weekday that comes after `w`.
pub open spec fn next_weekday(w: Weekday) -> Weekday {
    match w {
        Weekday::Mon => Weekday::Tue,
        Weekday::Tue => Weekday::Wed,
        Weekday::Wed => Weekday::Thu,
        Weekday::Thu => Weekday::Fri,
        Weekday::Fri => Weekday::Sat,
        Weekday::Sat => Weekday::Sun,
        Weekday::Sun => Weekday::Mon,
    }
}

/// Weekdays run in the fixed order Monday to Sunday: day 1 of the calendar
/// (1 January of year 1) was a Monday, each next date falls on the next
/// weekday, and the weekday numbers count 1 to 7 from Monday in that order.
pub proof fn lemma_weekday_order(d: int, w: Weekday)
    ensures
        weekday_of_day(1) == Weekday::Mon,
        weekday_of_day(d + 1) == next_weekday(weekday_of_day(d)),
        weekday_number_of(Weekday::Mon) == 1,
        weekday_number_of(next_weekday(w)) == weekday_number_of(w) % 7 + 1,
{
    let r = (d - 1) % 7;
    assert((d + 1 - 1) % 7 == if r == 6 { 0 } else { r + 1 }) by {
        assert(d - 1 == 7 * ((d - 1) / 7) + r);
        assert(d == 7 * ((d - 1) / 7) + r + 1);
        if r == 6 {
            assert(d == 7 * ((d - 1) / 7 + 1));
        }
    }
}

/// The weekday numbers that the store keeps read back as the weekday they
/// were stored for: each number 1 to 7 reads as the weekday that has that
/// number, and each weekday's number reads as that weekday.
pub proof fn lemma_stored_weekday_round_trip(n: u32, w: Weekday)
    ensures
        1 <= n <= 7 ==> weekday_number_of(weekday_of_number(n)) == n,
        weekday_of_number(weekday_number_of(w)) == w,
{
}

/// The number of a weekday: 1 for Monday to 7 for Sunday.
pub open spec fn weekday_number_of(day: Weekday) -> u32 {
    match day {
        Weekday::Mon => 1,
        Weekday::Tue => 2,
        Weekday::Wed => 3,
        Weekday::Thu => 4,
        Weekday::Fri => 5,
        Weekday::Sat => 6,
        Weekday::Sun => 7,
    }
}

/// The weekday of a day count: day 1, 1 January of year 1, was a Monday.
pub open spec fn weekday_of_day(days: int) -> Weekday {
    let r = (days - 1) % 7;
    if r == 0 {
        Weekday::Mon
    } else if r == 1 {
        Weekday::Tue
    } else if r == 2 {
        Weekday::Wed
    } else if r == 3 {
        Weekday::Thu
    } else if r == 4 {
        Weekday::Fri
    } else if r == 5 {
        Weekday::Sat
    } else {
        Weekday::Sun
    }
}

/// The Italian name of a weekday.
pub open spec fn weekday_name(day: Weekday) -> Seq<char> {
    match day {
        Weekday::Mon => "lunedì"@,
        Weekday::Tue => "martedì"@,
        Weekday::Wed => "mercoledì"@,
        Weekday::Thu => "giovedì"@,
        Weekday::Fri => "venerdì"@,
        Weekday::Sat => "sabato"@,
        Weekday::Sun => "domenica"@,
    }
}

/// The number of a weekday, counted from Monday as 1.
pub fn weekday_number(day: Weekday) -> (n: u32)
    ensures
        n == weekday_number_of(day),
        1 <= n <= 7,
{
    match day {
        Weekday::Mon => 1,
        Weekday::Tue => 2,
        Weekday::Wed => 3,
        Weekday::Thu => 4,
        Weekday::Fri => 5,
        Weekday::Sat => 6,
        Weekday::Sun => 7,
    }
}

/// The Italian name of a weekday.
pub fn weekday_it(day: Weekday) -> (name: &'static str)
    ensures
        name@ == weekday_name(day),
{
    match day {
        Weekday::Mon => "lunedì",
        Weekday::Tue => "martedì",
        Weekday::Wed => "mercoledì",
        Weekday::Thu => "giovedì",
        Weekday::Fri => "venerdì",
        Weekday::Sat => "sabato",
        Weekday::Sun => "domenica",
    }
}

/// The weekday of a date.
pub fn weekday_of(date: Date) -> (day: Weekday)
    ensures
        day == weekday_of_day(date.days_from_ce as int),
{
    let r = (date.days_from_ce as i64 - 1).checked_rem_euclid(7).unwrap();
    if r == 0 {
        Weekday::Mon
    } else if r == 1 {
        Weekday::Tue
    } else if r == 2 {
        Weekday::Wed
    } else if r == 3 {
        Weekday::Thu
    } else if r == 4 {
        Weekday::Fri
    } else if r == 5 {
        Weekday::Sat
    } else {
        Weekday::Sun
    }
}

/// The date `days` days after `date` (before it, for a negative count).
pub fn add_days(date: Date, days: i64) -> (res: Date)
    requires
        is_valid_day(date.days_from_ce + days),
    ensures
        res.days_from_ce == date.days_from_ce + days,
{
    Date { days_from_ce: (date.days_from_ce as i64 + days) as i32 }
}

/// `HH:MM` for the minute `m` of a day (`0 <= m < 1440`).
pub open spec fn clock_text(m: int) -> Seq<char> {
    two_digits(m / 60) + seq![':'] + two_digits(m % 60)
}

proof fn lemma_two_digits_read(n: int)
    requires
        0 <= n < 100,
    ensures
        two_digits(n).len() == 2,
        all_digits(two_digits(n)),
        digits_value(two_digits(n)) == n,
        parse_i64_spec(two_digits(n)) == Some(n),
{
    let s = two_digits(n);
    let a = n / 10;
    let b = n % 10;
    assert(s[0] as int == 48 + a);
    assert(s[1] as int == 48 + b);
    assert(is_digit(s[0]) && is_digit(s[1]));
    assert(all_digits(s));
    assert(s.drop_last() =~= seq![s[0]]);
    let one = seq![s[0]];
    assert(one.drop_last() =~= Seq::<char>::empty());
    assert(digits_value(one.drop_last()) == 0);
    assert(one.last() == s[0]);
    assert(digits_value(one) == digits_value(one.drop_last()) * 10 + (one.last() as int - 48));
    assert(digits_value(one) == a);
    assert(s.last() == s[1]);
    assert(digits_value(s) == digits_value(s.drop_last()) * 10 + (s.last() as int - 48));
    assert(digits_value(s) == a * 10 + b);
}

/// What `format_time` writes reads back through `parse_clock` as the same
/// minute, as a start or as an end: five characters `HH:MM`, the same for
/// counts of minutes a whole number of days apart.
pub proof fn lemma_clock_text_reads_back(minutes: int, days: int, is_end: bool)
    ensures
        clock_text(minutes % 1440).len() == 5,
        clock_text((minutes + 1440 * days) % 1440) == clock_text(minutes % 1440),
        clock_outcome(clock_text(minutes % 1440), is_end) == Ok::<i64, Seq<char>>((minutes % 1440) as i64),
{
    let m = minutes % 1440;
    assert((minutes + 1440 * days) % 1440 == m) by {
        vstd::arithmetic::div_mod::lemma_mod_multiples_vanish(days, minutes, 1440);
    }
    let h = m / 60;
    let mm = m % 60;
    lemma_two_digits_read(h);
    lemma_two_digits_read(mm);
    let t = clock_text(m);
    assert(t.len() == 5);
    assert(t[0] == two_digits(h)[0] && t[1] == two_digits(h)[1] && t[2] == ':');
    assert(t[3] == two_digits(mm)[0] && t[4] == two_digits(mm)[1]);
    assert(!is_whitespace(t[0]));
    assert(trim_leading(t) == t);
    assert(!is_whitespace(t.last()));
    assert(trim_trailing(t) == t);
    assert(trim(t) == t);
    assert(sole_separator_at(t, 2));
    let p = choose|p: int| sole_separator_at(t, p);
    if p != 2 {
        assert(!is_clock_separator(t[p]));
    }
    assert(t.take(2) =~= two_digits(h));
    assert(t.skip(3) =~= two_digits(mm));
    assert(h * 60 + mm == m);
}

/// The time of day of a count of minutes, wrapped into a single day, as
/// `HH:MM`.
pub fn format_time(minutes: i64) -> (res: String)
    ensures
        res@ == clock_text(minutes as int % 1440),
{
    let m = minutes.checked_rem_euclid(1440).unwrap();
    let mut s = String::new();
    push_two_digits(&mut s, (m / 60) as u32);
    push_char(&mut s, ':');
    push_two_digits(&mut s, (m % 60) as u32);
    s
}

/// `DD/MM` of a day count.
pub open spec fn date_label(days: int) -> Seq<char> {
    let dm = day_and_month(days as i32);
    two_digits(dm.0 as int) + seq!['/'] + two_digits(dm.1 as int)
}

/// A date as `DD/MM`.
pub fn format_local_date(date: Date) -> (res: String)
    requires
        is_valid_day(date.days_from_ce as int),
    ensures
        res@ == date_label(date.days_from_ce as int),
{
    let (day, month) = date_day_month(date);
    let mut s = String::new();
    push_two_digits(&mut s, day);
    push_char(&mut s, '/');
    push_two_digits(&mut s, month);
    s
}

/// The instant `utc` seen from Europe/Rome.
pub open spec fn rome_view(utc: i64) -> RomeDateTime {
    RomeDateTime { utc, local: (utc + rome_offset(utc)) as i64 }
}

/// An instant seen from Europe/Rome (`with_timezone(&Europe::Rome)`).
pub fn to_rome(utc: i64) -> (res: RomeDateTime)
    requires
        is_valid_instant(utc as int),
    ensures
        res == rome_view(utc),
        utc - 86400 < res.local < utc + 86400,
{
    let offset = rome_offset_at(utc);
    RomeDateTime { utc, local: utc + offset as i64 }
}

/// The local date of a Rome date and time.
pub fn date_naive(dt: RomeDateTime) -> (res: Date)
    requires
        is_valid_instant(dt.local as int),
    ensures
        res.days_from_ce == day_of_seconds(dt.local as int),
{
    let days = dt.local.checked_div_euclid(SECONDS_PER_DAY).unwrap() + UNIX_EPOCH_DAY;
    Date { days_from_ce: days as i32 }
}

/// The minute of the local day of a Rome date and time (hour * 60 + minute).
pub open spec fn minute_of_local_day(local: int) -> int {
    (local % 86400) / 60
}

/// `HH:MM` of a wall-clock time (chrono's `%H:%M`).
pub open spec fn local_clock_text(local: int) -> Seq<char> {
    clock_text(minute_of_local_day(local))
}

/// The wall-clock second of the minute `minute` of the day `days`.
pub open spec fn naive_seconds(days: int, minute: int) -> int {
    (days - 719163) * 86400 + minute * 60
}

/// What `local_datetime` gives: the instant of the wall-clock time, the
/// earlier one when it occurs twice, or the refusal of a skipped time.
pub open spec fn local_datetime_outcome(date: int, minute_of_day_or_more: int) -> Result<RomeDateTime, Seq<char>> {
    let day = date + minute_of_day_or_more / 1440;
    let local = naive_seconds(day, minute_of_day_or_more % 1440) as i64;
    match rome_resolution(local) {
        LocalResolution::Single(u) => Ok(RomeDateTime { utc: u, local }),
        LocalResolution::Ambiguous(earliest, _) => Ok(RomeDateTime { utc: earliest, local }),
        LocalResolution::Missing => Err("orario locale inesistente per cambio ora: "@ + naive_datetime_text(local)),
    }
}

proof fn lemma_naive_seconds_day(day: int, minute: int)
    requires
        0 <= minute < 1440,
    ensures
        day_of_seconds(naive_seconds(day, minute)) == day,
        naive_seconds(day, minute) % 86400 == minute * 60,
{
    assert(((day - 719163) * 86400 + minute * 60) / 86400 == day - 719163) by (nonlinear_arith)
        requires
            0 <= minute < 1440,
    ;
    assert(((day - 719163) * 86400 + minute * 60) % 86400 == minute * 60) by (nonlinear_arith)
        requires
            0 <= minute < 1440,
    ;
}

/// The Rome date and time of a minute counted from midnight of `date` (a
/// count of 1440 or more falls on the following days). A wall-clock time
/// that occurs twice gives the earlier instant; one that is skipped is
/// refused.
pub fn local_datetime(date: Date, minute_of_day_or_more: i64) -> (res: Result<RomeDateTime, SchedulerError>)
    requires
        is_valid_day(date.days_from_ce + minute_of_day_or_more / 1440),
    ensures
        outcome_is(res, local_datetime_outcome(date.days_from_ce as int, minute_of_day_or_more as int)),
        res is Ok ==> is_valid_instant(res->Ok_0.utc as int) && is_valid_instant(res->Ok_0.local as int),
        res is Ok ==> day_of_seconds(res->Ok_0.local as int) == date.days_from_ce + minute_of_day_or_more / 1440,
        res is Ok ==> res->Ok_0.local - 86400 < res->Ok_0.utc < res->Ok_0.local + 86400,
{
    let day_offset = minute_of_day_or_more.checked_div_euclid(1440).unwrap();
    let minute = minute_of_day_or_more.checked_rem_euclid(1440).unwrap();
    let day = add_days(date, day_offset);
    proof {
        lemma_naive_seconds_day(day.days_from_ce as int, minute as int);
    }
    let local = (day.days_from_ce as i64 - UNIX_EPOCH_DAY) * SECONDS_PER_DAY + minute * 60;
    match resolve_rome_local(local) {
        LocalResolution::Single(utc) => Ok(RomeDateTime { utc, local }),
        LocalResolution::Ambiguous(earliest, _) => Ok(RomeDateTime { utc: earliest, local }),
        LocalResolution::Missing => {
            let mut message = String::from_str("orario locale inesistente per cambio ora: ");
            let text = naive_local_text(local);
            message.append(text.as_str());
            Err(SchedulerError::InvalidInput(message))
        },
    }
}

/// Two seconds less than a day apart fall on the same day or on
/// neighbouring days.
pub proof fn lemma_days_apart(a: int, b: int)
    requires
        a - 86400 < b < a + 86400,
    ensures
        day_of_seconds(a) - 1 <= day_of_seconds(b) <= day_of_seconds(a) + 1,
{
    assert(a / 86400 - 1 <= b / 86400 <= a / 86400 + 1) by (nonlinear_arith)
        requires
            a - 86400 < b < a + 86400,
    ;
}

/// A wall-clock time within a day of a plannable instant is a valid date and
/// time, on the day before, the same day or the day after.
pub proof fn lemma_near_plannable(t: int, local: int)
    requires
        is_plannable_instant(t),
        t - 86400 < local < t + 86400,
    ensures
        is_valid_instant(t),
        is_valid_instant(local),
        day_of_seconds(t) - 1 <= day_of_seconds(local) <= day_of_seconds(t) + 1,
        day_of_seconds(t - 86400) == day_of_seconds(t) - 1,
        day_of_seconds(t + 86400) == day_of_seconds(t) + 1,
{
    assert((t - 86400) / 86400 == t / 86400 - 1) by (nonlinear_arith);
    assert((t + 86400) / 86400 == t / 86400 + 1) by (nonlinear_arith);
    assert(t / 86400 - 1 <= local / 86400 <= t / 86400 + 1) by (nonlinear_arith)
        requires
            t - 86400 < local < t + 86400,
    ;
}

/// How many days after `today` the next `day` at `start_minute` falls, given
/// that it is now the minute `now_minutes` of `today`: later today counts,
/// a start that is not after now moves a week on.
pub open spec fn days_ahead(today: int, now_minutes: int, day: Weekday, start_minute: int) -> int {
    let diff = weekday_number_of(day) - weekday_number_of(weekday_of_day(today));
    if diff < 0 || (diff == 0 && start_minute <= now_minutes) {
        diff + 7
    } else {
        diff
    }
}

/// The local date on which the next `day` at `start_minute` falls, seen from
/// the instant `now_utc`.
pub open spec fn next_start_date(day: Weekday, start_minute: int, now_utc: i64) -> int {
    let local = rome_view(now_utc).local as int;
    let today = day_of_seconds(local);
    today + days_ahead(today, minute_of_local_day(local), day, start_minute)
}

/// The calendar bounds that `next_local_start` needs around `now_utc`.
pub open spec fn next_start_in_range(start_minute: int, now_utc: int) -> bool {
    let d = day_of_seconds(now_utc);
    &&& is_plannable_instant(now_utc)
    &&& is_valid_day(d - 1)
    &&& is_valid_day(d + 8)
    &&& is_valid_day(d - 1 + start_minute / 1440)
    &&& is_valid_day(d + 8 + start_minute / 1440)
}

proof fn lemma_weekday_number(days: int)
    ensures
        weekday_number_of(weekday_of_day(days)) == (days - 1) % 7 + 1,
{
}

/// The next start falls on the requested weekday, strictly after now and at
/// most one week later (on the wall clock of Rome), and no day on that
/// weekday whose start is still ahead comes before it.
pub proof fn lemma_next_start_is_next(today: int, now_minutes: int, day: Weekday, start_minute: int)
    requires
        0 <= now_minutes < 1440,
        0 <= start_minute < 1440,
    ensures
        weekday_of_day(today + days_ahead(today, now_minutes, day, start_minute)) == day,
        0 < days_ahead(today, now_minutes, day, start_minute) * 1440 + start_minute - now_minutes <= 7 * 1440,
        forall|d: int|
            #![trigger weekday_of_day(today + d)]
            weekday_of_day(today + d) == day && 0 < d * 1440 + start_minute - now_minutes
                ==> days_ahead(today, now_minutes, day, start_minute) <= d,
{
    lemma_weekday_number(today);
    let ahead = days_ahead(today, now_minutes, day, start_minute);
    lemma_weekday_number(today + ahead);
    assert((today + ahead - 1) % 7 == weekday_number_of(day) - 1) by {
        assert((today + ahead - 1) % 7 == ((today - 1) % 7 + ahead) % 7);
    }
    assert forall|d: int|
        #![trigger weekday_of_day(today + d)]
        weekday_of_day(today + d) == day && 0 < d * 1440 + start_minute - now_minutes implies ahead <= d by {
        lemma_weekday_number(today + d);
        let x = today + d - 1;
        let y = today + ahead - 1;
        assert(x % 7 == y % 7);
        if d < ahead {
            assert((y - x) % 7 == 0) by (nonlinear_arith)
                requires
                    x % 7 == y % 7,
            ;
            assert(y - x >= 7) by (nonlinear_arith)
                requires
                    (y - x) % 7 == 0,
                    y - x > 0,
            ;
        }
    }
}

/// The next Rome date and time, from `now_utc` on, that falls on `day` at
/// `start_minute`; today counts only when the start is still ahead.
pub fn next_local_start(day: Weekday, start_minute: i64, now_utc: i64) -> (res: Result<RomeDateTime, SchedulerError>)
    requires
        next_start_in_range(start_minute as int, now_utc as int),
    ensures
        outcome_is(res, local_datetime_outcome(next_start_date(day, start_minute as int, now_utc), start_minute as int)),
        day_of_seconds(now_utc as int) - 1 <= next_start_date(day, start_minute as int, now_utc) <= day_of_seconds(now_utc as int) + 8,
        res is Ok ==> is_valid_instant(res->Ok_0.local as int) && day_of_seconds(res->Ok_0.local as int)
            == next_start_date(day, start_minute as int, now_utc) + start_minute / 1440,
        res is Ok ==> res->Ok_0.local - 86400 < res->Ok_0.utc < res->Ok_0.local + 86400,
        weekday_of_day(next_start_date(day, start_minute as int, now_utc)) == day,
        0 <= start_minute < 1440 ==> {
            let now_local = rome_view(now_utc).local as int;
            let ahead = next_start_date(day, start_minute as int, now_utc) - day_of_seconds(now_local);
            0 < ahead * 1440 + start_minute - minute_of_local_day(now_local) <= 7 * 1440
        },
{
    proof {
        lemma_near_plannable(now_utc as int, now_utc as int);
        let now_local = rome_view(now_utc).local as int;
        assert(0 <= minute_of_local_day(now_local) < 1440) by {
            assert(0 <= now_local % 86400 < 86400);
        }
        if 0 <= start_minute < 1440 {
            lemma_next_start_is_next(day_of_seconds(now_local), minute_of_local_day(now_local), day, start_minute as int);
        } else {
            lemma_weekday_number(day_of_seconds(now_local));
            let today = day_of_seconds(now_local);
            let ahead = days_ahead(today, minute_of_local_day(now_local), day, start_minute as int);
            lemma_weekday_number(today + ahead);
            assert((today + ahead - 1) % 7 == ((today - 1) % 7 + ahead) % 7);
        }
    }
    let now = to_rome(now_utc);
    proof {
        lemma_near_plannable(now_utc as int, now.local as int);
    }
    let today = date_naive(now);
    let now_minutes = now.local.checked_rem_euclid(SECONDS_PER_DAY).unwrap() / 60;
    let current = weekday_number(weekday_of(today)) as i64;
    let target = weekday_number(day) as i64;
    let mut days_ahead = target - current;
    if days_ahead < 0 || (days_ahead == 0 && start_minute <= now_minutes) {
        days_ahead = days_ahead + 7;
    }
    let start_date = add_days(today, days_ahead);
    local_datetime(start_date, start_minute)
}

/// What `concrete_interval_for_next_occurrence` gives: the instants of the
/// next start and of its end, and the end minute after the overnight rule.
pub open spec fn next_interval_outcome(day: Weekday, start_minute: int, end_minute: int, now_utc: i64) -> Result<(i64, i64, i64), Seq<char>> {
    let normalized_end = spec_normalize_end_minute(start_minute, end_minute);
    let start_date = next_start_date(day, start_minute, now_utc);
    match local_datetime_outcome(start_date, start_minute) {
        Err(e) => Err(e),
        Ok(start) => match local_datetime_outcome(start_date + start_minute / 1440, normalized_end) {
            Err(e) => Err(e),
            Ok(end) => Ok((start.utc, end.utc, normalized_end as i64)),
        },
    }
}

/// The next occurrence of `day` from `start_minute` to `end_minute` (an end
/// not after the start falls on the following day), as UTC instants, with the
/// end minute after the overnight rule.
pub fn concrete_interval_for_next_occurrence(
    day: Weekday,
    start_minute: i64,
    end_minute: i64,
    now_utc: i64,
) -> (res: Result<(i64, i64, i64), SchedulerError>)
    requires
        end_minute <= start_minute ==> end_minute + 1440 <= i64::MAX,
        next_start_in_range(start_minute as int, now_utc as int),
        is_valid_day(day_of_seconds(now_utc as int) - 1 + start_minute / 1440
            + spec_normalize_end_minute(start_minute as int, end_minute as int) / 1440),
        is_valid_day(day_of_seconds(now_utc as int) + 8 + start_minute / 1440
            + spec_normalize_end_minute(start_minute as int, end_minute as int) / 1440),
    ensures
        outcome_is(res, next_interval_outcome(day, start_minute as int, end_minute as int, now_utc)),
        res is Ok ==> ({
            let d = day_of_seconds(now_utc as int);
            let q = start_minute / 1440;
            let qe = spec_normalize_end_minute(start_minute as int, end_minute as int) / 1440;
            &&& d - 2 + q <= day_of_seconds(res->Ok_0.0 as int) <= d + 9 + q
            &&& d - 2 + q + qe <= day_of_seconds(res->Ok_0.1 as int) <= d + 9 + q + qe
        }),
{
    let normalized_end = normalize_end_minute(start_minute, end_minute);
    let start = match next_local_start(day, start_minute, now_utc) {
        Ok(s) => s,
        Err(e) => {
            return Err(e);
        },
    };
    let start_day = date_naive(start);
    let end = match local_datetime(start_day, normalized_end) {
        Ok(e) => e,
        Err(e) => {
            return Err(e);
        },
    };
    proof {
        lemma_days_apart(start.local as int, start.utc as int);
        lemma_days_apart(end.local as int, end.utc as int);
    }
    Ok((start.utc, end.utc, normalized_end))
}

/// Whether `now_utc` is far enough from the ends of chrono's range for
/// `planning_week`.
pub fn planning_in_range_check(now_utc: i64) -> (res: bool)
    ensures
        res == planning_in_range(now_utc as int),
{
    if !crate::zone::instant_is_plannable(now_utc) {
        return false;
    }
    let d = now_utc.checked_div_euclid(SECONDS_PER_DAY).unwrap() + UNIX_EPOCH_DAY;
    crate::zone::day_is_valid(d - 7) && crate::zone::day_is_valid(d + 15)
}

/// The Monday of the week of `today` (weeks run Monday to Sunday).
pub open spec fn monday_of(today: int) -> int {
    today - (weekday_number_of(weekday_of_day(today)) - 1)
}

/// What `planning_week` gives: the Monday-to-Monday week after the current
/// one in Rome, with the instants of its two midnights.
pub open spec fn planning_week_outcome(now_utc: i64) -> Result<PlanningWeek, Seq<char>> {
    let today = day_of_seconds(rome_view(now_utc).local as int);
    let start = monday_of(today) + 7;
    let end = start + 7;
    match local_datetime_outcome(start, 0) {
        Err(e) => Err(e),
        Ok(s) => match local_datetime_outcome(end, 0) {
            Err(e) => Err(e),
            Ok(e2) => Ok(
                PlanningWeek {
                    start_date: Date { days_from_ce: start as i32 },
                    end_date: Date { days_from_ce: end as i32 },
                    start_utc: s.utc,
                    end_utc: e2.utc,
                },
            ),
        },
    }
}

/// The calendar bounds that `planning_week` needs around `now_utc`.
pub open spec fn planning_in_range(now_utc: int) -> bool {
    &&& is_plannable_instant(now_utc)
    &&& is_valid_day(day_of_seconds(now_utc) - 7)
    &&& is_valid_day(day_of_seconds(now_utc) + 15)
}

/// The planning window is the next week: it starts on a Monday after today,
/// at most seven days away, and lasts seven days.
pub proof fn lemma_planning_week_is_next(today: int)
    ensures
        weekday_of_day(monday_of(today) + 7) == Weekday::Mon,
        today < monday_of(today) + 7 <= today + 7,
{
    lemma_weekday_number(today);
    lemma_weekday_number(monday_of(today) + 7);
}

/// Planning window for `/ss week` and `/ss overlaps`: always the next
/// Monday-Sunday week in Europe/Rome.
pub fn planning_week(now_utc: i64) -> (res: Result<PlanningWeek, SchedulerError>)
    requires
        planning_in_range(now_utc as int),
    ensures
        outcome_is(res, planning_week_outcome(now_utc)),
        res is Ok ==> {
            let today = day_of_seconds(rome_view(now_utc).local as int);
            let w = res->Ok_0;
            &&& weekday_of_day(w.start_date.days_from_ce as int) == Weekday::Mon
            &&& today < w.start_date.days_from_ce <= today + 7
            &&& w.end_date.days_from_ce == w.start_date.days_from_ce + 7
        },
{
    proof {
        lemma_near_plannable(now_utc as int, now_utc as int);
    }
    let now = to_rome(now_utc);
    proof {
        lemma_near_plannable(now_utc as int, now.local as int);
    }
    let today = date_naive(now);
    proof {
        lemma_planning_week_is_next(today.days_from_ce as int);
    }
    let back = weekday_number(weekday_of(today)) as i64 - 1;
    let current_monday = add_days(today, -back);
    let start_date = add_days(current_monday, 7);
    let end_date = add_days(start_date, 7);
    let start = match local_datetime(start_date, 0) {
        Ok(s) => s,
        Err(e) => {
            return Err(e);
        },
    };
    let end = match local_datetime(end_date, 0) {
        Ok(e) => e,
        Err(e) => {
            return Err(e);
        },
    };
    Ok(PlanningWeek { start_date, end_date, start_utc: start.utc, end_utc: end.utc })
}

/// The date of a recurring availability in the planning week.
pub open spec fn recurring_date(row: AvailabilityRow, week: PlanningWeek) -> int {
    week.start_date.days_from_ce + row.weekday - 1
}

/// What `instance_for_week` gives for the bounds of the instance: none when
/// it lies wholly outside the week.
pub open spec fn instance_bounds_outcome(row: AvailabilityRow, week: PlanningWeek) -> Result<Option<(i64, i64)>, Seq<char>> {
    let bounds: Result<(i64, i64), Seq<char>> = if row.is_recurring {
        match local_datetime_outcome(recurring_date(row, week), row.start_minute as int) {
            Err(e) => Err(e),
            Ok(s) => match local_datetime_outcome(recurring_date(row, week), row.end_minute as int) {
                Err(e) => Err(e),
                Ok(e2) => Ok((s.utc, e2.utc)),
            },
        }
    } else {
        Ok((row.starts_at_utc, row.ends_at_utc))
    };
    match bounds {
        Err(e) => Err(e),
        Ok((s, e)) => if e <= week.start_utc || s >= week.end_utc {
            Ok(None)
        } else {
            Ok(Some((s, e)))
        },
    }
}

/// A saved availability gives an instance in the planning week exactly when
/// its stretch meets the week: it ends after the week starts and starts
/// before the week ends, wherever its end falls. A one-off availability is
/// its saved stretch; a recurring one runs from its start minute to its end
/// minute on its weekday of the week, in Rome.
pub proof fn lemma_instance_exactly_when_meeting(row: AvailabilityRow, week: PlanningWeek)
    ensures
        !row.is_recurring ==> instance_bounds_outcome(row, week) == if row.ends_at_utc > week.start_utc
            && row.starts_at_utc < week.end_utc {
            Ok::<Option<(i64, i64)>, Seq<char>>(Some((row.starts_at_utc, row.ends_at_utc)))
        } else {
            Ok::<Option<(i64, i64)>, Seq<char>>(None)
        },
        row.is_recurring ==> ({
            let date = week.start_date.days_from_ce + row.weekday - 1;
            match (local_datetime_outcome(date, row.start_minute as int), local_datetime_outcome(date, row.end_minute as int)) {
                (Ok(s), Ok(e)) => instance_bounds_outcome(row, week) == if e.utc > week.start_utc && s.utc < week.end_utc {
                    Ok::<Option<(i64, i64)>, Seq<char>>(Some((s.utc, e.utc)))
                } else {
                    Ok::<Option<(i64, i64)>, Seq<char>>(None)
                },
                _ => instance_bounds_outcome(row, week) is Err,
            }
        }),
        instance_bounds_outcome(row, week) is Ok && instance_bounds_outcome(row, week)->Ok_0 is Some ==> ({
            let (s, e) = instance_bounds_outcome(row, week)->Ok_0->Some_0;
            e > week.start_utc && s < week.end_utc
        }),
{
}

/// `res` is the instance that `instance_bounds_outcome` describes for `row`.
pub open spec fn instance_outcome_is(res: Result<Option<AvailabilityInstance>, SchedulerError>, row: AvailabilityRow, week: PlanningWeek) -> bool {
    match (res, instance_bounds_outcome(row, week)) {
        (Ok(None), Ok(None)) => true,
        (Ok(Some(i)), Ok(Some((s, e)))) => i == AvailabilityInstance {
            availability_id: row.id,
            user_id: row.user_id,
            username: row.username,
            start_utc: s,
            end_utc: e,
        },
        (Err(SchedulerError::InvalidInput(m)), Err(w)) => m@ == w,
        _ => false,
    }
}

/// The calendar bounds that `instance_for_week` needs for a recurring row.
pub open spec fn instance_in_range(row: AvailabilityRow, week: PlanningWeek) -> bool {
    row.is_recurring ==> {
        &&& is_valid_day(recurring_date(row, week))
        &&& is_valid_day(recurring_date(row, week) + row.start_minute / 1440)
        &&& is_valid_day(recurring_date(row, week) + row.end_minute / 1440)
    }
}

/// Whether the dates of a recurring row in the week are ones chrono can hold.
pub fn instance_in_range_check(row: &AvailabilityRow, week: PlanningWeek) -> (res: bool)
    ensures
        res == instance_in_range(*row, week),
{
    if !row.is_recurring {
        return true;
    }
    let date = week.start_date.days_from_ce as i64 + row.weekday as i64 - 1;
    if !crate::zone::day_is_valid(date) {
        return false;
    }
    let start_day = date + row.start_minute.checked_div_euclid(1440).unwrap();
    let end_day = date + row.end_minute.checked_div_euclid(1440).unwrap();
    crate::zone::day_is_valid(start_day) && crate::zone::day_is_valid(end_day)
}

/// The concrete stretch of an availability in the planning week: a recurring
/// one on its weekday of that week, another one as saved; none when it ends
/// by the start of the week or starts at its end or later.
pub fn instance_for_week(row: &AvailabilityRow, week: PlanningWeek) -> (res: Result<Option<AvailabilityInstance>, SchedulerError>)
    requires
        instance_in_range(*row, week),
    ensures
        instance_outcome_is(res, *row, week),
{
    let start_utc = if row.is_recurring {
        let day_offset = row.weekday as i64 - 1;
        let date = add_days(week.start_date, day_offset);
        match local_datetime(date, row.start_minute) {
            Ok(dt) => dt.utc,
            Err(e) => {
                return Err(e);
            },
        }
    } else {
        row.starts_at_utc
    };
    let end_utc = if row.is_recurring {
        let day_offset = row.weekday as i64 - 1;
        let date = add_days(week.start_date, day_offset);
        match local_datetime(date, row.end_minute) {
            Ok(dt) => dt.utc,
            Err(e) => {
                return Err(e);
            },
        }
    } else {
        row.ends_at_utc
    };
    if end_utc <= week.start_utc || start_utc >= week.end_utc {
        return Ok(None);
    }
    Ok(Some(AvailabilityInstance {
        availability_id: row.id.clone(),
        user_id: row.user_id.clone(),
        username: row.username.clone(),
        start_utc,
        end_utc,
    }))
}

/// `weekday DD/MM` of the day of a wall-clock time.
pub open spec fn day_label(local: int) -> Seq<char> {
    weekday_name(weekday_of_day(day_of_seconds(local))) + seq![' '] + date_label(day_of_seconds(local))
}

/// How an interval between two instants reads in Rome: the day and both
/// times, naming the end day too when it differs.
pub open spec fn interval_text(start_utc: i64, end_utc: i64) -> Seq<char> {
    let s = rome_view(start_utc).local as int;
    let e = rome_view(end_utc).local as int;
    if day_of_seconds(s) == day_of_seconds(e) {
        day_label(s) + " dalle "@ + local_clock_text(s) + " alle "@ + local_clock_text(e)
    } else {
        day_label(s) + " dalle "@ + local_clock_text(s) + " fino a "@ + day_label(e) + " alle "@ + local_clock_text(e)
    }
}

/// Appends `weekday DD/MM` of the day of the wall-clock time `local`.
pub(crate) fn push_day_label(s: &mut String, local: i64)
    requires
        is_valid_instant(local as int),
    ensures
        final(s)@ == old(s)@ + day_label(local as int),
{
    let date = date_naive(RomeDateTime { utc: local, local });
    s.append(weekday_it(weekday_of(date)));
    push_char(s, ' ');
    let label = format_local_date(date);
    s.append(label.as_str());
    assert(final(s)@ =~= old(s)@ + day_label(local as int));
}

/// Appends `HH:MM` of the wall-clock time `local`.
fn push_local_clock(s: &mut String, local: i64)
    ensures
        final(s)@ == old(s)@ + local_clock_text(local as int),
{
    let minute = local.checked_rem_euclid(SECONDS_PER_DAY).unwrap() / 60;
    push_two_digits(s, (minute / 60) as u32);
    push_char(s, ':');
    push_two_digits(s, (minute % 60) as u32);
    assert(final(s)@ =~= old(s)@ + local_clock_text(local as int));
}

/// An interval as it reads in Rome, such as `lunedì 25/05 dalle 20:00 alle
/// 21:00`, or with `fino a` and the end day when it ends on another day.
pub fn format_interval(start_utc: i64, end_utc: i64) -> (res: String)
    requires
        is_plannable_instant(start_utc as int),
        is_plannable_instant(end_utc as int),
    ensures
        res@ == interval_text(start_utc, end_utc),
{
    proof {
        lemma_near_plannable(start_utc as int, start_utc as int);
        lemma_near_plannable(end_utc as int, end_utc as int);
    }
    let start = to_rome(start_utc);
    let end = to_rome(end_utc);
    proof {
        lemma_near_plannable(start_utc as int, start.local as int);
        lemma_near_plannable(end_utc as int, end.local as int);
    }
    let start_day = date_naive(start);
    let end_day = date_naive(end);
    let mut s = String::new();
    push_day_label(&mut s, start.local);
    s.append(" dalle ");
    push_local_clock(&mut s, start.local);
    if start_day.days_from_ce == end_day.days_from_ce {
        s.append(" alle ");
        push_local_clock(&mut s, end.local);
    } else {
        s.append(" fino a ");
        push_day_label(&mut s, end.local);
        s.append(" alle ");
        push_local_clock(&mut s, end.local);
    }
    assert(s@ =~= interval_text(start_utc, end_utc));
    s
}

/// How a saved availability reads in the list of a user.
pub open spec fn availability_row_text(row: AvailabilityRow) -> Seq<char> {
    if row.is_recurring {
        row.id@ + ": "@ + weekday_name(weekday_of_number(row.weekday)) + " dalle "@ + clock_text(row.start_minute as int % 1440)
            + " alle "@ + clock_text(row.end_minute as int % 1440) + " ricorrente"@
    } else {
        let s = rome_view(row.starts_at_utc).local as int;
        let e = rome_view(row.ends_at_utc).local as int;
        row.id@ + ": "@ + day_label(s) + " dalle "@ + local_clock_text(s) + " fino a "@ + day_label(e) + " alle "@
            + local_clock_text(e) + " non ricorrente"@
    }
}

/// The instants that a saved availability shows are away from the ends of
/// chrono's range.
pub open spec fn row_is_showable(row: AvailabilityRow) -> bool {
    !row.is_recurring ==> is_plannable_instant(row.starts_at_utc as int) && is_plannable_instant(row.ends_at_utc as int)
}

/// A saved availability as one line: its id, then its weekday and times for a
/// recurring one, or both days and times for another one.
pub fn format_availability_row(row: &AvailabilityRow) -> (res: String)
    requires
        row_is_showable(*row),
    ensures
        res@ == availability_row_text(*row),
{
    let mut s = String::new();
    s.append(row.id.as_str());
    s.append(": ");
    if row.is_recurring {
        s.append(weekday_it(row.weekday_enum()));
        s.append(" dalle ");
        let start = format_time(row.start_minute);
        s.append(start.as_str());
        s.append(" alle ");
        let end = format_time(row.end_minute);
        s.append(end.as_str());
        s.append(" ricorrente");
    } else {
        proof {
            lemma_near_plannable(row.starts_at_utc as int, row.starts_at_utc as int);
            lemma_near_plannable(row.ends_at_utc as int, row.ends_at_utc as int);
        }
        let start = to_rome(row.starts_at_utc);
        let end = to_rome(row.ends_at_utc);
        proof {
            lemma_near_plannable(row.starts_at_utc as int, start.local as int);
            lemma_near_plannable(row.ends_at_utc as int, end.local as int);
        }
        push_day_label(&mut s, start.local);
        s.append(" dalle ");
        push_local_clock(&mut s, start.local);
        s.append(" fino a ");
        push_day_label(&mut s, end.local);
        s.append(" alle ");
        push_local_clock(&mut s, end.local);
        s.append(" non ricorrente");
    }
    assert(s@ =~= availability_row_text(*row));
    s
}

/// What `parse_utc` gives for a text: the instant, or the refusal that quotes
/// chrono's error.
pub open spec fn utc_reading_outcome(text: Seq<char>) -> Result<i64, Seq<char>> {
    match rfc3339_reading(text) {
        Ok(t) => Ok(t),
        Err(e) => Err("datetime UTC non valido nel DB: "@ + e),
    }
}

/// Reads an RFC 3339 date and time as a UTC instant in whole seconds.
pub fn parse_utc(s: &str) -> (res: Result<i64, SchedulerError>)
    ensures
        outcome_is(res, utc_reading_outcome(s@)),
        res is Ok ==> is_valid_instant(res->Ok_0 as int),
{
    match read_rfc3339(s) {
        Ok(t) => Ok(t),
        Err(e) => {
            let mut message = String::from_str("datetime UTC non valido nel DB: ");
            message.append(e.as_str());
            Err(SchedulerError::InvalidInput(message))
        },
    }
}

} // verus!
