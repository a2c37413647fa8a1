use chrono::{Datelike, NaiveDate, TimeZone, Utc};
use session_scheduler::error::SchedulerError;
use session_scheduler::models::{AvailabilityRow, Date, PlanningWeek, Weekday};
use session_scheduler::time::{
    concrete_interval_for_next_occurrence, format_availability_row, format_interval, format_local_date,
    format_time, instance_for_week, local_datetime, next_local_start, normalize_end_minute, parse_clock,
    parse_utc, planning_week, weekday_it, weekday_number, weekday_of,
};
use session_scheduler::zone::{iso_utc, MAX_DAYS_FROM_CE, MIN_DAYS_FROM_CE};

fn ts(y: i32, mo: u32, d: u32, h: u32, mi: u32) -> i64 {
    Utc.with_ymd_and_hms(y, mo, d, h, mi, 0).unwrap().timestamp()
}

fn rome_text(t: i64) -> String {
    Utc.timestamp_opt(t, 0)
        .unwrap()
        .with_timezone(&chrono_tz::Europe::Rome)
        .format("%Y-%m-%d %H:%M")
        .to_string()
}

fn date(y: i32, m: u32, d: u32) -> Date {
    Date { days_from_ce: NaiveDate::from_ymd_opt(y, m, d).unwrap().num_days_from_ce() }
}

#[test]
fn normalizes_overnight_end_minutes() {
    assert_eq!(normalize_end_minute(21 * 60, 2 * 60), 26 * 60);
}

#[test]
fn accepts_24_00_only_for_end() {
    assert_eq!(parse_clock("24:00", true).unwrap(), 1440);
    assert!(parse_clock("24:00", false).is_err());
}

#[test]
fn computes_next_non_recurring_overnight_interval() {
    let now = ts(2026, 5, 25, 0, 0);
    let (start, end, normalized_end) =
        concrete_interval_for_next_occurrence(Weekday::Mon, 21 * 60, 2 * 60, now).unwrap();

    assert_eq!(normalized_end, 26 * 60);
    assert_eq!(rome_text(start), "2026-05-25 21:00");
    assert_eq!(rome_text(end), "2026-05-26 02:00");
}

#[test]
fn planning_week_targets_next_monday_to_sunday() {
    let monday = ts(2026, 5, 25, 10, 0);
    let sunday = ts(2026, 5, 31, 10, 0);

    let monday_week = planning_week(monday).unwrap();
    let sunday_week = planning_week(sunday).unwrap();

    assert_eq!(monday_week.start_date, date(2026, 6, 1));
    assert_eq!(sunday_week.start_date, date(2026, 6, 1));
    assert_eq!(monday_week.end_date, date(2026, 6, 8));
}

#[test]
fn chrono_range_constants_match_chrono() {
    assert_eq!(NaiveDate::MIN.num_days_from_ce(), MIN_DAYS_FROM_CE);
    assert_eq!(NaiveDate::MAX.num_days_from_ce(), MAX_DAYS_FROM_CE);
}

#[test]
fn parses_colon_and_dot_clock_times() {
    assert_eq!(parse_clock("21:00", false).unwrap(), 1260);
    assert_eq!(parse_clock("21.00", false).unwrap(), 1260);
    assert_eq!(parse_clock("  07:05 ", false).unwrap(), 425);
    assert_eq!(parse_clock("+7:5", false).unwrap(), 425);
    assert_eq!(parse_clock("00:00", true).unwrap(), 0);
    assert_eq!(parse_clock("23:59", true).unwrap(), 1439);
}

fn invalid_text(r: Result<i64, SchedulerError>) -> String {
    match r {
        Err(SchedulerError::InvalidInput(m)) => m,
        other => panic!("expected an invalid input error, got {:?}", other),
    }
}

#[test]
fn refuses_malformed_clock_times_with_their_text() {
    assert_eq!(invalid_text(parse_clock("2100", false)), "orario '2100' non valido, usa HH:MM o HH.MM");
    assert_eq!(invalid_text(parse_clock("21:00:00", false)), "orario '21:00:00' non valido, usa HH:MM o HH.MM");
    assert_eq!(invalid_text(parse_clock("21.00:00", false)), "orario '21.00:00' non valido, usa HH:MM o HH.MM");
    assert_eq!(invalid_text(parse_clock("xx:00", false)), "ora non valida in 'xx:00'");
    assert_eq!(invalid_text(parse_clock(":30", false)), "ora non valida in ':30'");
    assert_eq!(invalid_text(parse_clock("21:", false)), "minuti non validi in '21:'");
    assert_eq!(invalid_text(parse_clock("21:60", false)), "minuti fuori range in '21:60'");
    assert_eq!(invalid_text(parse_clock("21:-1", false)), "minuti fuori range in '21:-1'");
    assert_eq!(invalid_text(parse_clock("25:00", true)), "ora fuori range in '25:00'");
    assert_eq!(invalid_text(parse_clock("24:00", false)), "ora fuori range in '24:00'");
    assert_eq!(invalid_text(parse_clock("24:01", true)), "ora fuori range in '24:01'");
    assert_eq!(
        invalid_text(parse_clock("99999999999999999999:00", false)),
        "ora non valida in '99999999999999999999:00'"
    );
}

#[test]
fn formats_clock_times_within_a_day() {
    assert_eq!(format_time(0), "00:00");
    assert_eq!(format_time(26 * 60), "02:00");
    assert_eq!(format_time(1440), "00:00");
    assert_eq!(format_time(-1), "23:59");
    assert_eq!(format_time(21 * 60 + 5), "21:05");
}

#[test]
fn weekday_numbers_and_names() {
    assert_eq!(weekday_number(Weekday::Mon), 1);
    assert_eq!(weekday_number(Weekday::Sun), 7);
    assert_eq!(weekday_it(Weekday::Mon), "lunedì");
    assert_eq!(weekday_it(Weekday::Wed), "mercoledì");
    assert_eq!(weekday_it(Weekday::Sun), "domenica");
    assert_eq!(weekday_of(date(2026, 5, 25)), Weekday::Mon);
    assert_eq!(weekday_of(date(2026, 5, 31)), Weekday::Sun);
    assert_eq!(weekday_of(date(1, 1, 1)), Weekday::Mon);
    assert_eq!(weekday_of(date(2000, 2, 29)), Weekday::Tue);
}

#[test]
fn formats_local_dates_and_intervals() {
    assert_eq!(format_local_date(date(2026, 6, 1)), "01/06");
    assert_eq!(format_local_date(date(2026, 12, 31)), "31/12");
    // 18:00 UTC is 20:00 in Rome in summer.
    assert_eq!(
        format_interval(ts(2026, 5, 25, 18, 0), ts(2026, 5, 25, 19, 0)),
        "lunedì 25/05 dalle 20:00 alle 21:00"
    );
    assert_eq!(
        format_interval(ts(2026, 5, 25, 19, 0), ts(2026, 5, 26, 0, 0)),
        "lunedì 25/05 dalle 21:00 fino a martedì 26/05 alle 02:00"
    );
    // Winter time: 20:00 UTC is 21:00 in Rome.
    assert_eq!(
        format_interval(ts(2026, 1, 5, 20, 0), ts(2026, 1, 5, 22, 0)),
        "lunedì 05/01 dalle 21:00 alle 23:00"
    );
}

#[test]
fn next_start_counts_today_only_when_still_ahead() {
    // Monday 25 May 2026, 12:00 in Rome.
    let now = ts(2026, 5, 25, 10, 0);
    let later_today = next_local_start(Weekday::Mon, 21 * 60, now).unwrap();
    assert_eq!(rome_text(later_today.utc), "2026-05-25 21:00");
    let earlier_today = next_local_start(Weekday::Mon, 9 * 60, now).unwrap();
    assert_eq!(rome_text(earlier_today.utc), "2026-06-01 09:00");
    let at_now = next_local_start(Weekday::Mon, 12 * 60, now).unwrap();
    assert_eq!(rome_text(at_now.utc), "2026-06-01 12:00");
    let sunday = next_local_start(Weekday::Sun, 0, now).unwrap();
    assert_eq!(rome_text(sunday.utc), "2026-05-31 00:00");
    let tuesday = next_local_start(Weekday::Tue, 60, now).unwrap();
    assert_eq!(rome_text(tuesday.utc), "2026-05-26 01:00");
}

#[test]
fn skipped_and_repeated_wall_clock_times() {
    // 29 March 2026: Rome skips 02:00-03:00.
    let skipped = local_datetime(date(2026, 3, 29), 2 * 60 + 30);
    assert_eq!(
        skipped,
        Err(SchedulerError::InvalidInput(
            "orario locale inesistente per cambio ora: 2026-03-29 02:30:00".to_string()
        ))
    );
    // 25 October 2026: 02:30 occurs twice; the earlier instant is taken.
    let repeated = local_datetime(date(2026, 10, 25), 2 * 60 + 30).unwrap();
    assert_eq!(repeated.utc, ts(2026, 10, 25, 0, 30));
    // A minute count past the day falls on the next day.
    let next_day = local_datetime(date(2026, 5, 25), 26 * 60).unwrap();
    assert_eq!(rome_text(next_day.utc), "2026-05-26 02:00");
}

fn row(recurring: bool, weekday: u32, start_minute: i64, end_minute: i64, starts: i64, ends: i64) -> AvailabilityRow {
    AvailabilityRow {
        id: "abcd1234".to_string(),
        guild_id: "1".to_string(),
        user_id: "42".to_string(),
        username: "Anna".to_string(),
        weekday,
        start_minute,
        end_minute,
        starts_at_utc: starts,
        ends_at_utc: ends,
        is_recurring: recurring,
    }
}

fn next_week() -> PlanningWeek {
    planning_week(ts(2026, 5, 27, 10, 0)).unwrap()
}

#[test]
fn recurring_rows_fall_on_their_weekday_of_the_week() {
    let week = next_week();
    assert_eq!(week.start_date, date(2026, 6, 1));
    assert_eq!(week.start_utc, ts(2026, 5, 31, 22, 0));
    assert_eq!(week.end_utc, ts(2026, 6, 7, 22, 0));
    let r = row(true, 3, 21 * 60, 26 * 60, 0, 0);
    let inst = instance_for_week(&r, week).unwrap().unwrap();
    assert_eq!(rome_text(inst.start_utc), "2026-06-03 21:00");
    assert_eq!(rome_text(inst.end_utc), "2026-06-04 02:00");
    assert_eq!(inst.availability_id, "abcd1234");
    assert_eq!(inst.user_id, "42");
    assert_eq!(inst.username, "Anna");
}

#[test]
fn one_off_rows_outside_the_week_are_dropped() {
    let week = next_week();
    let before = row(false, 1, 0, 0, ts(2026, 5, 20, 10, 0), week.start_utc);
    assert!(instance_for_week(&before, week).unwrap().is_none());
    let after = row(false, 1, 0, 0, week.end_utc, week.end_utc + 3600);
    assert!(instance_for_week(&after, week).unwrap().is_none());
    let inside = row(false, 1, 0, 0, week.start_utc - 3600, week.start_utc + 3600);
    let inst = instance_for_week(&inside, week).unwrap().unwrap();
    assert_eq!(inst.start_utc, week.start_utc - 3600);
}

#[test]
fn formats_saved_rows() {
    let r = row(true, 1, 21 * 60, 26 * 60, 0, 0);
    assert_eq!(format_availability_row(&r), "abcd1234: lunedì dalle 21:00 alle 02:00 ricorrente");
    let r = row(false, 1, 0, 0, ts(2026, 5, 25, 19, 0), ts(2026, 5, 26, 0, 0));
    assert_eq!(
        format_availability_row(&r),
        "abcd1234: lunedì 25/05 dalle 21:00 fino a martedì 26/05 alle 02:00 non ricorrente"
    );
}

#[test]
fn reads_back_stored_instants() {
    let t = ts(2026, 5, 25, 19, 30);
    let text = iso_utc(t);
    assert_eq!(text, "2026-05-25T19:30:00+00:00");
    assert_eq!(parse_utc(&text), Ok(t));
    assert_eq!(parse_utc("2026-05-25T21:30:00+02:00"), Ok(t));
    match parse_utc("ieri") {
        Err(SchedulerError::InvalidInput(m)) => assert!(m.starts_with("datetime UTC non valido nel DB: ")),
        other => panic!("unexpected {:?}", other),
    }
}

#[test]
fn formatted_clock_times_read_back() {
    for m in 0..1440i64 {
        let text = format_time(m);
        assert_eq!(text.len(), 5);
        assert_eq!(parse_clock(&text, false).unwrap(), m);
        assert_eq!(parse_clock(&text, true).unwrap(), m);
        assert_eq!(format_time(m + 1440 * 3), text);
        assert_eq!(format_time(m - 1440 * 2), text);
    }
}
