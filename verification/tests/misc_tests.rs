use chrono::{Datelike, NaiveDate};
use session_scheduler::config::Config;
use session_scheduler::error::SchedulerError;
use session_scheduler::ids::short_id;
use session_scheduler::models::{AvailabilityRow, Date, Weekday};
use session_scheduler::permissions::{channel_id_from_str, mention_user, require_admin_sync};
use session_scheduler::text::{decimal_string, join_strings, lex_less, parse_u64};
use session_scheduler::zone::date_text;

#[test]
fn ids_are_eight_lowercase_letters_or_digits() {
    for _ in 0..50 {
        let id = short_id();
        assert_eq!(id.chars().count(), 8);
        assert!(id.chars().all(|c| c.is_ascii_lowercase() || c.is_ascii_digit()));
    }
}

#[test]
fn only_admins_pass() {
    assert_eq!(require_admin_sync(true), Ok(()));
    assert_eq!(require_admin_sync(false), Err(SchedulerError::Forbidden));
}

#[test]
fn mentions_and_channel_ids() {
    assert_eq!(mention_user("42"), "<@42>");
    assert_eq!(channel_id_from_str("123456789012345678"), Some(123456789012345678));
    assert_eq!(channel_id_from_str("+7"), Some(7));
    assert_eq!(channel_id_from_str("canale"), None);
    assert_eq!(channel_id_from_str(""), None);
    assert_eq!(channel_id_from_str("-1"), None);
    assert_eq!(channel_id_from_str("18446744073709551616"), None);
}

#[test]
fn reads_unsigned_decimal_text_as_str_parse_does() {
    for s in ["0", "007", "+1", "18446744073709551615", "18446744073709551616", "", "+", "1 ", "x1", "-0"] {
        assert_eq!(parse_u64(s), s.parse::<u64>().ok(), "{:?}", s);
    }
}

#[test]
fn config_needs_a_token_and_defaults_the_database() {
    let c = Config::from_values(Some("tok".to_string()), None).unwrap();
    assert_eq!(c.discord_token, "tok");
    assert_eq!(c.database_url, "sqlite://session_scheduler.sqlite");
    let c = Config::from_values(Some("tok".to_string()), Some("sqlite://other.db".to_string())).unwrap();
    assert_eq!(c.database_url, "sqlite://other.db");
    match Config::from_values(None, Some("sqlite://other.db".to_string())) {
        Err(m) => assert_eq!(m, "DISCORD_TOKEN is missing from environment"),
        Ok(_) => panic!("a missing token must be refused"),
    }
}

#[test]
fn error_messages() {
    assert_eq!(
        SchedulerError::MissingGuild.message(),
        "questo comando deve essere usato dentro un server Discord"
    );
    assert_eq!(SchedulerError::InvalidInput("x".to_string()).message(), "input non valido: x");
    assert_eq!(
        SchedulerError::MissingScheduleChannel.message(),
        "nessun canale sessioni configurato: usa prima /ss config channel"
    );
    assert_eq!(SchedulerError::Forbidden.message(), "operazione non permessa");
    assert_eq!(SchedulerError::NotFound.message(), "risorsa non trovata");
    assert_eq!(
        SchedulerError::MissingOverlapBatch.message(),
        "nessuna tabella overlap valida: esegui prima /ss overlaps come admin"
    );
}

fn stored(weekday: u32) -> AvailabilityRow {
    AvailabilityRow {
        id: String::new(),
        guild_id: String::new(),
        user_id: String::new(),
        username: String::new(),
        weekday,
        start_minute: 0,
        end_minute: 0,
        starts_at_utc: 0,
        ends_at_utc: 0,
        is_recurring: true,
    }
}

#[test]
fn stored_weekday_numbers() {
    assert_eq!(stored(1).weekday_enum(), Weekday::Mon);
    assert_eq!(stored(4).weekday_enum(), Weekday::Thu);
    assert_eq!(stored(6).weekday_enum(), Weekday::Sat);
    assert_eq!(stored(7).weekday_enum(), Weekday::Sun);
    assert_eq!(stored(0).weekday_enum(), Weekday::Sun);
    assert_eq!(stored(99).weekday_enum(), Weekday::Sun);
}

#[test]
fn dates_as_iso_text() {
    let d = Date { days_from_ce: NaiveDate::from_ymd_opt(2026, 6, 1).unwrap().num_days_from_ce() };
    assert_eq!(date_text(d), "2026-06-01");
}

#[test]
fn text_helpers() {
    assert_eq!(decimal_string(0), "0");
    assert_eq!(decimal_string(1234567), "1234567");
    assert_eq!(join_strings(&vec!["a".to_string(), "b".to_string()], ", "), "a, b");
    assert_eq!(join_strings(&Vec::new(), ","), "");
    assert!(lex_less("lunedì", "martedì"));
    assert!(lex_less("ab", "abc"));
    assert!(!lex_less("abc", "abc"));
    assert!(!lex_less("b", "a"));
}
