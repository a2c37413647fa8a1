use chrono::{TimeZone, Utc};
use session_scheduler::db::{
    assert_found, availability_from_stored, availability_record, overlap_item_from_stored, overlap_item_record,
    participant_pattern, scheduled_session_from_stored, scheduled_session_record, split_csv,
};
use session_scheduler::error::SchedulerError;
use session_scheduler::models::{NewAvailability, OverlapSlot, StoredOverlapItem};

fn ts(y: i32, mo: u32, d: u32, h: u32, mi: u32) -> i64 {
    Utc.with_ymd_and_hms(y, mo, d, h, mi, 0).unwrap().timestamp()
}

fn strings(v: &[&str]) -> Vec<String> {
    v.iter().map(|s| s.to_string()).collect()
}

#[test]
fn splits_stored_lists() {
    assert_eq!(split_csv("1,2,3".to_string()), strings(&["1", "2", "3"]));
    assert_eq!(split_csv("Anna, Bruno".to_string()), strings(&["Anna", "Bruno"]));
    assert_eq!(split_csv(" a ,, b ,".to_string()), strings(&["a", "b"]));
    assert_eq!(split_csv(String::new()), Vec::<String>::new());
    assert_eq!(split_csv(" , ".to_string()), Vec::<String>::new());
}

#[test]
fn stored_lists_read_back_as_written() {
    let ids = strings(&["10", "20", "30"]);
    assert_eq!(split_csv(ids.join(",")), ids);
    let names = strings(&["Anna", "Bruno Rossi", "Carla"]);
    assert_eq!(split_csv(names.join(", ")), names);
}

#[test]
fn missing_values_are_not_found() {
    assert_eq!(assert_found(Some(3)), Ok(3));
    assert_eq!(assert_found::<i32>(None), Err(SchedulerError::NotFound));
}

#[test]
fn participant_pattern_matches_anywhere() {
    assert_eq!(participant_pattern("42"), "%42%");
}

#[test]
fn availability_rows_are_written_as_text() {
    let a = NewAvailability {
        id: "abcd1234".to_string(),
        guild_id: "1".to_string(),
        user_id: "42".to_string(),
        username: "Anna".to_string(),
        weekday: 1,
        start_minute: 1260,
        end_minute: 1560,
        starts_at_utc: ts(2026, 5, 25, 19, 0),
        ends_at_utc: ts(2026, 5, 26, 0, 0),
        is_recurring: true,
    };
    let r = availability_record(&a, ts(2026, 5, 24, 8, 15));
    assert_eq!(r.id, "abcd1234");
    assert_eq!(r.guild_id, "1");
    assert_eq!(r.user_id, "42");
    assert_eq!(r.username, "Anna");
    assert_eq!(r.weekday, 1);
    assert_eq!(r.start_minute, 1260);
    assert_eq!(r.end_minute, 1560);
    assert_eq!(r.starts_at_utc, "2026-05-25T19:00:00+00:00");
    assert_eq!(r.ends_at_utc, "2026-05-26T00:00:00+00:00");
    assert_eq!(r.is_recurring, 1);
    assert_eq!(r.created_at_utc, "2026-05-24T08:15:00+00:00");

    let back = availability_from_stored(
        r.id.clone(),
        r.guild_id.clone(),
        r.user_id.clone(),
        r.username.clone(),
        r.weekday,
        r.start_minute,
        r.end_minute,
        &r.starts_at_utc,
        &r.ends_at_utc,
        r.is_recurring,
    )
    .unwrap();
    assert_eq!(back.id, a.id);
    assert_eq!(back.weekday, 1);
    assert_eq!(back.starts_at_utc, a.starts_at_utc);
    assert_eq!(back.ends_at_utc, a.ends_at_utc);
    assert!(back.is_recurring);
}

#[test]
fn only_a_stored_one_is_recurring() {
    let row = availability_from_stored(
        "x".to_string(),
        "1".to_string(),
        "2".to_string(),
        "n".to_string(),
        3,
        0,
        60,
        "2026-05-25T19:00:00+00:00",
        "2026-05-25T20:00:00+00:00",
        2,
    )
    .unwrap();
    assert!(!row.is_recurring);
    assert_eq!(row.weekday, 3);
}

#[test]
fn unreadable_stored_instants_are_refused() {
    let res = availability_from_stored(
        "x".to_string(),
        "1".to_string(),
        "2".to_string(),
        "n".to_string(),
        1,
        0,
        60,
        "2026-05-25T19:00:00+00:00",
        "domani",
        0,
    );
    match res {
        Err(SchedulerError::InvalidInput(m)) => assert!(m.starts_with("datetime UTC non valido nel DB: ")),
        _ => panic!("expected a refusal"),
    }
    let res = overlap_item_from_stored(
        "i".to_string(),
        1,
        "ieri",
        "2026-05-25T19:00:00+00:00",
        String::new(),
        String::new(),
        String::new(),
        String::new(),
    );
    assert!(matches!(res, Err(SchedulerError::InvalidInput(_))));
}

#[test]
fn overlap_items_are_written_and_read_back() {
    let slot = OverlapSlot {
        display_index: 2,
        start_utc: ts(2026, 6, 1, 19, 0),
        end_utc: ts(2026, 6, 1, 21, 0),
        participant_user_ids: strings(&["1", "2"]),
        participant_usernames: strings(&["Anna", "Bruno"]),
    };
    let r = overlap_item_record(&slot);
    assert_eq!(r.display_index, 2);
    assert_eq!(r.day_label, "lunedì 01/06 dalle 21:00 alle 23:00");
    assert_eq!(r.start_local, r.day_label);
    assert_eq!(r.end_local, r.day_label);
    assert_eq!(r.start_utc, "2026-06-01T19:00:00+00:00");
    assert_eq!(r.end_utc, "2026-06-01T21:00:00+00:00");
    assert_eq!(r.participant_user_ids, "1,2");
    assert_eq!(r.participant_usernames, "Anna, Bruno");

    let back = overlap_item_from_stored(
        "item0001".to_string(),
        r.display_index,
        &r.start_utc,
        &r.end_utc,
        r.start_local.clone(),
        r.end_local.clone(),
        r.participant_user_ids.clone(),
        r.participant_usernames.clone(),
    )
    .unwrap();
    assert_eq!(back.display_index, 2);
    assert_eq!(back.start_utc, slot.start_utc);
    assert_eq!(back.end_utc, slot.end_utc);
    assert_eq!(back.participant_user_ids, slot.participant_user_ids);
    assert_eq!(back.participant_usernames, slot.participant_usernames);
}

#[test]
fn scheduled_sessions_are_written_and_read_back() {
    let item = StoredOverlapItem {
        id: "item0001".to_string(),
        display_index: 1,
        start_utc: ts(2026, 6, 1, 19, 0),
        end_utc: ts(2026, 6, 1, 21, 0),
        start_local: "inizio".to_string(),
        end_local: "fine".to_string(),
        participant_user_ids: strings(&["1", "2"]),
        participant_usernames: strings(&["Anna", "Bruno"]),
    };
    let r = scheduled_session_record(
        "sess1234".to_string(),
        "9",
        "item0001",
        ("77", "Admin"),
        &item,
        Some(("55", "66")),
        ts(2026, 5, 28, 12, 0),
    );
    assert_eq!(r.id, "sess1234");
    assert_eq!(r.guild_id, "9");
    assert_eq!(r.overlap_item_id, "item0001");
    assert_eq!(r.scheduled_by_user_id, "77");
    assert_eq!(r.scheduled_by_username, "Admin");
    assert_eq!(r.scheduled_at_utc, "2026-05-28T12:00:00+00:00");
    assert_eq!(r.start_utc, "2026-06-01T19:00:00+00:00");
    assert_eq!(r.end_utc, "2026-06-01T21:00:00+00:00");
    assert_eq!(r.start_local, "inizio");
    assert_eq!(r.end_local, "fine");
    assert_eq!(r.participant_user_ids, "1,2");
    assert_eq!(r.participant_usernames, "Anna, Bruno");
    assert_eq!(r.channel_id.as_deref(), Some("55"));
    assert_eq!(r.message_id.as_deref(), Some("66"));

    let without = scheduled_session_record("s".to_string(), "9", "i", ("77", "Admin"), &item, None, ts(2026, 5, 28, 12, 0));
    assert_eq!(without.channel_id, None);
    assert_eq!(without.message_id, None);

    let back = scheduled_session_from_stored(
        r.id.clone(),
        r.guild_id.clone(),
        r.scheduled_by_user_id.clone(),
        r.scheduled_by_username.clone(),
        &r.start_utc,
        &r.end_utc,
        r.start_local.clone(),
        r.end_local.clone(),
        r.participant_user_ids.clone(),
        r.participant_usernames.clone(),
    )
    .unwrap();
    assert_eq!(back.id, "sess1234");
    assert_eq!(back.start_utc, item.start_utc);
    assert_eq!(back.end_utc, item.end_utc);
    assert_eq!(back.participant_user_ids, item.participant_user_ids);
    assert_eq!(back.participant_usernames, item.participant_usernames);
}
