use chrono::{TimeZone, Utc};
use session_scheduler::commands::{
    announcement_channel, author_id_string, author_name, channel_configured_message, config_text,
    conflict_notice, guild_id_string, help_text, ican_in_range_check, list_message, may_remove,
    overlap_item_or_missing, overlaps_message, participant_list, plan_availability, removal_denied_text,
    removal_message, schedule_announcement, schedule_channel_or_missing, schedule_confirmation,
    scheduling_admin_id, select_week_instances, ss_text, stores_overlap_table, week_is_showable_check,
    week_message, Giorno,
};
use session_scheduler::error::SchedulerError;
use session_scheduler::models::{
    AvailabilityInstance, AvailabilityRow, OverlapSlot, PlanningWeek, ScheduledSession, StoredOverlapItem, Weekday,
};
use session_scheduler::time::planning_week;

fn ts(y: i32, mo: u32, d: u32, h: u32, mi: u32) -> i64 {
    Utc.with_ymd_and_hms(y, mo, d, h, mi, 0).unwrap().timestamp()
}

fn next_week() -> PlanningWeek {
    planning_week(ts(2026, 5, 27, 10, 0)).unwrap()
}

fn strings(v: &[&str]) -> Vec<String> {
    v.iter().map(|s| s.to_string()).collect()
}

fn inst(id: &str, user: &str, name: &str, start: i64, end: i64) -> AvailabilityInstance {
    AvailabilityInstance {
        availability_id: id.to_string(),
        user_id: user.to_string(),
        username: name.to_string(),
        start_utc: start,
        end_utc: end,
    }
}

fn row(id: &str, user: &str, recurring: bool, weekday: u32, start_minute: i64, end_minute: i64, starts: i64, ends: i64) -> AvailabilityRow {
    AvailabilityRow {
        id: id.to_string(),
        guild_id: "1".to_string(),
        user_id: user.to_string(),
        username: format!("user{}", user),
        weekday,
        start_minute,
        end_minute,
        starts_at_utc: starts,
        ends_at_utc: ends,
        is_recurring: recurring,
    }
}

fn item(usernames: &[&str]) -> StoredOverlapItem {
    StoredOverlapItem {
        id: "item0001".to_string(),
        display_index: 1,
        start_utc: ts(2026, 6, 1, 19, 0),
        end_utc: ts(2026, 6, 1, 21, 0),
        start_local: "x".to_string(),
        end_local: "y".to_string(),
        participant_user_ids: strings(&["1", "2"]),
        participant_usernames: strings(usernames),
    }
}

#[test]
fn fixed_replies() {
    assert_eq!(
        ss_text(),
        "Usa un sottocomando: `/ss help`, `/ss ican`, `/ss list`, `/ss remove`, `/ss week`, `/ss overlaps`, `/ss schedule`."
    );
    assert_eq!(config_text(), "Configura il bot con `/ss config channel`.");
    assert_eq!(removal_denied_text(), "Puoi rimuovere solo le tue disponibilità.");
    let help = help_text();
    assert!(help.starts_with("**SessionScheduler: guida rapida**\n\n`/ss ican` aggiunge una tua disponibilita'."));
    assert!(help.contains("\n- accetta sia `21:00` sia `21.00`\n"));
    assert!(help.ends_with("- per pianificare una sessione, un admin deve prima eseguire `/ss overlaps`"));
    assert_eq!(help.lines().count(), 17);
}

#[test]
fn guild_author_and_channel_texts() {
    assert_eq!(guild_id_string(Some(123456789012345678)), Ok("123456789012345678".to_string()));
    assert_eq!(guild_id_string(None), Err(SchedulerError::MissingGuild));
    assert_eq!(author_id_string(0), "0");
    assert_eq!(author_id_string(u64::MAX), "18446744073709551615");
    assert_eq!(author_name(Some("Anna B".to_string()), "anna".to_string()), "Anna B");
    assert_eq!(author_name(None, "anna".to_string()), "anna");
    assert_eq!(channel_configured_message(42), "Canale sessioni configurato: <#42>");
}

#[test]
fn giorno_names_its_weekday() {
    assert_eq!(Giorno::Lun.weekday(), Weekday::Mon);
    assert_eq!(Giorno::Merc.weekday(), Weekday::Wed);
    assert_eq!(Giorno::Dom.weekday(), Weekday::Sun);
}

#[test]
fn ican_saves_a_one_off_overnight_availability_by_default() {
    let now = ts(2026, 5, 25, 0, 0);
    assert!(ican_in_range_check(now));
    let (a, message) = plan_availability(
        Giorno::Lun,
        "21:00",
        "02:00",
        None,
        now,
        "abcd1234".to_string(),
        "1".to_string(),
        "42".to_string(),
        "Anna".to_string(),
    )
    .unwrap();
    assert_eq!(a.id, "abcd1234");
    assert_eq!(a.guild_id, "1");
    assert_eq!(a.user_id, "42");
    assert_eq!(a.username, "Anna");
    assert_eq!(a.weekday, 1);
    assert_eq!(a.start_minute, 21 * 60);
    assert_eq!(a.end_minute, 26 * 60);
    assert_eq!(a.starts_at_utc, ts(2026, 5, 25, 19, 0));
    assert_eq!(a.ends_at_utc, ts(2026, 5, 26, 0, 0));
    assert!(!a.is_recurring);
    assert_eq!(
        message,
        "Disponibilità aggiunta: `abcd1234`. Hai messo disponibilità lunedì 25/05 dalle 21:00 fino a martedì 26/05 alle 02:00 non ricorrente."
    );
}

#[test]
fn ican_saves_a_recurring_availability() {
    let now = ts(2026, 5, 25, 0, 0);
    let (a, message) = plan_availability(
        Giorno::Ven,
        "21.30",
        "24:00",
        Some(true),
        now,
        "zz99yy88".to_string(),
        "1".to_string(),
        "42".to_string(),
        "Anna".to_string(),
    )
    .unwrap();
    assert!(a.is_recurring);
    assert_eq!(a.weekday, 5);
    assert_eq!(a.start_minute, 21 * 60 + 30);
    assert_eq!(a.end_minute, 1440);
    assert_eq!(a.starts_at_utc, ts(2026, 5, 29, 19, 30));
    assert_eq!(a.ends_at_utc, ts(2026, 5, 29, 22, 0));
    assert_eq!(message, "Disponibilità aggiunta: `zz99yy88`: venerdì dalle 21:30 alle 00:00 ricorrente.");
}

#[test]
fn ican_refuses_malformed_times() {
    let now = ts(2026, 5, 25, 0, 0);
    let bad_start = plan_availability(
        Giorno::Lun, "25:00", "02:00", None, now, "a".to_string(), "1".to_string(), "2".to_string(), "n".to_string(),
    );
    assert!(matches!(bad_start, Err(SchedulerError::InvalidInput(_))));
    let bad_end = plan_availability(
        Giorno::Lun, "21:00", "ieri", Some(false), now, "a".to_string(), "1".to_string(), "2".to_string(), "n".to_string(),
    );
    assert!(matches!(bad_end, Err(SchedulerError::InvalidInput(_))));
    let start_at_24 = plan_availability(
        Giorno::Lun, "24:00", "02:00", None, now, "a".to_string(), "1".to_string(), "2".to_string(), "n".to_string(),
    );
    assert!(matches!(start_at_24, Err(SchedulerError::InvalidInput(_))));
}

#[test]
fn list_shows_a_header_and_one_line_per_row() {
    assert_eq!(list_message(&Vec::new()), "Non hai disponibilità future salvate.");
    let rows = vec![
        row("abcd1234", "42", true, 1, 21 * 60, 26 * 60, 0, 0),
        row("efgh5678", "42", false, 1, 0, 0, ts(2026, 5, 25, 19, 0), ts(2026, 5, 26, 0, 0)),
    ];
    assert_eq!(
        list_message(&rows),
        "Le tue disponibilità future:\n\nabcd1234: lunedì dalle 21:00 alle 02:00 ricorrente\nefgh5678: lunedì 25/05 dalle 21:00 fino a martedì 26/05 alle 02:00 non ricorrente"
    );
}

fn slot(index: i64, start: i64, end: i64) -> OverlapSlot {
    OverlapSlot {
        display_index: index,
        start_utc: start,
        end_utc: end,
        participant_user_ids: strings(&["1", "2"]),
        participant_usernames: strings(&["Anna", "Bruno"]),
    }
}

#[test]
fn overlaps_reply_numbers_slots_only_for_admins() {
    let week = next_week();
    assert!(week_is_showable_check(week));
    let slots = vec![slot(1, ts(2026, 6, 1, 19, 0), ts(2026, 6, 1, 21, 0)), slot(2, ts(2026, 6, 3, 18, 0), ts(2026, 6, 3, 20, 0))];
    assert_eq!(
        overlaps_message(week, &slots, true),
        "Overlap completi dal 01/06 al 07/06:\n\n1) lunedì 01/06 dalle 21:00 alle 23:00\n2) mercoledì 03/06 dalle 20:00 alle 22:00\n\nHo salvato questi ID per `/ss schedule id:[numero]`. Qualsiasi modifica alle disponibilità li invaliderà."
    );
    assert_eq!(
        overlaps_message(week, &slots, false),
        "Overlap completi dal 01/06 al 07/06:\n\n- lunedì 01/06 dalle 21:00 alle 23:00\n- mercoledì 03/06 dalle 20:00 alle 22:00"
    );
    assert_eq!(
        overlaps_message(week, &Vec::new(), true),
        "Non ci sono overlap completi: almeno una persona attiva nella settimana non è disponibile negli stessi slot degli altri."
    );
}

#[test]
fn only_an_admin_with_slots_stores_the_table() {
    assert!(stores_overlap_table(true, 2));
    assert!(!stores_overlap_table(true, 0));
    assert!(!stores_overlap_table(false, 2));
    assert!(!stores_overlap_table(false, 0));
}

fn week_instances() -> Vec<AvailabilityInstance> {
    vec![
        inst("cccc3333", "3", "Carla", ts(2026, 6, 3, 18, 0), ts(2026, 6, 3, 20, 0)),
        inst("aaaa1111", "1", "Anna", ts(2026, 6, 1, 19, 0), ts(2026, 6, 1, 21, 0)),
        inst("bbbb2222", "2", "Bruno", ts(2026, 6, 1, 19, 0), ts(2026, 6, 1, 21, 0)),
    ]
}

#[test]
fn week_reply_groups_by_day_for_admins() {
    assert_eq!(
        week_message(next_week(), &week_instances(), true),
        "Disponibilità dal 01/06 al 07/06:\n\n**lunedì 01/06**\n- `aaaa1111` Anna: lunedì 01/06 dalle 21:00 alle 23:00\n- `bbbb2222` Bruno: lunedì 01/06 dalle 21:00 alle 23:00\n\n**mercoledì 03/06**\n- `cccc3333` Carla: mercoledì 03/06 dalle 20:00 alle 22:00"
    );
}

#[test]
fn week_reply_counts_people_per_interval_for_others() {
    assert_eq!(
        week_message(next_week(), &week_instances(), false),
        "Disponibilità dal 01/06 al 07/06:\n\n- lunedì 01/06 dalle 21:00 alle 23:00: 2 persone\n- mercoledì 03/06 dalle 20:00 alle 22:00: 1 persone"
    );
    assert_eq!(
        week_message(next_week(), &Vec::new(), false),
        "Nessuna disponibilità nella settimana di pianificazione."
    );
}

#[test]
fn week_instances_are_ordered_by_start_end_and_user() {
    let now = ts(2026, 5, 27, 10, 0);
    let week = next_week();
    let rows = vec![
        row("wed00001", "9", true, 3, 21 * 60, 26 * 60, 0, 0),
        row("mon0000b", "b", true, 1, 21 * 60, 23 * 60, 0, 0),
        row("old00001", "7", false, 1, 0, 0, ts(2026, 5, 20, 10, 0), ts(2026, 5, 20, 12, 0)),
        row("mon0000a", "a", true, 1, 21 * 60, 23 * 60, 0, 0),
    ];
    let instances = select_week_instances(&rows, week, now).unwrap();
    let ids: Vec<&str> = instances.iter().map(|i| i.availability_id.as_str()).collect();
    assert_eq!(ids, vec!["mon0000a", "mon0000b", "wed00001"]);
    assert_eq!(instances[0].start_utc, ts(2026, 6, 1, 19, 0));
    assert_eq!(instances[2].end_utc, ts(2026, 6, 4, 0, 0));
}

#[test]
fn removal_rules_and_replies() {
    assert!(may_remove(true, "1", "2"));
    assert!(may_remove(false, "1", "1"));
    assert!(!may_remove(false, "1", "2"));
    assert_eq!(
        removal_message("abcd1234", false),
        "Disponibilità `abcd1234` rimossa. Ho anche pulito gli overlap salvati."
    );
    assert_eq!(
        removal_message("abcd1234", true),
        "Disponibilità `abcd1234` rimossa. Ho anche pulito gli overlap salvati.\n\n⚠️ Attenzione: questa disponibilità copriva una sessione già schedulata. Ho avvisato l'admin che l'ha fissata."
    );
}

fn session(by: &str) -> ScheduledSession {
    ScheduledSession {
        id: "sess1234".to_string(),
        guild_id: "1".to_string(),
        scheduled_by_user_id: by.to_string(),
        scheduled_by_username: "Admin".to_string(),
        start_utc: ts(2026, 6, 1, 19, 0),
        end_utc: ts(2026, 6, 1, 21, 0),
        start_local: String::new(),
        end_local: String::new(),
        participant_user_ids: strings(&["42"]),
        participant_usernames: strings(&["Anna"]),
    }
}

#[test]
fn conflicts_are_reported_to_the_scheduling_admin() {
    assert_eq!(scheduling_admin_id(&session("77")), Some(77));
    assert_eq!(scheduling_admin_id(&session("admin")), None);
    assert_eq!(
        conflict_notice("42", &session("77")),
        "⚠️ Problema su una sessione schedulata: <@42> ha rimosso una disponibilità che copriva `sess1234`. Sessione: lunedì 01/06 dalle 21:00 alle 23:00. Controlla `/ss overlaps` e ripianifica se serve."
    );
}

#[test]
fn scheduling_needs_a_valid_table_and_a_channel() {
    assert!(matches!(overlap_item_or_missing(None), Err(SchedulerError::MissingOverlapBatch)));
    assert_eq!(overlap_item_or_missing(Some(item(&["Anna"]))).unwrap().id, "item0001");
    assert_eq!(schedule_channel_or_missing(None), Err(SchedulerError::MissingScheduleChannel));
    assert_eq!(schedule_channel_or_missing(Some("55".to_string())), Ok("55".to_string()));
    assert_eq!(announcement_channel("55"), Ok(55));
    assert_eq!(
        announcement_channel("canale"),
        Err(SchedulerError::InvalidInput("il canale configurato nel database non e' valido".to_string()))
    );
}

#[test]
fn schedule_announcement_and_confirmation() {
    assert_eq!(participant_list(&Vec::new()), "nessun partecipante registrato");
    assert_eq!(participant_list(&strings(&["Anna", "Bruno"])), "Anna, Bruno");
    assert_eq!(
        schedule_announcement(&item(&["Anna", "Bruno"]), "Admin"),
        "🎲 **Prossima sessione fissata!**\n\nQuando: lunedì 01/06 dalle 21:00 alle 23:00\nPartecipanti disponibili: Anna, Bruno\nSchedulata da: Admin"
    );
    assert_eq!(
        schedule_announcement(&item(&[]), "Admin"),
        "🎲 **Prossima sessione fissata!**\n\nQuando: lunedì 01/06 dalle 21:00 alle 23:00\nPartecipanti disponibili: nessun partecipante registrato\nSchedulata da: Admin"
    );
    assert_eq!(
        schedule_confirmation("sess1234", &item(&["Anna"])),
        "Sessione `sess1234` schedulata: lunedì 01/06 dalle 21:00 alle 23:00."
    );
}
