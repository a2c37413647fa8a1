//! The decisions and the texts behind the `/ss` commands. The bot reads the
//! command and the store, hands the values here, and sends what comes back.
use vstd::prelude::*;

use crate::error::{outcome_is, SchedulerError};
use crate::models::{
    AvailabilityInstance, AvailabilityRow, NewAvailability, OverlapSlot, PlanningWeek, ScheduledSession, StoredOverlapItem,
    Weekday, weekday_of_number,
};
use crate::db::assert_found;
use crate::permissions::{channel_id_from_str, mention_user};
use crate::overlap::{find_position, holds_string, strictly_sorted};
use crate::text::{lemma_increasing_unique, lex_less, parse_u64, parse_u64_spec, lemma_lex_irreflexive, lemma_lex_transitive, lex_lt, push_decimal, decimal_string, decimal_text, join_strings, joined, push_signed_decimal, signed_decimal_text, texts};
use crate::time::{
    add_days, availability_row_text, clock_outcome, clock_text, concrete_interval_for_next_occurrence, date_label,
    format_availability_row, format_interval, format_local_date, format_time, interval_text, lemma_near_plannable,
    day_label, lemma_clock_range, local_clock_text, lemma_near_plannable as near_plannable, next_interval_outcome, normalize_end_minute, parse_clock,
    push_day_label, rome_view, row_is_showable, to_rome, instance_for_week, instance_bounds_outcome, instance_in_range,
    spec_normalize_end_minute, weekday_it, weekday_name, weekday_number, weekday_number_of,
};
use crate::zone::{day_of_seconds, is_plannable_instant, is_valid_day};

verus! {

/// The day chosen in `/ss ican`.
#[derive(Debug, Clone, Copy, PartialEq, Eq, Structural)]
pub enum Giorno {
    Lun,
    Mar,
    Merc,
    Gio,
    Ven,
    Sab,
    Dom,
}

/// The weekday that each choice names.
pub open spec fn giorno_weekday(g: Giorno) -> Weekday {
    match g {
        Giorno::Lun => Weekday::Mon,
        Giorno::Mar => Weekday::Tue,
        Giorno::Merc => Weekday::Wed,
        Giorno::Gio => Weekday::Thu,
        Giorno::Ven => Weekday::Fri,
        Giorno::Sab => Weekday::Sat,
        Giorno::Dom => Weekday::Sun,
    }
}

impl Giorno {
    /// The weekday of the choice.
    pub fn weekday(self) -> (day: Weekday)
        ensures
            day == giorno_weekday(self),
    {
        match self {
            Giorno::Lun => Weekday::Mon,
            Giorno::Mar => Weekday::Tue,
            Giorno::Merc => Weekday::Wed,
            Giorno::Gio => Weekday::Thu,
            Giorno::Ven => Weekday::Fri,
            Giorno::Sab => Weekday::Sat,
            Giorno::Dom => Weekday::Sun,
        }
    }
}

/// The reply to `/ss` alone.
pub fn ss_text() -> (res: String)
    ensures
        res@ == "Usa un sottocomando: `/ss help`, `/ss ican`, `/ss list`, `/ss remove`, `/ss week`, `/ss overlaps`, `/ss schedule`."@,
{
    String::from_str(
        "Usa un sottocomando: `/ss help`, `/ss ican`, `/ss list`, `/ss remove`, `/ss week`, `/ss overlaps`, `/ss schedule`.",
    )
}

/// The reply to `/ss config` alone.
pub fn config_text() -> (res: String)
    ensures
        res@ == "Configura il bot con `/ss config channel`."@,
{
    String::from_str("Configura il bot con `/ss config channel`.")
}

/// The quick guide of `/ss help`.
pub open spec fn help_message() -> Seq<char> {
    "**SessionScheduler: guida rapida**\n\n`/ss ican` aggiunge una tua disponibilita'. Usa `giorno`, `start`, `end` e facoltativamente `ricorrente:true`.\n`/ss list` mostra solo le tue disponibilita' future con il loro ID.\n`/ss remove` rimuove una disponibilita' usando il suo ID.\n`/ss week` mostra le disponibilita' della prossima settimana.\n`/ss overlaps` cerca gli slot della prossima settimana in cui tutti gli utenti attivi sono disponibili.\n`/ss schedule` permette a un admin di fissare una sessione da un overlap ID gia' salvato.\n`/ss config channel` permette a un admin di scegliere il canale dove pubblicare le sessioni.\n\nEsempio rapido:\n`/ss ican giorno:lun start:21:00 end:02:00`\n\nNote:\n- accetta sia `21:00` sia `21.00`\n- se `end <= start`, la disponibilita' passa a dopo mezzanotte\n- per pianificare una sessione, un admin deve prima eseguire `/ss overlaps`"@
}

/// The quick guide of `/ss help`.
pub fn help_text() -> (res: String)
    ensures
        res@ == help_message(),
{
    String::from_str(
        "**SessionScheduler: guida rapida**\n\n`/ss ican` aggiunge una tua disponibilita'. Usa `giorno`, `start`, `end` e facoltativamente `ricorrente:true`.\n`/ss list` mostra solo le tue disponibilita' future con il loro ID.\n`/ss remove` rimuove una disponibilita' usando il suo ID.\n`/ss week` mostra le disponibilita' della prossima settimana.\n`/ss overlaps` cerca gli slot della prossima settimana in cui tutti gli utenti attivi sono disponibili.\n`/ss schedule` permette a un admin di fissare una sessione da un overlap ID gia' salvato.\n`/ss config channel` permette a un admin di scegliere il canale dove pubblicare le sessioni.\n\nEsempio rapido:\n`/ss ican giorno:lun start:21:00 end:02:00`\n\nNote:\n- accetta sia `21:00` sia `21.00`\n- se `end <= start`, la disponibilita' passa a dopo mezzanotte\n- per pianificare una sessione, un admin deve prima eseguire `/ss overlaps`",
    )
}

/// The server of the command as decimal text; commands outside a server are
/// refused.
pub fn guild_id_string(guild_id: Option<u64>) -> (res: Result<String, SchedulerError>)
    ensures
        match guild_id {
            Some(id) => res is Ok && res->Ok_0@ == decimal_text(id as nat),
            None => res == Err::<String, SchedulerError>(SchedulerError::MissingGuild),
        },
{
    match guild_id {
        Some(id) => Ok(decimal_string(id)),
        None => Err(SchedulerError::MissingGuild),
    }
}

/// The author of the command as decimal text.
pub fn author_id_string(author_id: u64) -> (res: String)
    ensures
        res@ == decimal_text(author_id as nat),
{
    decimal_string(author_id)
}

/// The name shown for the author: the global display name when there is one,
/// else the account name.
pub fn author_name(global_name: Option<String>, name: String) -> (res: String)
    ensures
        res@ == match global_name {
            Some(g) => g@,
            None => name@,
        },
{
    match global_name {
        Some(g) => g,
        None => name,
    }
}

/// The reply once the session channel is set: `<#id>` mentions the channel.
pub fn channel_configured_message(channel_id: u64) -> (res: String)
    ensures
        res@ == "Canale sessioni configurato: <#"@ + decimal_text(channel_id as nat) + ">"@,
{
    let mut s = String::from_str("Canale sessioni configurato: <#");
    let id = decimal_string(channel_id);
    s.append(id.as_str());
    s.append(">");
    s
}

/// The calendar bounds around `now_utc` that `/ss ican` needs.
pub open spec fn ican_in_range(now_utc: int) -> bool {
    let d = day_of_seconds(now_utc);
    &&& is_plannable_instant(now_utc)
    &&& is_valid_day(d - 3)
    &&& is_valid_day(d + 11)
}

/// Whether `now_utc` is far enough from the ends of chrono's range for
/// `/ss ican`.
pub fn ican_in_range_check(now_utc: i64) -> (res: bool)
    ensures
        res == ican_in_range(now_utc as int),
{
    if !crate::zone::instant_is_plannable(now_utc) {
        return false;
    }
    let d = now_utc.checked_div_euclid(crate::zone::SECONDS_PER_DAY).unwrap() + crate::zone::UNIX_EPOCH_DAY;
    crate::zone::day_is_valid(d - 3) && crate::zone::day_is_valid(d + 11)
}

/// What `/ss ican` saves and replies, from the parsed times and the next
/// occurrence: the availability keeps the start minute and the end minute
/// after the overnight rule.
pub open spec fn ican_outcome(
    day: Giorno,
    start: Seq<char>,
    end: Seq<char>,
    is_recurring: bool,
    now_utc: i64,
    id: Seq<char>,
) -> Result<(int, int, i64, i64, Seq<char>), Seq<char>> {
    match clock_outcome(start, false) {
        Err(e) => Err(e),
        Ok(start_minute) => match clock_outcome(end, true) {
            Err(e) => Err(e),
            Ok(raw_end) => match next_interval_outcome(giorno_weekday(day), start_minute as int, raw_end as int, now_utc) {
                Err(e) => Err(e),
                Ok((starts_at, ends_at, normalized_end)) => {
                    let message = if is_recurring {
                        "Disponibilità aggiunta: `"@ + id + "`: "@ + weekday_name(giorno_weekday(day)) + " dalle "@
                            + clock_text(start_minute as int % 1440) + " alle "@ + clock_text(
                            spec_normalize_end_minute(start_minute as int, raw_end as int) % 1440,
                        ) + " ricorrente."@
                    } else {
                        "Disponibilità aggiunta: `"@ + id + "`. Hai messo disponibilità "@ + interval_text(starts_at, ends_at)
                            + " non ricorrente."@
                    };
                    Ok((start_minute as int, normalized_end as int, starts_at, ends_at, message))
                },
            },
        },
    }
}

/// `/ss ican`: reads the two times, finds the next occurrence of the day from
/// `now_utc`, and gives the availability to save under `id` with the reply.
/// `ricorrente` defaults to false.
#[verifier::rlimit(40)]
pub fn plan_availability(
    day: Giorno,
    start: &str,
    end: &str,
    ricorrente: Option<bool>,
    now_utc: i64,
    id: String,
    guild_id: String,
    user_id: String,
    username: String,
) -> (res: Result<(NewAvailability, String), SchedulerError>)
    requires
        ican_in_range(now_utc as int),
    ensures
        ({
            let is_recurring = match ricorrente {
                Some(b) => b,
                None => false,
            };
            match (res, ican_outcome(day, start@, end@, is_recurring, now_utc, id@)) {
                (Ok((a, message)), Ok((start_minute, end_minute, starts_at, ends_at, text))) => {
                    &&& a.id@ == id@
                    &&& a.guild_id@ == guild_id@
                    &&& a.user_id@ == user_id@
                    &&& a.username@ == username@
                    &&& a.weekday == weekday_number_of(giorno_weekday(day))
                    &&& a.start_minute == start_minute
                    &&& a.end_minute == end_minute
                    &&& a.starts_at_utc == starts_at
                    &&& a.ends_at_utc == ends_at
                    &&& a.is_recurring == is_recurring
                    &&& message@ == text
                },
                (Err(SchedulerError::InvalidInput(m)), Err(w)) => m@ == w,
                _ => false,
            }
        }),
{
    let weekday = day.weekday();
    let is_recurring = match ricorrente {
        Some(b) => b,
        None => false,
    };
    let start_minute = match parse_clock(start, false) {
        Ok(m) => m,
        Err(e) => {
            return Err(e);
        },
    };
    let raw_end_minute = match parse_clock(end, true) {
        Ok(m) => m,
        Err(e) => {
            return Err(e);
        },
    };
    assert(0 <= start_minute < 1440 && 0 <= raw_end_minute <= 1440);
    let end_minute = normalize_end_minute(start_minute, raw_end_minute);
    let (starts_at_utc, ends_at_utc, normalized_end) = match concrete_interval_for_next_occurrence(
        weekday,
        start_minute,
        raw_end_minute,
        now_utc,
    ) {
        Ok(t) => t,
        Err(e) => {
            return Err(e);
        },
    };
    let mut message = String::from_str("Disponibilità aggiunta: `");
    message.append(id.as_str());
    if is_recurring {
        message.append("`: ");
        message.append(weekday_it(weekday));
        message.append(" dalle ");
        let from = format_time(start_minute);
        message.append(from.as_str());
        message.append(" alle ");
        let to = format_time(end_minute);
        message.append(to.as_str());
        message.append(" ricorrente.");
    } else {
        proof {
            lemma_near_plannable(now_utc as int, now_utc as int);
        }
        message.append("`. Hai messo disponibilità ");
        let interval = format_interval(starts_at_utc, ends_at_utc);
        message.append(interval.as_str());
        message.append(" non ricorrente.");
    }
    let availability = NewAvailability {
        id,
        guild_id,
        user_id,
        username,
        weekday: weekday_number(weekday),
        start_minute,
        end_minute: normalized_end,
        starts_at_utc,
        ends_at_utc,
        is_recurring,
    };
    Ok((availability, message))
}

/// Every accepted `/ss ican`, recurring or not, saves the start minute it
/// read and an end after the overnight rule: strictly after the start, at
/// most a day later, and at the wall-clock time that was given for the end.
/// The weekday saved reads back as the chosen day.
pub proof fn lemma_ican_saves_overnight_end(
    day: Giorno,
    start: Seq<char>,
    end: Seq<char>,
    is_recurring: bool,
    now_utc: i64,
    id: Seq<char>,
)
    requires
        ican_outcome(day, start, end, is_recurring, now_utc, id) is Ok,
    ensures
        ({
            let (start_minute, end_minute, _, _, _) = ican_outcome(day, start, end, is_recurring, now_utc, id)->Ok_0;
            &&& clock_outcome(start, false) == Ok::<i64, Seq<char>>(start_minute as i64)
            &&& clock_outcome(end, true) is Ok
            &&& start_minute < end_minute <= start_minute + 1440
            &&& end_minute % 1440 == clock_outcome(end, true)->Ok_0 % 1440
        }),
        weekday_of_number(weekday_number_of(giorno_weekday(day))) == giorno_weekday(day),
{
    let raw = clock_outcome(end, true)->Ok_0;
    let st = clock_outcome(start, false)->Ok_0;
    assert(0 <= st < 1440 && 0 <= raw <= 1440) by {
        lemma_clock_range(start, false);
        lemma_clock_range(end, true);
    }
    if raw <= st {
        assert((raw + 1440) % 1440 == raw % 1440);
    }
}

/// The reply of `/ss list` for the saved future availabilities of a user.
pub open spec fn list_text(rows: Seq<AvailabilityRow>) -> Seq<char> {
    if rows.len() == 0 {
        "Non hai disponibilità future salvate."@
    } else {
        joined(
            seq!["Le tue disponibilità future:"@, Seq::<char>::empty()] + rows.map_values(|r: AvailabilityRow| availability_row_text(r)),
            "\n"@,
        )
    }
}

/// The reply of `/ss list`: a header, then one line per availability.
pub fn list_message(rows: &Vec<AvailabilityRow>) -> (res: String)
    requires
        forall|k: int| 0 <= k < rows.len() ==> row_is_showable(#[trigger] rows@[k]),
    ensures
        res@ == list_text(rows@),
{
    if rows.len() == 0 {
        return String::from_str("Non hai disponibilità future salvate.");
    }
    let mut lines: Vec<String> = Vec::new();
    lines.push(String::from_str("Le tue disponibilità future:"));
    lines.push(String::new());
    let ghost head = seq!["Le tue disponibilità future:"@, Seq::<char>::empty()];
    let mut k: usize = 0;
    while k < rows.len()
        invariant
            k <= rows.len(),
            forall|q: int| 0 <= q < rows.len() ==> row_is_showable(#[trigger] rows@[q]),
            texts(lines@) == head + rows@.take(k as int).map_values(|r: AvailabilityRow| availability_row_text(r)),
        decreases rows.len() - k,
    {
        let line = format_availability_row(&rows[k]);
        let ghost before_lines = lines@;
        lines.push(line);
        assert(texts(lines@) =~= texts(before_lines).push(availability_row_text(rows@[k as int])));
        assert(rows@.take(k as int + 1).map_values(|r: AvailabilityRow| availability_row_text(r))
            =~= rows@.take(k as int).map_values(|r: AvailabilityRow| availability_row_text(r)).push(availability_row_text(rows@[k as int])));
        assert(texts(lines@) =~= head + rows@.take(k as int + 1).map_values(|r: AvailabilityRow| availability_row_text(r)));
        k = k + 1;
    }
    assert(rows@.take(k as int) =~= rows@);
    join_strings(&lines, "\n")
}

/// `from DD/MM to DD/MM:` for the days of the planning week (the end is the
/// day before `end_date`).
pub open spec fn week_span(prefix: Seq<char>, week: PlanningWeek) -> Seq<char> {
    prefix + date_label(week.start_date.days_from_ce as int) + " al "@ + date_label(week.end_date.days_from_ce - 1) + ":"@
}

/// Appends the span of the planning week after `prefix`.
fn week_span_line(prefix: &str, week: PlanningWeek) -> (res: String)
    requires
        is_valid_day(week.start_date.days_from_ce as int),
        is_valid_day(week.end_date.days_from_ce - 1),
    ensures
        res@ == week_span(prefix@, week),
{
    let mut s = String::from_str(prefix);
    let from = format_local_date(week.start_date);
    s.append(from.as_str());
    s.append(" al ");
    let last_day = add_days(week.end_date, -1);
    let to = format_local_date(last_day);
    s.append(to.as_str());
    s.append(":");
    s
}

/// The line of a slot in `/ss overlaps`: numbered for an admin, a bullet for
/// anyone else.
pub open spec fn slot_line(slot: OverlapSlot, admin: bool) -> Seq<char> {
    if admin {
        signed_decimal_text(slot.display_index as int) + ") "@ + interval_text(slot.start_utc, slot.end_utc)
    } else {
        "- "@ + interval_text(slot.start_utc, slot.end_utc)
    }
}

/// The reply of `/ss overlaps`.
pub open spec fn overlaps_text(week: PlanningWeek, slots: Seq<OverlapSlot>, admin: bool) -> Seq<char> {
    if slots.len() == 0 {
        "Non ci sono overlap completi: almeno una persona attiva nella settimana non è disponibile negli stessi slot degli altri."@
    } else {
        let head = seq![week_span("Overlap completi dal "@, week), Seq::<char>::empty()];
        let body = slots.map_values(|slot: OverlapSlot| slot_line(slot, admin));
        let tail = if admin {
            seq![
                Seq::<char>::empty(),
                "Ho salvato questi ID per `/ss schedule id:[numero]`. Qualsiasi modifica alle disponibilità li invaliderà."@,
            ]
        } else {
            Seq::<Seq<char>>::empty()
        };
        joined(head + body + tail, "\n"@)
    }
}

/// The instants of a slot are away from the ends of chrono's range.
pub open spec fn slot_is_showable(slot: OverlapSlot) -> bool {
    is_plannable_instant(slot.start_utc as int) && is_plannable_instant(slot.end_utc as int)
}

/// The dates of the planning week are dates chrono can hold.
pub open spec fn week_is_showable(week: PlanningWeek) -> bool {
    is_valid_day(week.start_date.days_from_ce as int) && is_valid_day(week.end_date.days_from_ce - 1)
}

/// Whether the dates of the planning week are ones chrono can hold.
pub fn week_is_showable_check(week: PlanningWeek) -> (res: bool)
    ensures
        res == week_is_showable(week),
{
    crate::zone::day_is_valid(week.start_date.days_from_ce as i64)
        && crate::zone::day_is_valid(week.end_date.days_from_ce as i64 - 1)
}

/// Whether `/ss overlaps` saves its table: only when an admin runs it and it
/// found slots.
pub fn stores_overlap_table(admin: bool, slot_count: usize) -> (res: bool)
    ensures
        res == (admin && slot_count > 0),
{
    admin && slot_count > 0
}

/// The reply of `/ss overlaps`: the full overlaps of the planning week, with
/// the numbers to use in `/ss schedule` when an admin asks.
pub fn overlaps_message(week: PlanningWeek, slots: &Vec<OverlapSlot>, admin: bool) -> (res: String)
    requires
        slots.len() > 0 ==> week_is_showable(week),
        forall|k: int| 0 <= k < slots.len() ==> slot_is_showable(#[trigger] slots@[k]),
    ensures
        res@ == overlaps_text(week, slots@, admin),
{
    if slots.len() == 0 {
        return String::from_str(
            "Non ci sono overlap completi: almeno una persona attiva nella settimana non è disponibile negli stessi slot degli altri.",
        );
    }
    let mut lines: Vec<String> = Vec::new();
    lines.push(week_span_line("Overlap completi dal ", week));
    lines.push(String::new());
    let ghost head = seq![week_span("Overlap completi dal "@, week), Seq::<char>::empty()];
    let mut k: usize = 0;
    while k < slots.len()
        invariant
            k <= slots.len(),
            forall|q: int| 0 <= q < slots.len() ==> slot_is_showable(#[trigger] slots@[q]),
            texts(lines@) == head + slots@.take(k as int).map_values(|slot: OverlapSlot| slot_line(slot, admin)),
        decreases slots.len() - k,
    {
        let slot = &slots[k];
        let mut line = String::new();
        if admin {
            push_signed_decimal(&mut line, slot.display_index);
            line.append(") ");
        } else {
            line.append("- ");
        }
        let interval = format_interval(slot.start_utc, slot.end_utc);
        line.append(interval.as_str());
        let ghost before_lines = lines@;
        let ghost line_text = line@;
        lines.push(line);
        assert(texts(lines@) =~= texts(before_lines).push(line_text));
        assert(slots@.take(k as int + 1).map_values(|slot: OverlapSlot| slot_line(slot, admin))
            =~= slots@.take(k as int).map_values(|slot: OverlapSlot| slot_line(slot, admin)).push(slot_line(slots@[k as int], admin)));
        assert(texts(lines@) =~= head + slots@.take(k as int + 1).map_values(|slot: OverlapSlot| slot_line(slot, admin)));
        k = k + 1;
    }
    assert(slots@.take(k as int) =~= slots@);
    let ghost before = texts(lines@);
    if admin {
        let ghost before_lines = lines@;
        lines.push(String::new());
        lines.push(String::from_str(
            "Ho salvato questi ID per `/ss schedule id:[numero]`. Qualsiasi modifica alle disponibilità li invaliderà.",
        ));
        assert(texts(lines@) =~= texts(before_lines) + seq![
            Seq::<char>::empty(),
            "Ho salvato questi ID per `/ss schedule id:[numero]`. Qualsiasi modifica alle disponibilità li invaliderà."@,
        ]);
    }
    assert(texts(lines@) =~= head + slots@.map_values(|slot: OverlapSlot| slot_line(slot, admin)) + (if admin {
        seq![
            Seq::<char>::empty(),
            "Ho salvato questi ID per `/ss schedule id:[numero]`. Qualsiasi modifica alle disponibilità li invaliderà."@,
        ]
    } else {
        Seq::<Seq<char>>::empty()
    }));
    join_strings(&lines, "\n")
}

/// Key and value of each pair, by their characters.
pub open spec fn pairs_of(keys: Seq<String>, values: Seq<String>) -> Seq<(Seq<char>, Seq<char>)> {
    Seq::new(keys.len(), |i: int| (keys[i]@, values[i]@))
}

/// The values of the pairs with key `k`, in their order.
pub open spec fn values_with_key(pairs: Seq<(Seq<char>, Seq<char>)>, k: Seq<char>) -> Seq<Seq<char>>
    decreases pairs.len(),
{
    if pairs.len() == 0 {
        Seq::empty()
    } else {
        let rest = values_with_key(pairs.drop_last(), k);
        if pairs.last().0 == k {
            rest.push(pairs.last().1)
        } else {
            rest
        }
    }
}

/// `ks` lists each key of the pairs once, in lexicographic order (the order
/// of a `BTreeMap` keyed by strings).
pub open spec fn sorted_keys(ks: Seq<Seq<char>>, pairs: Seq<(Seq<char>, Seq<char>)>) -> bool {
    &&& forall|a: int, b: int| 0 <= a < b < ks.len() ==> lex_lt(#[trigger] ks[a], #[trigger] ks[b])
    &&& forall|k: Seq<char>| #[trigger] ks.contains(k) <==> exists|i: int| 0 <= i < pairs.len() && (#[trigger] pairs[i]).0 == k
}

/// The groups of `/ss week` come in one order only: two key lists that are
/// both sorted and hold exactly the keys of the same pairs are the same list.
pub proof fn lemma_sorted_keys_unique(ks1: Seq<Seq<char>>, ks2: Seq<Seq<char>>, pairs: Seq<(Seq<char>, Seq<char>)>)
    requires
        sorted_keys(ks1, pairs),
        sorted_keys(ks2, pairs),
    ensures
        ks1 == ks2,
{
    assert forall|k: Seq<char>| ks1.contains(k) <==> ks2.contains(k) by {
        if ks1.contains(k) {
            assert(exists|i: int| 0 <= i < pairs.len() && (#[trigger] pairs[i]).0 == k);
        }
        if ks2.contains(k) {
            assert(exists|i: int| 0 <= i < pairs.len() && (#[trigger] pairs[i]).0 == k);
        }
    }
    lemma_increasing_unique(ks1, ks2);
}

/// The distinct strings of `keys`, in lexicographic order.
fn sorted_distinct(keys: &Vec<String>) -> (res: Vec<String>)
    ensures
        strictly_sorted(res@),
        forall|u: Seq<char>| #[trigger] holds_string(res@, u) <==> holds_string(keys@, u),
{
    let mut res: Vec<String> = Vec::new();
    let mut j: usize = 0;
    while j < keys.len()
        invariant
            j <= keys.len(),
            strictly_sorted(res@),
            forall|u: Seq<char>| #[trigger] holds_string(res@, u) <==> holds_string(keys@.take(j as int), u),
        decreases keys.len() - j,
    {
        let ghost uv = keys@[j as int]@;
        assert forall|u: Seq<char>| #[trigger] holds_string(keys@.take(j as int + 1), u)
            <==> (holds_string(keys@.take(j as int), u) || u == uv) by {
            if holds_string(keys@.take(j as int + 1), u) {
                let m = choose|m: int| 0 <= m < keys@.take(j as int + 1).len() && (#[trigger] keys@.take(j as int + 1)[m])@ == u;
                if m < j {
                    assert(keys@.take(j as int)[m] == keys@.take(j as int + 1)[m]);
                }
            }
            if holds_string(keys@.take(j as int), u) {
                let m = choose|m: int| 0 <= m < keys@.take(j as int).len() && (#[trigger] keys@.take(j as int)[m])@ == u;
                assert(keys@.take(j as int + 1)[m] == keys@.take(j as int)[m]);
            }
            if u == uv {
                assert(keys@.take(j as int + 1)[j as int]@ == u);
            }
        }
        let (p, found) = find_position(&res, &keys[j]);
        if !found {
            let ghost old_res = res@;
            proof {
                assert forall|m: int| 0 <= m < old_res.len() implies (#[trigger] old_res[m])@ != uv by {
                    if old_res[m]@ == uv {
                        lemma_lex_irreflexive(uv);
                    }
                }
            }
            res.insert(p, keys[j].clone());
            proof {
                assert forall|a: int, b: int| 0 <= a < b < res@.len() implies lex_lt((#[trigger] res@[a])@, (#[trigger] res@[b])@) by {
                    if b < p {
                        assert(res@[a] == old_res[a] && res@[b] == old_res[b]);
                    } else if b == p {
                        assert(res@[a] == old_res[a]);
                    } else if a < p {
                        assert(res@[a] == old_res[a] && res@[b] == old_res[b - 1]);
                        lemma_lex_transitive(old_res[a]@, uv, old_res[b - 1]@);
                    } else if a == p {
                        assert(res@[b] == old_res[b - 1]);
                    } else {
                        assert(res@[a] == old_res[a - 1] && res@[b] == old_res[b - 1]);
                    }
                }
                assert forall|u: Seq<char>| #[trigger] holds_string(res@, u) <==> holds_string(keys@.take(j as int + 1), u) by {
                    if holds_string(res@, u) {
                        let m = choose|m: int| 0 <= m < res@.len() && (#[trigger] res@[m])@ == u;
                        if m < p {
                            assert(old_res[m] == res@[m]);
                            assert(holds_string(old_res, u));
                        } else if m > p {
                            assert(old_res[m - 1] == res@[m]);
                            assert(holds_string(old_res, u));
                        }
                    }
                    if holds_string(keys@.take(j as int + 1), u) {
                        if u == uv {
                            assert(res@[p as int]@ == u);
                        } else {
                            assert(holds_string(old_res, u));
                            let m = choose|m: int| 0 <= m < old_res.len() && (#[trigger] old_res[m])@ == u;
                            if m < p {
                                assert(res@[m] == old_res[m]);
                            } else {
                                assert(res@[m + 1] == old_res[m]);
                            }
                        }
                    }
                }
            }
        } else {
            assert(holds_string(res@, uv));
        }
        j = j + 1;
    }
    assert(keys@.take(j as int) =~= keys@);
    res
}

/// The values paired with `key`, in their order.
fn values_for(keys: &Vec<String>, values: &Vec<String>, key: &String) -> (res: Vec<String>)
    requires
        keys.len() == values.len(),
    ensures
        texts(res@) == values_with_key(pairs_of(keys@, values@), key@),
{
    let mut res: Vec<String> = Vec::new();
    let mut j: usize = 0;
    while j < keys.len()
        invariant
            keys.len() == values.len(),
            j <= keys.len(),
            texts(res@) == values_with_key(pairs_of(keys@.take(j as int), values@.take(j as int)), key@),
        decreases keys.len() - j,
    {
        let ghost before = res@;
        let ghost p0 = pairs_of(keys@.take(j as int), values@.take(j as int));
        let ghost p1 = pairs_of(keys@.take(j as int + 1), values@.take(j as int + 1));
        assert(p1.drop_last() =~= p0);
        assert(p1.last() == (keys@[j as int]@, values@[j as int]@));
        if keys[j] == *key {
            res.push(values[j].clone());
            assert(texts(res@) =~= texts(before).push(values@[j as int]@));
        }
        j = j + 1;
    }
    assert(keys@.take(j as int) =~= keys@);
    assert(values@.take(j as int) =~= values@);
    res
}

/// The lines of the admin view of `/ss week`: for each day, a blank line, the
/// day in bold, then its availabilities.
pub open spec fn day_groups(ks: Seq<Seq<char>>, pairs: Seq<(Seq<char>, Seq<char>)>) -> Seq<Seq<char>>
    decreases ks.len(),
{
    if ks.len() == 0 {
        Seq::empty()
    } else {
        day_groups(ks.drop_last(), pairs) + seq![Seq::<char>::empty(), "**"@ + ks.last() + "**"@] + values_with_key(
            pairs,
            ks.last(),
        )
    }
}

/// The lines of the view of `/ss week` for anyone else: each interval with
/// the number of people available then.
pub open spec fn count_lines(ks: Seq<Seq<char>>, pairs: Seq<(Seq<char>, Seq<char>)>) -> Seq<Seq<char>> {
    ks.map_values(|k: Seq<char>| "- "@ + k + ": "@ + decimal_text(values_with_key(pairs, k).len()) + " persone"@)
}

/// The day under which an admin sees an instance, and its line.
pub open spec fn admin_pair(i: AvailabilityInstance) -> (Seq<char>, Seq<char>) {
    (
        day_label(rome_view(i.start_utc).local as int),
        "- `"@ + i.availability_id@ + "` "@ + i.username@ + ": "@ + interval_text(i.start_utc, i.end_utc),
    )
}

/// In the admin view of `/ss week` an availability stands under the day on
/// which it starts in Rome: its heading is exactly the day with which the
/// text of its interval begins.
pub proof fn lemma_admin_heading_is_start_day(i: AvailabilityInstance)
    ensures
        interval_text(i.start_utc, i.end_utc).take(admin_pair(i).0.len() + 7int) == admin_pair(i).0 + " dalle "@,
        admin_pair(i).0 == day_label(rome_view(i.start_utc).local as int),
{
    let s = rome_view(i.start_utc).local as int;
    let e = rome_view(i.end_utc).local as int;
    let head = day_label(s) + " dalle "@;
    reveal_strlit(" dalle ");
    assert(" dalle "@.len() == 7);
    if day_of_seconds(s) == day_of_seconds(e) {
        let rest = local_clock_text(s) + " alle "@ + local_clock_text(e);
        assert(interval_text(i.start_utc, i.end_utc) =~= head + rest);
    } else {
        let rest = local_clock_text(s) + " fino a "@ + day_label(e) + " alle "@ + local_clock_text(e);
        assert(interval_text(i.start_utc, i.end_utc) =~= head + rest);
    }
    assert((head + local_clock_text(s)).take(head.len() as int) =~= head);
}

/// The interval of an instance, as counted in the public view.
pub open spec fn public_pair(i: AvailabilityInstance) -> (Seq<char>, Seq<char>) {
    (interval_text(i.start_utc, i.end_utc), Seq::<char>::empty())
}

/// The instants of an instance are away from the ends of chrono's range.
pub open spec fn instance_is_showable(i: AvailabilityInstance) -> bool {
    is_plannable_instant(i.start_utc as int) && is_plannable_instant(i.end_utc as int)
}

/// The reply of `/ss week`, given the sorted keys `ks` of its grouping.
pub open spec fn week_text_with(
    week: PlanningWeek,
    instances: Seq<AvailabilityInstance>,
    admin: bool,
    ks: Seq<Seq<char>>,
) -> Seq<char> {
    let header = week_span("Disponibilità dal "@, week);
    if admin {
        joined(seq![header] + day_groups(ks, instances.map_values(|i: AvailabilityInstance| admin_pair(i))), "\n"@)
    } else {
        joined(
            seq![header, Seq::<char>::empty()] + count_lines(ks, instances.map_values(|i: AvailabilityInstance| public_pair(i))),
            "\n"@,
        )
    }
}

/// The pairs by which `/ss week` groups the instances.
pub open spec fn week_pairs(instances: Seq<AvailabilityInstance>, admin: bool) -> Seq<(Seq<char>, Seq<char>)> {
    if admin {
        instances.map_values(|i: AvailabilityInstance| admin_pair(i))
    } else {
        instances.map_values(|i: AvailabilityInstance| public_pair(i))
    }
}

/// The reply of `/ss week`: an admin sees every availability under its day,
/// the days in lexicographic order of their labels; anyone else sees each
/// interval once with the number of people available then, the intervals in
/// lexicographic order of their text.
pub fn week_message(week: PlanningWeek, instances: &Vec<AvailabilityInstance>, admin: bool) -> (res: String)
    requires
        instances.len() > 0 ==> week_is_showable(week),
        forall|k: int| 0 <= k < instances.len() ==> instance_is_showable(#[trigger] instances@[k]),
    ensures
        instances.len() == 0 ==> res@ == "Nessuna disponibilità nella settimana di pianificazione."@,
        instances.len() > 0 ==> exists|ks: Seq<Seq<char>>|
            sorted_keys(ks, week_pairs(instances@, admin)) && res@ == week_text_with(week, instances@, admin, ks),
{
    if instances.len() == 0 {
        return String::from_str("Nessuna disponibilità nella settimana di pianificazione.");
    }
    let ghost pairs = week_pairs(instances@, admin);
    let mut keys: Vec<String> = Vec::new();
    let mut values: Vec<String> = Vec::new();
    let mut k: usize = 0;
    while k < instances.len()
        invariant
            k <= instances.len(),
            forall|q: int| 0 <= q < instances.len() ==> instance_is_showable(#[trigger] instances@[q]),
            pairs == week_pairs(instances@, admin),
            keys.len() == k,
            values.len() == k,
            forall|q: int| 0 <= q < k ==> pairs_of(keys@, values@)[q] == #[trigger] pairs[q],
        decreases instances.len() - k,
    {
        let inst = &instances[k];
        proof {
            near_plannable(inst.start_utc as int, inst.start_utc as int);
        }
        if admin {
            let start = to_rome(inst.start_utc);
            proof {
                near_plannable(inst.start_utc as int, start.local as int);
            }
            let mut key = String::new();
            push_day_label(&mut key, start.local);
            let mut line = String::from_str("- `");
            line.append(inst.availability_id.as_str());
            line.append("` ");
            line.append(inst.username.as_str());
            line.append(": ");
            let interval = format_interval(inst.start_utc, inst.end_utc);
            line.append(interval.as_str());
            keys.push(key);
            values.push(line);
        } else {
            let interval = format_interval(inst.start_utc, inst.end_utc);
            keys.push(interval);
            values.push(String::new());
        }
        proof {
            assert forall|q: int| 0 <= q < k + 1 implies pairs_of(keys@, values@)[q] == #[trigger] pairs[q] by {
                if q < k {
                    assert(pairs_of(keys@, values@)[q] == (keys@[q]@, values@[q]@));
                }
            }
        }
        k = k + 1;
    }
    assert(pairs_of(keys@, values@) =~= pairs);
    let ks = sorted_distinct(&keys);
    let ghost kseq = texts(ks@);
    proof {
        assert forall|a: int, b: int| 0 <= a < b < kseq.len() implies lex_lt(#[trigger] kseq[a], #[trigger] kseq[b]) by {
            assert(lex_lt(ks@[a]@, ks@[b]@));
        }
        assert forall|u: Seq<char>| #[trigger] kseq.contains(u) <==> exists|i: int| 0 <= i < pairs.len() && (#[trigger] pairs[i]).0 == u by {
            if kseq.contains(u) {
                let m = choose|m: int| 0 <= m < kseq.len() && kseq[m] == u;
                assert(holds_string(ks@, u));
                assert(holds_string(keys@, u));
                let i = choose|i: int| 0 <= i < keys@.len() && (#[trigger] keys@[i])@ == u;
                assert(pairs[i] == pairs_of(keys@, values@)[i]);
            }
            if exists|i: int| 0 <= i < pairs.len() && (#[trigger] pairs[i]).0 == u {
                let i = choose|i: int| 0 <= i < pairs.len() && (#[trigger] pairs[i]).0 == u;
                assert(pairs_of(keys@, values@)[i] == pairs[i]);
                assert(holds_string(keys@, u));
                assert(holds_string(ks@, u));
                let m = choose|m: int| 0 <= m < ks@.len() && (#[trigger] ks@[m])@ == u;
                assert(kseq[m] == u);
            }
        }
    }
    let mut lines: Vec<String> = Vec::new();
    let header = week_span_line("Disponibilità dal ", week);
    let ghost header_text = header@;
    lines.push(header);
    if !admin {
        lines.push(String::new());
    }
    let ghost head = texts(lines@);
    if admin {
        assert(head =~= seq![header_text]);
    } else {
        assert(head =~= seq![header_text, Seq::<char>::empty()]);
    }
    let mut g: usize = 0;
    while g < ks.len()
        invariant
            g <= ks.len(),
            keys.len() == values.len(),
            pairs_of(keys@, values@) == pairs,
            kseq == texts(ks@),
            admin ==> texts(lines@) == head + day_groups(kseq.take(g as int), pairs),
            !admin ==> texts(lines@) == head + count_lines(kseq.take(g as int), pairs),
        decreases ks.len() - g,
    {
        let ghost before = texts(lines@);
        let group = values_for(&keys, &values, &ks[g]);
        let ghost take1 = kseq.take(g as int + 1);
        assert(take1.drop_last() =~= kseq.take(g as int));
        assert(take1.last() == ks@[g as int]@);
        if admin {
            lines.push(String::new());
            let mut title = String::from_str("**");
            title.append(ks[g].as_str());
            title.append("**");
            lines.push(title);
            let mut e: usize = 0;
            while e < group.len()
                invariant
                    e <= group.len(),
                    texts(lines@) == before + seq![Seq::<char>::empty(), "**"@ + ks@[g as int]@ + "**"@] + texts(group@.take(e as int)),
                decreases group.len() - e,
            {
                let ghost inner = lines@;
                lines.push(group[e].clone());
                assert(texts(lines@) =~= texts(inner).push(group@[e as int]@));
                assert(texts(group@.take(e as int + 1)) =~= texts(group@.take(e as int)).push(group@[e as int]@));
                e = e + 1;
            }
            assert(group@.take(e as int) =~= group@);
            assert(texts(lines@) =~= head + day_groups(take1, pairs));
        } else {
            let mut line = String::from_str("- ");
            line.append(ks[g].as_str());
            line.append(": ");
            push_decimal(&mut line, group.len() as u64);
            line.append(" persone");
            let ghost inner = lines@;
            let ghost line_text = line@;
            lines.push(line);
            assert(texts(lines@) =~= texts(inner).push(line_text));
            assert(texts(group@).len() == group@.len());
            assert(count_lines(take1, pairs) =~= count_lines(kseq.take(g as int), pairs).push(
                "- "@ + ks@[g as int]@ + ": "@ + decimal_text(values_with_key(pairs, ks@[g as int]@).len()) + " persone"@));
            assert(texts(lines@) =~= head + count_lines(take1, pairs));
        }
        g = g + 1;
    }
    assert(kseq.take(g as int) =~= kseq);
    let res = join_strings(&lines, "\n");
    assert(header_text == week_span("Disponibilità dal "@, week));
    assert(res@ == week_text_with(week, instances@, admin, kseq));
    res
}

/// Whether a user may remove an availability: an admin may remove any, anyone
/// else only their own.
pub fn may_remove(admin: bool, owner_id: &str, author_id: &str) -> (res: bool)
    ensures
        res == (admin || owner_id@ == author_id@),
{
    if admin {
        return true;
    }
    let owner = String::from_str(owner_id);
    let author = String::from_str(author_id);
    owner == author
}

/// The reply when a user tries to remove someone else's availability.
pub fn removal_denied_text() -> (res: String)
    ensures
        res@ == "Puoi rimuovere solo le tue disponibilità."@,
{
    String::from_str("Puoi rimuovere solo le tue disponibilità.")
}

/// The reply of `/ss remove`, with the warning when the availability covered
/// a scheduled session.
pub fn removal_message(id: &str, has_conflicts: bool) -> (res: String)
    ensures
        res@ == "Disponibilità `"@ + id@ + "` rimossa. Ho anche pulito gli overlap salvati."@ + (if has_conflicts {
            "\n\n⚠️ Attenzione: questa disponibilità copriva una sessione già schedulata. Ho avvisato l'admin che l'ha fissata."@
        } else {
            Seq::<char>::empty()
        }),
{
    let mut s = String::from_str("Disponibilità `");
    s.append(id);
    s.append("` rimossa. Ho anche pulito gli overlap salvati.");
    if has_conflicts {
        s.append(
            "\n\n⚠️ Attenzione: questa disponibilità copriva una sessione già schedulata. Ho avvisato l'admin che l'ha fissata.",
        );
    }
    s
}

/// The user to warn about a session: the admin who fixed it, when the stored
/// id reads as a number.
pub fn scheduling_admin_id(session: &ScheduledSession) -> (res: Option<u64>)
    ensures
        match res {
            Some(id) => parse_u64_spec(session.scheduled_by_user_id@) == Some(id as int),
            None => parse_u64_spec(session.scheduled_by_user_id@) is None,
        },
{
    parse_u64(session.scheduled_by_user_id.as_str())
}

/// The direct message to the admin of a session whose participant removed an
/// availability that covered it.
pub fn conflict_notice(removed_user_id: &str, session: &ScheduledSession) -> (res: String)
    requires
        is_plannable_instant(session.start_utc as int),
        is_plannable_instant(session.end_utc as int),
    ensures
        res@ == "⚠️ Problema su una sessione schedulata: "@ + "<@"@ + removed_user_id@ + ">"@
            + " ha rimosso una disponibilità che copriva `"@ + session.id@ + "`. Sessione: "@
            + interval_text(session.start_utc, session.end_utc)
            + ". Controlla `/ss overlaps` e ripianifica se serve."@,
{
    let mut s = String::from_str("⚠️ Problema su una sessione schedulata: ");
    let mention = mention_user(removed_user_id);
    s.append(mention.as_str());
    s.append(" ha rimosso una disponibilità che copriva `");
    s.append(session.id.as_str());
    s.append("`. Sessione: ");
    let interval = format_interval(session.start_utc, session.end_utc);
    s.append(interval.as_str());
    s.append(". Controlla `/ss overlaps` e ripianifica se serve.");
    s
}

/// The slot to schedule: a missing one means there is no valid table.
pub fn overlap_item_or_missing(item: Option<StoredOverlapItem>) -> (res: Result<StoredOverlapItem, SchedulerError>)
    ensures
        match item {
            Some(i) => res == Ok::<StoredOverlapItem, SchedulerError>(i),
            None => res == Err::<StoredOverlapItem, SchedulerError>(SchedulerError::MissingOverlapBatch),
        },
{
    match assert_found(item) {
        Ok(i) => Ok(i),
        Err(_) => Err(SchedulerError::MissingOverlapBatch),
    }
}

/// The participants of a slot as one line, or a note that there are none.
pub open spec fn participant_list_text(usernames: Seq<String>) -> Seq<char> {
    if usernames.len() == 0 {
        "nessun partecipante registrato"@
    } else {
        joined(texts(usernames), ", "@)
    }
}

/// The participants of a slot as one line, or a note that there are none.
pub fn participant_list(usernames: &Vec<String>) -> (res: String)
    ensures
        res@ == participant_list_text(usernames@),
{
    if usernames.len() == 0 {
        String::from_str("nessun partecipante registrato")
    } else {
        join_strings(usernames, ", ")
    }
}

/// The public announcement of a fixed session.
pub fn schedule_announcement(item: &StoredOverlapItem, scheduled_by: &str) -> (res: String)
    requires
        is_plannable_instant(item.start_utc as int),
        is_plannable_instant(item.end_utc as int),
    ensures
        res@ == "🎲 **Prossima sessione fissata!**\n\nQuando: "@ + interval_text(item.start_utc, item.end_utc)
            + "\nPartecipanti disponibili: "@ + participant_list_text(item.participant_usernames@) + "\nSchedulata da: "@
            + scheduled_by@,
{
    let mut s = String::from_str("🎲 **Prossima sessione fissata!**\n\nQuando: ");
    let interval = format_interval(item.start_utc, item.end_utc);
    s.append(interval.as_str());
    s.append("\nPartecipanti disponibili: ");
    let list = participant_list(&item.participant_usernames);
    s.append(list.as_str());
    s.append("\nSchedulata da: ");
    s.append(scheduled_by);
    s
}

/// The configured session channel; without one, scheduling is refused.
pub fn schedule_channel_or_missing(channel: Option<String>) -> (res: Result<String, SchedulerError>)
    ensures
        match channel {
            Some(c) => res is Ok && res->Ok_0 == c,
            None => res == Err::<String, SchedulerError>(SchedulerError::MissingScheduleChannel),
        },
{
    match channel {
        Some(c) => Ok(c),
        None => Err(SchedulerError::MissingScheduleChannel),
    }
}

/// The channel id read from the stored text; text that is not a channel id is
/// refused.
pub fn announcement_channel(channel_id: &str) -> (res: Result<u64, SchedulerError>)
    requires
        parse_u64_spec(channel_id@) != Some(0int),
    ensures
        match parse_u64_spec(channel_id@) {
            Some(id) => res == Ok::<u64, SchedulerError>(id as u64),
            None => res is Err && res->Err_0 is InvalidInput
                && res->Err_0->InvalidInput_0@ == "il canale configurato nel database non e' valido"@,
        },
{
    match channel_id_from_str(channel_id) {
        Some(id) => Ok(id),
        None => Err(SchedulerError::InvalidInput(String::from_str("il canale configurato nel database non e' valido"))),
    }
}

/// The reply to the admin once the session is saved.
pub fn schedule_confirmation(session_id: &str, item: &StoredOverlapItem) -> (res: String)
    requires
        is_plannable_instant(item.start_utc as int),
        is_plannable_instant(item.end_utc as int),
    ensures
        res@ == "Sessione `"@ + session_id@ + "` schedulata: "@ + interval_text(item.start_utc, item.end_utc) + "."@,
{
    let mut s = String::from_str("Sessione `");
    s.append(session_id);
    s.append("` schedulata: ");
    let interval = format_interval(item.start_utc, item.end_utc);
    s.append(interval.as_str());
    s.append(".");
    s
}

/// The order of the instances in the planning week: by start, then end, then
/// user id.
pub open spec fn instance_before(a: AvailabilityInstance, b: AvailabilityInstance) -> bool {
    ||| a.start_utc < b.start_utc
    ||| (a.start_utc == b.start_utc && a.end_utc < b.end_utc)
    ||| (a.start_utc == b.start_utc && a.end_utc == b.end_utc && lex_lt(a.user_id@, b.user_id@))
}

/// Inserts `x` into the sorted `s` after every instance that does not come
/// after it.
pub open spec fn insert_in_order(s: Seq<AvailabilityInstance>, x: AvailabilityInstance) -> Seq<AvailabilityInstance>
    decreases s.len(),
{
    if s.len() == 0 || !instance_before(x, s.last()) {
        s.push(x)
    } else {
        insert_in_order(s.drop_last(), x).push(s.last())
    }
}

/// The instances in order, equal ones keeping their order (a stable sort).
pub open spec fn in_order(s: Seq<AvailabilityInstance>) -> Seq<AvailabilityInstance>
    decreases s.len(),
{
    if s.len() == 0 {
        s
    } else {
        insert_in_order(in_order(s.drop_last()), s.last())
    }
}

proof fn lemma_insert_at(s: Seq<AvailabilityInstance>, x: AvailabilityInstance, p: int)
    requires
        0 <= p <= s.len(),
        p > 0 ==> !instance_before(x, s[p - 1]),
        forall|q: int| p <= q < s.len() ==> instance_before(x, #[trigger] s[q]),
    ensures
        insert_in_order(s, x) == s.insert(p, x),
    decreases s.len(),
{
    if s.len() == p {
        assert(s.push(x) =~= s.insert(p, x));
    } else {
        lemma_insert_at(s.drop_last(), x, p);
        assert(s.drop_last().insert(p, x).push(s.last()) =~= s.insert(p, x));
    }
}

/// Whether `a` comes before `b` in the planning order.
fn instance_is_before(a: &AvailabilityInstance, b: &AvailabilityInstance) -> (res: bool)
    ensures
        res == instance_before(*a, *b),
{
    if a.start_utc != b.start_utc {
        return a.start_utc < b.start_utc;
    }
    if a.end_utc != b.end_utc {
        return a.end_utc < b.end_utc;
    }
    lex_less(a.user_id.as_str(), b.user_id.as_str())
}

/// The instances that `select_week_instances` keeps, before sorting: those
/// of the week that end after `now_utc`, or the first refusal.
pub open spec fn kept_instances(rows: Seq<AvailabilityRow>, week: PlanningWeek, now_utc: i64) -> Result<Seq<AvailabilityInstance>, Seq<char>>
    decreases rows.len(),
{
    if rows.len() == 0 {
        Ok(Seq::empty())
    } else {
        match kept_instances(rows.drop_last(), week, now_utc) {
            Err(e) => Err(e),
            Ok(kept) => {
                let row = rows.last();
                match instance_bounds_outcome(row, week) {
                    Err(e) => Err(e),
                    Ok(None) => Ok(kept),
                    Ok(Some((s, e))) => if e > now_utc {
                        Ok(kept.push(AvailabilityInstance {
                            availability_id: row.id,
                            user_id: row.user_id,
                            username: row.username,
                            start_utc: s,
                            end_utc: e,
                        }))
                    } else {
                        Ok(kept)
                    },
                }
            },
        }
    }
}

proof fn lemma_refusal_stays(rows: Seq<AvailabilityRow>, week: PlanningWeek, now_utc: i64, j: int)
    requires
        0 <= j <= rows.len(),
        kept_instances(rows.take(j), week, now_utc) is Err,
    ensures
        kept_instances(rows, week, now_utc) == kept_instances(rows.take(j), week, now_utc),
    decreases rows.len() - j,
{
    if j == rows.len() {
        assert(rows.take(j) =~= rows);
    } else {
        assert(rows.take(j + 1).drop_last() =~= rows.take(j));
        lemma_refusal_stays(rows, week, now_utc, j + 1);
    }
}

/// The instances of the planning week that have not ended by `now_utc`,
/// ordered by start, end and user id, equal ones in the order of the rows.
pub fn select_week_instances(rows: &Vec<AvailabilityRow>, week: PlanningWeek, now_utc: i64) -> (res: Result<Vec<AvailabilityInstance>, SchedulerError>)
    requires
        forall|k: int| 0 <= k < rows.len() ==> instance_in_range(#[trigger] rows@[k], week),
    ensures
        match (res, kept_instances(rows@, week, now_utc)) {
            (Ok(v), Ok(kept)) => v@ == in_order(kept),
            (Err(SchedulerError::InvalidInput(m)), Err(w)) => m@ == w,
            _ => false,
        },
{
    let mut instances: Vec<AvailabilityInstance> = Vec::new();
    let mut k: usize = 0;
    assert(rows@.take(0) =~= Seq::<AvailabilityRow>::empty());
    while k < rows.len()
        invariant
            k <= rows.len(),
            forall|q: int| 0 <= q < rows.len() ==> instance_in_range(#[trigger] rows@[q], week),
            kept_instances(rows@.take(k as int), week, now_utc) is Ok,
            instances@ == in_order(kept_instances(rows@.take(k as int), week, now_utc)->Ok_0),
        decreases rows.len() - k,
    {
        let ghost prefix = rows@.take(k as int);
        let ghost next = rows@.take(k as int + 1);
        assert(next.drop_last() =~= prefix);
        assert(next.last() == rows@[k as int]);
        match instance_for_week(&rows[k], week) {
            Err(e) => {
                proof {
                    lemma_refusal_stays(rows@, week, now_utc, k as int + 1);
                }
                return Err(e);
            },
            Ok(None) => {},
            Ok(Some(inst)) => {
                if inst.end_utc > now_utc {
                    let ghost kept = kept_instances(prefix, week, now_utc)->Ok_0;
                    assert(kept_instances(next, week, now_utc) == Ok::<Seq<AvailabilityInstance>, Seq<char>>(kept.push(inst)));
                    let mut p = instances.len();
                    while p > 0 && instance_is_before(&inst, &instances[p - 1])
                        invariant
                            p <= instances.len(),
                            forall|q: int| p <= q < instances.len() ==> instance_before(inst, #[trigger] instances@[q]),
                        decreases p,
                    {
                        p = p - 1;
                    }
                    proof {
                        lemma_insert_at(instances@, inst, p as int);
                        assert(kept.push(inst).drop_last() =~= kept);
                    }
                    instances.insert(p, inst);
                }
            },
        }
        k = k + 1;
    }
    assert(rows@.take(k as int) =~= rows@);
    Ok(instances)
}

} // verus!