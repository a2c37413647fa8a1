//! What the bot stores and reads back: the values of each stored row, the
//! comma-separated participant lists, and the rows read back as records.
use vstd::prelude::*;

use crate::error::{outcome_is, SchedulerError};
use crate::models::{AvailabilityRow, NewAvailability, OverlapSlot, ScheduledSession, StoredOverlapItem};
use crate::text::{chars_of, joined, join_strings, string_of_chars, texts, trim, trim_leading, trim_range};
use crate::time::{format_interval, interval_text, parse_utc, utc_reading_outcome};
use crate::zone::{has_four_digit_year, iso_utc, is_plannable_instant, is_valid_instant, rfc3339_text};

verus! {

/// The fields of a comma-separated text, before trimming: the text cut at
/// every comma (`str::split(',')`).
pub open spec fn csv_fields(s: Seq<char>) -> Seq<Seq<char>>
    decreases s.len(),
{
    if s.len() == 0 {
        seq![Seq::<char>::empty()]
    } else {
        let rest = csv_fields(s.drop_last());
        if s.last() == ',' {
            rest.push(Seq::<char>::empty())
        } else {
            rest.update(rest.len() - 1, rest.last().push(s.last()))
        }
    }
}

/// The trimmed fields that are not empty.
pub open spec fn kept_fields(fields: Seq<Seq<char>>) -> Seq<Seq<char>>
    decreases fields.len(),
{
    if fields.len() == 0 {
        Seq::empty()
    } else {
        let rest = kept_fields(fields.drop_last());
        let last = trim(fields.last());
        if last.len() > 0 {
            rest.push(last)
        } else {
            rest
        }
    }
}

/// The values of a stored comma-separated list: each field trimmed, the
/// empty ones dropped.
pub open spec fn csv_values(s: Seq<char>) -> Seq<Seq<char>> {
    kept_fields(csv_fields(s))
}

/// The values of a stored comma-separated list: each field trimmed, the
/// empty ones dropped.
pub fn split_csv(value: String) -> (res: Vec<String>)
    ensures
        texts(res@) == csv_values(value@),
{
    let cs = chars_of(value.as_str());
    let mut res: Vec<String> = Vec::new();
    let ghost mut completed: Seq<Seq<char>> = Seq::empty();
    let mut start: usize = 0;
    let mut i: usize = 0;
    assert(cs@.take(0) =~= Seq::<char>::empty());
    assert(cs@.subrange(0, 0) =~= Seq::<char>::empty());
    while i < cs.len()
        invariant
            start <= i <= cs.len(),
            csv_fields(cs@.take(i as int)) == completed.push(cs@.subrange(start as int, i as int)),
            texts(res@) == kept_fields(completed),
        decreases cs.len() - i,
    {
        let ghost prefix = cs@.take(i as int);
        assert(cs@.take(i as int + 1).drop_last() =~= prefix);
        assert(cs@.take(i as int + 1).last() == cs@[i as int]);
        if cs[i] == ',' {
            let (a, b) = trim_range(&cs, start, i);
            let ghost field = cs@.subrange(start as int, i as int);
            if a < b {
                let piece = string_of_chars(&cs, a, b);
                res.push(piece);
            }
            proof {
                let next = completed.push(field);
                assert(next.drop_last() =~= completed);
                assert(texts(res@) =~= kept_fields(next));
                completed = next;
            }
            start = i + 1;
            assert(cs@.subrange(start as int, i as int + 1) =~= Seq::<char>::empty());
        } else {
            assert(cs@.subrange(start as int, i as int + 1) =~= cs@.subrange(start as int, i as int).push(cs@[i as int]));
            assert(csv_fields(cs@.take(i as int + 1)) =~= completed.push(cs@.subrange(start as int, i as int + 1)));
        }
        i = i + 1;
    }
    let n = cs.len();
    let (a, b) = trim_range(&cs, start, n);
    if a < b {
        let piece = string_of_chars(&cs, a, b);
        res.push(piece);
    }
    proof {
        assert(cs@.take(n as int) =~= cs@);
        let all = completed.push(cs@.subrange(start as int, n as int));
        assert(all.drop_last() =~= completed);
        assert(texts(res@) =~= kept_fields(all));
    }
    res
}

proof fn lemma_no_comma_prefix(b: Seq<char>)
    requires
        !b.contains(','),
        b.len() > 0,
    ensures
        !b.drop_last().contains(','),
        b.last() != ',',
        b.drop_last().push(b.last()) == b,
{
    let b0 = b.drop_last();
    if b0.contains(',') {
        let i = choose|i: int| 0 <= i < b0.len() && b0[i] == ',';
        assert(b[i] == ',');
    }
    assert(b[b.len() - 1] == b.last());
    assert(b0.push(b.last()) =~= b);
}

proof fn lemma_fields_without_comma(a: Seq<char>, b: Seq<char>)
    requires
        !b.contains(','),
    ensures
        csv_fields(a + seq![','] + b) == csv_fields(a).push(b),
    decreases b.len(),
{
    let s = a + seq![','] + b;
    if b.len() == 0 {
        assert(s.drop_last() =~= a);
        assert(s.last() == ',');
        assert(b =~= Seq::<char>::empty());
    } else {
        let b0 = b.drop_last();
        lemma_no_comma_prefix(b);
        lemma_fields_without_comma(a, b0);
        assert(s.drop_last() =~= a + seq![','] + b0);
        assert(s.last() == b.last());
        let rest = csv_fields(a).push(b0);
        assert(rest.update(rest.len() - 1, rest.last().push(b.last())) =~= csv_fields(a).push(b));
    }
}

proof fn lemma_single_field(b: Seq<char>)
    requires
        !b.contains(','),
    ensures
        csv_fields(b) == seq![b],
    decreases b.len(),
{
    if b.len() == 0 {
        assert(b =~= Seq::<char>::empty());
        assert(csv_fields(b) =~= seq![b]);
    } else {
        let b0 = b.drop_last();
        lemma_no_comma_prefix(b);
        lemma_single_field(b0);
        let rest = seq![b0];
        assert(rest.update(0, rest.last().push(b.last())) =~= seq![b]);
    }
}

proof fn lemma_trim_empty()
    ensures
        trim(Seq::<char>::empty()) == Seq::<char>::empty(),
{
    assert(trim_leading(Seq::<char>::empty()) == Seq::<char>::empty());
    assert(crate::text::trim_trailing(Seq::<char>::empty()) == Seq::<char>::empty());
}

/// An entry that a comma-separated list keeps as it is: not empty, no comma,
/// no surrounding white space.
pub open spec fn is_plain_entry(e: Seq<char>) -> bool {
    e.len() > 0 && !e.contains(',') && trim(e) == e
}

/// A list stored as its entries joined by `,` or by `, ` reads back as the
/// same list, when every entry is plain: what `split_csv` gives back of what
/// the store wrote.
pub proof fn lemma_csv_round_trip(parts: Seq<Seq<char>>, sep: Seq<char>)
    requires
        sep == ","@ || sep == ", "@,
        forall|i: int| 0 <= i < parts.len() ==> is_plain_entry(#[trigger] parts[i]),
    ensures
        csv_values(joined(parts, sep)) == parts,
    decreases parts.len(),
{
    reveal_strlit(",");
    reveal_strlit(", ");
    assert(","@ =~= seq![',']);
    assert(", "@ =~= seq![',', ' ']);
    if parts.len() == 0 {
        let e = Seq::<char>::empty();
        assert(joined(parts, sep) == e);
        assert(csv_fields(e) == seq![e]);
        lemma_trim_empty();
        assert(seq![e].drop_last() =~= Seq::<Seq<char>>::empty());
        assert(kept_fields(seq![e]) == kept_fields(Seq::<Seq<char>>::empty()));
        assert(csv_values(joined(parts, sep)) =~= parts);
    } else if parts.len() == 1 {
        assert(is_plain_entry(parts[0]));
        assert(joined(parts, sep) == parts[0]);
        lemma_single_field(parts[0]);
        assert(seq![parts[0]].drop_last() =~= Seq::<Seq<char>>::empty());
        assert(kept_fields(Seq::<Seq<char>>::empty()) == Seq::<Seq<char>>::empty());
        assert(seq![parts[0]].last() == parts[0]);
        assert(trim(parts[0]) == parts[0]);
        assert(kept_fields(seq![parts[0]]) =~= Seq::<Seq<char>>::empty().push(parts[0]));
        assert(kept_fields(seq![parts[0]]) =~= seq![parts[0]]);
        assert(csv_values(joined(parts, sep)) =~= parts);
    } else {
        let rest = parts.drop_last();
        let last = parts.last();
        assert(is_plain_entry(parts[parts.len() - 1]));
        lemma_csv_round_trip(rest, sep);
        let head = joined(rest, sep);
        if sep == seq![','] {
            assert(joined(parts, sep) =~= head + seq![','] + last);
            lemma_fields_without_comma(head, last);
            assert(csv_fields(joined(parts, sep)).drop_last() =~= csv_fields(head));
            assert(csv_values(joined(parts, sep)) =~= parts);
        } else {
            let field = seq![' '] + last;
            assert(sep =~= seq![',', ' ']);
            assert(joined(parts, sep) =~= head + seq![','] + field);
            assert(!field.contains(',')) by {
                if field.contains(',') {
                    let i = choose|i: int| 0 <= i < field.len() && field[i] == ',';
                    assert(last[i - 1] == ',');
                }
            }
            lemma_fields_without_comma(head, field);
            assert(field.drop_first() =~= last);
            assert(trim_leading(field) == trim_leading(last));
            assert(csv_fields(joined(parts, sep)).drop_last() =~= csv_fields(head));
            assert(csv_values(joined(parts, sep)) =~= parts);
        }
    }
}

/// A value that must be there: its absence is the not-found error.
pub fn assert_found<T>(value: Option<T>) -> (res: Result<T, SchedulerError>)
    ensures
        match value {
            Some(v) => res == Ok::<T, SchedulerError>(v),
            None => res == Err::<T, SchedulerError>(SchedulerError::NotFound),
        },
{
    match value {
        Some(v) => Ok(v),
        None => Err(SchedulerError::NotFound),
    }
}

/// The values of a new `availabilities` row.
pub struct AvailabilityRecord {
    pub id: String,
    pub guild_id: String,
    pub user_id: String,
    pub username: String,
    pub weekday: i64,
    pub start_minute: i64,
    pub end_minute: i64,
    pub starts_at_utc: String,
    pub ends_at_utc: String,
    pub is_recurring: i64,
    pub created_at_utc: String,
}

/// The row that saves an availability at the instant `now_utc`: times as
/// RFC 3339 text, the recurring flag as 1 or 0.
pub fn availability_record(availability: &NewAvailability, now_utc: i64) -> (res: AvailabilityRecord)
    requires
        is_valid_instant(availability.starts_at_utc as int),
        is_valid_instant(availability.ends_at_utc as int),
        is_valid_instant(now_utc as int),
    ensures
        res.id@ == availability.id@,
        res.guild_id@ == availability.guild_id@,
        res.user_id@ == availability.user_id@,
        res.username@ == availability.username@,
        res.weekday == availability.weekday as i64,
        res.start_minute == availability.start_minute,
        res.end_minute == availability.end_minute,
        res.starts_at_utc@ == rfc3339_text(availability.starts_at_utc),
        res.ends_at_utc@ == rfc3339_text(availability.ends_at_utc),
        res.is_recurring == (if availability.is_recurring { 1i64 } else { 0i64 }),
        res.created_at_utc@ == rfc3339_text(now_utc),
        has_four_digit_year(availability.starts_at_utc as int) ==> utc_reading_outcome(res.starts_at_utc@)
            == Ok::<i64, Seq<char>>(availability.starts_at_utc),
        has_four_digit_year(availability.ends_at_utc as int) ==> utc_reading_outcome(res.ends_at_utc@)
            == Ok::<i64, Seq<char>>(availability.ends_at_utc),
{
    AvailabilityRecord {
        id: availability.id.clone(),
        guild_id: availability.guild_id.clone(),
        user_id: availability.user_id.clone(),
        username: availability.username.clone(),
        weekday: availability.weekday as i64,
        start_minute: availability.start_minute,
        end_minute: availability.end_minute,
        starts_at_utc: iso_utc(availability.starts_at_utc),
        ends_at_utc: iso_utc(availability.ends_at_utc),
        is_recurring: if availability.is_recurring { 1 } else { 0 },
        created_at_utc: iso_utc(now_utc),
    }
}

/// The values of a new `overlap_items` row.
pub struct OverlapItemRecord {
    pub display_index: i64,
    pub day_label: String,
    pub start_utc: String,
    pub end_utc: String,
    pub start_local: String,
    pub end_local: String,
    pub participant_user_ids: String,
    pub participant_usernames: String,
}

/// The row that saves a slot of an overlap table: the interval text as its
/// label and local times, ids joined by `,` and names by `, `.
pub fn overlap_item_record(slot: &OverlapSlot) -> (res: OverlapItemRecord)
    requires
        is_plannable_instant(slot.start_utc as int),
        is_plannable_instant(slot.end_utc as int),
    ensures
        res.display_index == slot.display_index,
        res.day_label@ == interval_text(slot.start_utc, slot.end_utc),
        res.start_local@ == interval_text(slot.start_utc, slot.end_utc),
        res.end_local@ == interval_text(slot.start_utc, slot.end_utc),
        res.start_utc@ == rfc3339_text(slot.start_utc),
        res.end_utc@ == rfc3339_text(slot.end_utc),
        res.participant_user_ids@ == joined(texts(slot.participant_user_ids@), ","@),
        res.participant_usernames@ == joined(texts(slot.participant_usernames@), ", "@),
        has_four_digit_year(slot.start_utc as int) ==> utc_reading_outcome(res.start_utc@) == Ok::<i64, Seq<char>>(slot.start_utc),
        has_four_digit_year(slot.end_utc as int) ==> utc_reading_outcome(res.end_utc@) == Ok::<i64, Seq<char>>(slot.end_utc),
{
    proof {
        crate::time::lemma_near_plannable(slot.start_utc as int, slot.start_utc as int);
        crate::time::lemma_near_plannable(slot.end_utc as int, slot.end_utc as int);
    }
    let interval = format_interval(slot.start_utc, slot.end_utc);
    OverlapItemRecord {
        display_index: slot.display_index,
        day_label: interval.clone(),
        start_utc: iso_utc(slot.start_utc),
        end_utc: iso_utc(slot.end_utc),
        start_local: interval.clone(),
        end_local: interval,
        participant_user_ids: join_strings(&slot.participant_user_ids, ","),
        participant_usernames: join_strings(&slot.participant_usernames, ", "),
    }
}

/// The values of a new `scheduled_sessions` row.
pub struct ScheduledSessionRecord {
    pub id: String,
    pub guild_id: String,
    pub overlap_item_id: String,
    pub scheduled_by_user_id: String,
    pub scheduled_by_username: String,
    pub scheduled_at_utc: String,
    pub start_utc: String,
    pub end_utc: String,
    pub start_local: String,
    pub end_local: String,
    pub participant_user_ids: String,
    pub participant_usernames: String,
    pub channel_id: Option<String>,
    pub message_id: Option<String>,
}

/// The row that saves a session fixed at `now_utc` from a slot of the table,
/// with the channel and message of its announcement when there is one.
pub fn scheduled_session_record(
    id: String,
    guild_id: &str,
    overlap_item_id: &str,
    scheduled_by: (&str, &str),
    item: &StoredOverlapItem,
    message_ref: Option<(&str, &str)>,
    now_utc: i64,
) -> (res: ScheduledSessionRecord)
    requires
        is_valid_instant(item.start_utc as int),
        is_valid_instant(item.end_utc as int),
        is_valid_instant(now_utc as int),
    ensures
        res.id@ == id@,
        res.guild_id@ == guild_id@,
        res.overlap_item_id@ == overlap_item_id@,
        res.scheduled_by_user_id@ == scheduled_by.0@,
        res.scheduled_by_username@ == scheduled_by.1@,
        res.scheduled_at_utc@ == rfc3339_text(now_utc),
        res.start_utc@ == rfc3339_text(item.start_utc),
        res.end_utc@ == rfc3339_text(item.end_utc),
        res.start_local@ == item.start_local@,
        res.end_local@ == item.end_local@,
        res.participant_user_ids@ == joined(texts(item.participant_user_ids@), ","@),
        res.participant_usernames@ == joined(texts(item.participant_usernames@), ", "@),
        message_ref is None ==> res.channel_id is None && res.message_id is None,
        message_ref is Some ==> res.channel_id is Some && res.message_id is Some
            && res.channel_id->Some_0@ == message_ref->Some_0.0@ && res.message_id->Some_0@ == message_ref->Some_0.1@,
        has_four_digit_year(item.start_utc as int) ==> utc_reading_outcome(res.start_utc@) == Ok::<i64, Seq<char>>(item.start_utc),
        has_four_digit_year(item.end_utc as int) ==> utc_reading_outcome(res.end_utc@) == Ok::<i64, Seq<char>>(item.end_utc),
{
    let (channel_id, message_id) = match message_ref {
        Some((channel_id, message_id)) => (Some(String::from_str(channel_id)), Some(String::from_str(message_id))),
        None => (None, None),
    };
    ScheduledSessionRecord {
        id,
        guild_id: String::from_str(guild_id),
        overlap_item_id: String::from_str(overlap_item_id),
        scheduled_by_user_id: String::from_str(scheduled_by.0),
        scheduled_by_username: String::from_str(scheduled_by.1),
        scheduled_at_utc: iso_utc(now_utc),
        start_utc: iso_utc(item.start_utc),
        end_utc: iso_utc(item.end_utc),
        start_local: item.start_local.clone(),
        end_local: item.end_local.clone(),
        participant_user_ids: join_strings(&item.participant_user_ids, ","),
        participant_usernames: join_strings(&item.participant_usernames, ", "),
        channel_id,
        message_id,
    }
}

/// The `LIKE` pattern that finds a user id inside a stored id list.
pub fn participant_pattern(user_id: &str) -> (res: String)
    ensures
        res@ == "%"@ + user_id@ + "%"@,
{
    let mut s = String::from_str("%");
    s.append(user_id);
    s.append("%");
    s
}

/// Both stored instants read, or the refusal of the first that does not.
pub open spec fn two_readings(start: Seq<char>, end: Seq<char>) -> Result<(i64, i64), Seq<char>> {
    match utc_reading_outcome(start) {
        Err(e) => Err(e),
        Ok(s) => match utc_reading_outcome(end) {
            Err(e) => Err(e),
            Ok(t) => Ok((s, t)),
        },
    }
}

/// Reads both stored instants of a row, the start first.
fn read_two_instants(start: &str, end: &str) -> (res: Result<(i64, i64), SchedulerError>)
    ensures
        outcome_is(res, two_readings(start@, end@)),
{
    let s = match parse_utc(start) {
        Ok(s) => s,
        Err(e) => {
            return Err(e);
        },
    };
    let t = match parse_utc(end) {
        Ok(t) => t,
        Err(e) => {
            return Err(e);
        },
    };
    Ok((s, t))
}

/// A stored availability as a record: the weekday number taken to 32 bits as
/// stored, the recurring flag set when it is 1, the instants read from their
/// RFC 3339 text.
pub fn availability_from_stored(
    id: String,
    guild_id: String,
    user_id: String,
    username: String,
    weekday: i64,
    start_minute: i64,
    end_minute: i64,
    starts_at_utc: &str,
    ends_at_utc: &str,
    is_recurring: i64,
) -> (res: Result<AvailabilityRow, SchedulerError>)
    ensures
        match (res, two_readings(starts_at_utc@, ends_at_utc@)) {
            (Ok(row), Ok((s, e))) => {
                &&& row.id == id
                &&& row.guild_id == guild_id
                &&& row.user_id == user_id
                &&& row.username == username
                &&& row.weekday == weekday as u32
                &&& row.start_minute == start_minute
                &&& row.end_minute == end_minute
                &&& row.starts_at_utc == s
                &&& row.ends_at_utc == e
                &&& row.is_recurring == (is_recurring == 1)
            },
            (Err(SchedulerError::InvalidInput(m)), Err(w)) => m@ == w,
            _ => false,
        },
{
    let (starts, ends) = match read_two_instants(starts_at_utc, ends_at_utc) {
        Ok(pair) => pair,
        Err(e) => {
            return Err(e);
        },
    };
    Ok(AvailabilityRow {
        id,
        guild_id,
        user_id,
        username,
        weekday: weekday as u32,
        start_minute,
        end_minute,
        starts_at_utc: starts,
        ends_at_utc: ends,
        is_recurring: is_recurring == 1,
    })
}

/// A stored slot of an overlap table as a record: the participant lists read
/// back from their comma-separated text.
pub fn overlap_item_from_stored(
    id: String,
    display_index: i64,
    start_utc: &str,
    end_utc: &str,
    start_local: String,
    end_local: String,
    participant_user_ids: String,
    participant_usernames: String,
) -> (res: Result<StoredOverlapItem, SchedulerError>)
    ensures
        match (res, two_readings(start_utc@, end_utc@)) {
            (Ok(item), Ok((s, e))) => {
                &&& item.id == id
                &&& item.display_index == display_index
                &&& item.start_utc == s
                &&& item.end_utc == e
                &&& item.start_local == start_local
                &&& item.end_local == end_local
                &&& texts(item.participant_user_ids@) == csv_values(participant_user_ids@)
                &&& texts(item.participant_usernames@) == csv_values(participant_usernames@)
            },
            (Err(SchedulerError::InvalidInput(m)), Err(w)) => m@ == w,
            _ => false,
        },
{
    let user_ids = split_csv(participant_user_ids);
    let usernames = split_csv(participant_usernames);
    let (start, end) = match read_two_instants(start_utc, end_utc) {
        Ok(pair) => pair,
        Err(e) => {
            return Err(e);
        },
    };
    Ok(StoredOverlapItem {
        id,
        display_index,
        start_utc: start,
        end_utc: end,
        start_local,
        end_local,
        participant_user_ids: user_ids,
        participant_usernames: usernames,
    })
}

/// A stored session as a record: the participant lists read back from their
/// comma-separated text.
pub fn scheduled_session_from_stored(
    id: String,
    guild_id: String,
    scheduled_by_user_id: String,
    scheduled_by_username: String,
    start_utc: &str,
    end_utc: &str,
    start_local: String,
    end_local: String,
    participant_user_ids: String,
    participant_usernames: String,
) -> (res: Result<ScheduledSession, SchedulerError>)
    ensures
        match (res, two_readings(start_utc@, end_utc@)) {
            (Ok(session), Ok((s, e))) => {
                &&& session.id == id
                &&& session.guild_id == guild_id
                &&& session.scheduled_by_user_id == scheduled_by_user_id
                &&& session.scheduled_by_username == scheduled_by_username
                &&& session.start_utc == s
                &&& session.end_utc == e
                &&& session.start_local == start_local
                &&& session.end_local == end_local
                &&& texts(session.participant_user_ids@) == csv_values(participant_user_ids@)
                &&& texts(session.participant_usernames@) == csv_values(participant_usernames@)
            },
            (Err(SchedulerError::InvalidInput(m)), Err(w)) => m@ == w,
            _ => false,
        },
{
    let (start, end) = match read_two_instants(start_utc, end_utc) {
        Ok(pair) => pair,
        Err(e) => {
            return Err(e);
        },
    };
    Ok(ScheduledSession {
        id,
        guild_id,
        scheduled_by_user_id,
        scheduled_by_username,
        start_utc: start,
        end_utc: end,
        start_local,
        end_local,
        participant_user_ids: split_csv(participant_user_ids),
        participant_usernames: split_csv(participant_usernames),
    })
}

} // verus!
