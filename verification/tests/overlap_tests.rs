use chrono::{TimeZone, Utc};
use session_scheduler::models::AvailabilityInstance;
use session_scheduler::overlap::compute_full_overlaps;

fn ts(y: i32, mo: u32, d: u32, h: u32, mi: u32) -> i64 {
    Utc.with_ymd_and_hms(y, mo, d, h, mi, 0).unwrap().timestamp()
}

fn inst(id: &str, user: &str, name: &str, start: i64, end: i64) -> AvailabilityInstance {
    AvailabilityInstance {
        availability_id: id.into(),
        user_id: user.into(),
        username: name.into(),
        start_utc: start,
        end_utc: end,
    }
}

#[test]
fn computes_dynamic_overlap() {
    let instances = vec![
        inst("a", "u1", "A", ts(2026, 5, 25, 19, 0), ts(2026, 5, 25, 21, 0)),
        inst("b", "u2", "B", ts(2026, 5, 25, 20, 0), ts(2026, 5, 25, 22, 0)),
    ];

    let overlaps = compute_full_overlaps(&instances);
    assert_eq!(overlaps.len(), 1);
    assert_eq!(overlaps[0].start_utc, ts(2026, 5, 25, 20, 0));
    assert_eq!(overlaps[0].end_utc, ts(2026, 5, 25, 21, 0));
}

#[test]
fn computes_full_overlap_for_three_users() {
    let instances = vec![
        inst("a", "u1", "A", ts(2026, 5, 26, 18, 0), ts(2026, 5, 26, 22, 0)),
        inst("b", "u2", "B", ts(2026, 5, 26, 19, 0), ts(2026, 5, 26, 21, 30)),
        inst("c", "u3", "C", ts(2026, 5, 26, 20, 0), ts(2026, 5, 26, 23, 0)),
    ];

    let overlaps = compute_full_overlaps(&instances);
    assert_eq!(overlaps.len(), 1);
    assert_eq!(overlaps[0].start_utc, ts(2026, 5, 26, 20, 0));
    assert_eq!(overlaps[0].end_utc, ts(2026, 5, 26, 21, 30));
    assert_eq!(overlaps[0].participant_user_ids.len(), 3);
}

#[test]
fn returns_no_overlap_when_five_users_do_not_all_match() {
    let instances = vec![
        inst("a", "u1", "A", ts(2026, 5, 27, 18, 0), ts(2026, 5, 27, 22, 0)),
        inst("b", "u2", "B", ts(2026, 5, 27, 19, 0), ts(2026, 5, 27, 23, 0)),
        inst("c", "u3", "C", ts(2026, 5, 27, 20, 0), ts(2026, 5, 27, 21, 0)),
        inst("d", "u4", "D", ts(2026, 5, 27, 20, 30), ts(2026, 5, 27, 22, 30)),
        inst("e", "u5", "E", ts(2026, 5, 27, 17, 0), ts(2026, 5, 27, 20, 15)),
    ];

    let overlaps = compute_full_overlaps(&instances);
    assert!(overlaps.is_empty());
}

#[test]
fn no_participants_means_no_slots() {
    assert!(compute_full_overlaps(&vec![]).is_empty());
    // An instance that does not end after it starts takes no part.
    let empty = vec![inst("a", "u1", "A", 100, 100), inst("b", "u2", "B", 200, 150)];
    assert!(compute_full_overlaps(&empty).is_empty());
}

#[test]
fn a_single_user_overlaps_with_themself() {
    let instances = vec![inst("a", "u1", "A", 100, 200), inst("b", "u1", "Other", 300, 400)];
    let overlaps = compute_full_overlaps(&instances);
    assert_eq!(overlaps.len(), 2);
    assert_eq!((overlaps[0].start_utc, overlaps[0].end_utc), (100, 200));
    assert_eq!((overlaps[1].start_utc, overlaps[1].end_utc), (300, 400));
    assert_eq!(overlaps[0].display_index, 1);
    assert_eq!(overlaps[1].display_index, 2);
    // The name of the first usable instance is kept.
    assert_eq!(overlaps[0].participant_usernames, vec!["A".to_string()]);
}

#[test]
fn touching_stretches_merge_into_one_slot() {
    let instances = vec![
        inst("a", "u1", "A", 0, 100),
        inst("b", "u1", "A", 100, 200),
        inst("c", "u2", "B", 50, 150),
        inst("d", "u2", "B", 150, 300),
    ];
    let overlaps = compute_full_overlaps(&instances);
    assert_eq!(overlaps.len(), 1);
    assert_eq!((overlaps[0].start_utc, overlaps[0].end_utc), (50, 200));
}

#[test]
fn participants_are_sorted_and_named_by_their_first_instance() {
    let instances = vec![
        inst("a", "zed", "Zed", 0, 100),
        inst("b", "amy", "Amy", 0, 100),
        inst("c", "bob", "Bob", 0, 100),
        inst("d", "amy", "Amy again", 0, 100),
        inst("e", "carl", "Carl", 50, 50),
    ];
    let overlaps = compute_full_overlaps(&instances);
    assert_eq!(overlaps.len(), 1);
    assert_eq!(overlaps[0].participant_user_ids, vec!["amy", "bob", "zed"]);
    assert_eq!(overlaps[0].participant_usernames, vec!["Amy", "Bob", "Zed"]);
}

#[test]
fn several_slots_with_gaps() {
    let instances = vec![
        inst("a", "u1", "A", 0, 1000),
        inst("b", "u2", "B", 100, 200),
        inst("c", "u2", "B", 300, 400),
        inst("d", "u2", "B", 350, 500),
    ];
    let overlaps = compute_full_overlaps(&instances);
    let spans: Vec<(i64, i64)> = overlaps.iter().map(|s| (s.start_utc, s.end_utc)).collect();
    assert_eq!(spans, vec![(100, 200), (300, 500)]);
}

#[test]
fn empty_or_inverted_instances_change_nothing() {
    let base = vec![
        inst("a", "u1", "A", ts(2026, 5, 26, 18, 0), ts(2026, 5, 26, 22, 0)),
        inst("b", "u2", "B", ts(2026, 5, 26, 19, 0), ts(2026, 5, 26, 21, 30)),
    ];
    let expected = compute_full_overlaps(&base);
    let bad_new_user = inst("x", "u9", "X", ts(2026, 5, 26, 20, 0), ts(2026, 5, 26, 19, 0));
    let bad_empty = inst("y", "u1", "Other name", ts(2026, 5, 26, 17, 0), ts(2026, 5, 26, 17, 0));
    for pos in 0..=base.len() {
        for bad in [&bad_new_user, &bad_empty] {
            let mut xs = inst_copy(&base);
            xs.insert(pos, inst_of(bad));
            let got = compute_full_overlaps(&xs);
            assert_eq!(got.len(), expected.len());
            for (g, e) in got.iter().zip(expected.iter()) {
                assert_eq!(g.start_utc, e.start_utc);
                assert_eq!(g.end_utc, e.end_utc);
                assert_eq!(g.display_index, e.display_index);
                assert_eq!(g.participant_user_ids, e.participant_user_ids);
                assert_eq!(g.participant_usernames, e.participant_usernames);
            }
        }
    }
    assert_eq!(expected[0].participant_usernames, vec!["A".to_string(), "B".to_string()]);
}

fn inst_of(i: &AvailabilityInstance) -> AvailabilityInstance {
    inst(&i.availability_id, &i.user_id, &i.username, i.start_utc, i.end_utc)
}

fn inst_copy(v: &[AvailabilityInstance]) -> Vec<AvailabilityInstance> {
    v.iter().map(inst_of).collect()
}
