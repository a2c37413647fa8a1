//! The full-overlap search: the stretches of the planning week in which every
//! user who has any availability is available at once.
use vstd::prelude::*;

use crate::models::{AvailabilityInstance, OverlapSlot};
use crate::text::{
    lemma_increasing_unique, lex_increasing, texts, lemma_lex_irreflexive, lemma_lex_total, lemma_lex_transitive, lex_less,
    lex_lt,
};

verus! {

/// An instance takes part in the search only when it ends after it starts.
pub open spec fn is_usable(i: AvailabilityInstance) -> bool {
    i.start_utc < i.end_utc
}

/// `u` has a usable instance among the first `j` instances.
pub open spec fn participant_before(insts: Seq<AvailabilityInstance>, u: Seq<char>, j: int) -> bool {
    exists|k: int| 0 <= k < j && k < insts.len() && is_usable(#[trigger] insts[k]) && insts[k].user_id@ == u
}

/// `u` is a participant of the week: it has at least one usable instance.
pub open spec fn is_participant(insts: Seq<AvailabilityInstance>, u: Seq<char>) -> bool {
    participant_before(insts, u, insts.len() as int)
}

/// Instance `i` belongs to `u` and covers the second `t`.
pub open spec fn covers(i: AvailabilityInstance, u: Seq<char>, t: int) -> bool {
    i.user_id@ == u && i.start_utc <= t < i.end_utc
}

/// `u` is available at the second `t`.
pub open spec fn available_at(insts: Seq<AvailabilityInstance>, u: Seq<char>, t: int) -> bool {
    exists|k: int| 0 <= k < insts.len() && #[trigger] covers(insts[k], u, t)
}

/// Every participant is available at the second `t`.
pub open spec fn everyone_available_at(insts: Seq<AvailabilityInstance>, t: int) -> bool {
    forall|u: Seq<char>| #[trigger] is_participant(insts, u) ==> available_at(insts, u, t)
}

/// `m` is the index of the first usable instance of `u`.
pub open spec fn is_first_instance(insts: Seq<AvailabilityInstance>, u: Seq<char>, m: int) -> bool {
    &&& 0 <= m < insts.len()
    &&& is_usable(insts[m])
    &&& insts[m].user_id@ == u
    &&& !participant_before(insts, u, m)
}

/// The name shown for `u`: the username on its first usable instance.
pub open spec fn display_name(insts: Seq<AvailabilityInstance>, u: Seq<char>) -> Seq<char> {
    insts[choose|m: int| is_first_instance(insts, u, m)].username@
}

/// Some string of `v` has the characters `u`.
pub open spec fn holds_string(v: Seq<String>, u: Seq<char>) -> bool {
    exists|m: int| 0 <= m < v.len() && (#[trigger] v[m])@ == u
}

/// The strings are in strictly increasing lexicographic order.
pub open spec fn strictly_sorted(v: Seq<String>) -> bool {
    forall|a: int, b: int| 0 <= a < b < v.len() ==> lex_lt((#[trigger] v[a])@, (#[trigger] v[b])@)
}

/// `ids` lists the participants exactly once each, in lexicographic order.
pub open spec fn lists_participants(ids: Seq<String>, insts: Seq<AvailabilityInstance>) -> bool {
    &&& strictly_sorted(ids)
    &&& forall|u: Seq<char>| #[trigger] holds_string(ids, u) <==> is_participant(insts, u)
}

/// The second `t` lies in one of the half-open segments.
pub open spec fn in_segments(segs: Seq<(i64, i64)>, t: int) -> bool {
    exists|k: int| 0 <= k < segs.len() && (#[trigger] segs[k]).0 <= t < segs[k].1
}

/// Non-empty segments in increasing order that may touch but not overlap.
pub open spec fn ordered_segments(segs: Seq<(i64, i64)>) -> bool {
    &&& forall|k: int| 0 <= k < segs.len() ==> (#[trigger] segs[k]).0 < segs[k].1
    &&& forall|a: int, b: int| 0 <= a < b < segs.len() ==> (#[trigger] segs[a]).1 <= (#[trigger] segs[b]).0
}

/// Non-empty segments in increasing order with a gap between any two.
pub open spec fn separated_segments(segs: Seq<(i64, i64)>) -> bool {
    &&& forall|k: int| 0 <= k < segs.len() ==> (#[trigger] segs[k]).0 < segs[k].1
    &&& forall|a: int, b: int| 0 <= a < b < segs.len() ==> (#[trigger] segs[a]).1 < (#[trigger] segs[b]).0
}

/// The second `t` lies in one of the slots.
pub open spec fn in_slots(slots: Seq<OverlapSlot>, t: int) -> bool {
    exists|k: int| 0 <= k < slots.len() && (#[trigger] slots[k]).start_utc <= t < slots[k].end_utc
}

/// Non-empty segments, no two of which share a second.
pub open spec fn disjoint_segments(segs: Seq<(i64, i64)>) -> bool {
    &&& forall|k: int| 0 <= k < segs.len() ==> (#[trigger] segs[k]).0 < segs[k].1
    &&& forall|a: int, b: int|
        0 <= a < segs.len() && 0 <= b < segs.len() && a != b ==> (#[trigger] segs[a]).1 <= (#[trigger] segs[b]).0
            || segs[b].1 <= segs[a].0
}

proof fn lemma_ordered_disjoint(segs: Seq<(i64, i64)>)
    requires
        ordered_segments(segs),
    ensures
        disjoint_segments(segs),
{
    assert forall|a: int, b: int|
        0 <= a < segs.len() && 0 <= b < segs.len() && a != b implies (#[trigger] segs[a]).1 <= (#[trigger] segs[b]).0
            || segs[b].1 <= segs[a].0 by {
        if a < b {
            assert(segs[a].1 <= segs[b].0);
        } else {
            assert(segs[b].1 <= segs[a].0);
        }
    }
}

/// The segments in increasing order of their starts (a stable insertion
/// sort); disjoint segments then come out in increasing order.
fn sort_by_start(segments: &Vec<(i64, i64)>) -> (sorted: Vec<(i64, i64)>)
    requires
        disjoint_segments(segments@),
    ensures
        ordered_segments(sorted@),
        sorted.len() == segments.len(),
        forall|t: int| #[trigger] in_segments(sorted@, t) <==> in_segments(segments@, t),
{
    let mut sorted: Vec<(i64, i64)> = Vec::new();
    let ghost mut idx: Seq<int> = Seq::empty();
    let mut j: usize = 0;
    while j < segments.len()
        invariant
            j <= segments.len(),
            disjoint_segments(segments@),
            disjoint_segments(sorted@),
            sorted.len() == j,
            idx.len() == j,
            forall|k: int| 0 <= k < j ==> 0 <= #[trigger] idx[k] < j && sorted@[k] == segments@[idx[k]],
            forall|a: int, b: int| 0 <= a < b < j ==> (#[trigger] sorted@[a]).0 <= (#[trigger] sorted@[b]).0,
            forall|t: int| #[trigger] in_segments(sorted@, t) <==> in_segments(segments@.take(j as int), t),
        decreases segments.len() - j,
    {
        let x = segments[j];
        let mut p: usize = sorted.len();
        while p > 0 && sorted[p - 1].0 > x.0
            invariant
                p <= sorted.len(),
                forall|q: int| p <= q < sorted.len() ==> (#[trigger] sorted@[q]).0 > x.0,
            decreases p,
        {
            p = p - 1;
        }
        let ghost old_sorted = sorted@;
        let ghost prefix = segments@.take(j as int);
        let ghost next_prefix = segments@.take(j as int + 1);
        assert(next_prefix =~= prefix.push(x));
        sorted.insert(p, x);
        proof {
            let old_idx = idx;
            idx = idx.insert(p as int, j as int);
            assert(sorted@ =~= old_sorted.insert(p as int, x));
            assert forall|k: int| 0 <= k < j + 1 implies 0 <= #[trigger] idx[k] < j + 1 && sorted@[k] == segments@[idx[k]] by {
                if k < p {
                    assert(idx[k] == old_idx[k]);
                } else if k > p {
                    assert(idx[k] == old_idx[k - 1]);
                }
            }
            assert forall|a: int, b: int|
                0 <= a < sorted@.len() && 0 <= b < sorted@.len() && a != b implies (#[trigger] sorted@[a]).1 <= (
                #[trigger] sorted@[b]).0 || sorted@[b].1 <= sorted@[a].0 by {
                assert(idx[a] != idx[b] || a == b || (idx[a] < j && idx[b] < j) || idx[a] == j || idx[b] == j);
                if idx[a] == j && idx[b] == j {
                    if a < p || a > p {
                        if a < p {
                            assert(idx[a] == old_idx[a]);
                        } else {
                            assert(idx[a] == old_idx[a - 1]);
                        }
                    }
                } else if idx[a] != idx[b] {
                    assert(segments@[idx[a]].1 <= segments@[idx[b]].0 || segments@[idx[b]].1 <= segments@[idx[a]].0);
                } else {
                    let ka = if a < p { a } else { a - 1 };
                    let kb = if b < p { b } else { b - 1 };
                    if a != p && b != p {
                        assert(old_sorted[ka] == sorted@[a]);
                        assert(old_sorted[kb] == sorted@[b]);
                        assert(ka != kb);
                    }
                }
            }
            assert forall|a: int, b: int| 0 <= a < b < j + 1 implies (#[trigger] sorted@[a]).0 <= (#[trigger] sorted@[b]).0 by {
                if a < p && b < p {
                    assert(sorted@[a] == old_sorted[a] && sorted@[b] == old_sorted[b]);
                } else if a < p && b == p {
                    assert(sorted@[a] == old_sorted[a]);
                    assert(old_sorted[p - 1].0 <= x.0);
                    if a < p - 1 {
                        assert(old_sorted[a].0 <= old_sorted[p - 1].0);
                    }
                } else if a < p {
                    assert(sorted@[a] == old_sorted[a] && sorted@[b] == old_sorted[b - 1]);
                } else if a == p {
                    assert(sorted@[b] == old_sorted[b - 1]);
                } else {
                    assert(sorted@[a] == old_sorted[a - 1] && sorted@[b] == old_sorted[b - 1]);
                }
            }
            assert forall|t: int| #[trigger] in_segments(sorted@, t) <==> in_segments(next_prefix, t) by {
                if in_segments(sorted@, t) {
                    let k = choose|k: int| 0 <= k < sorted@.len() && (#[trigger] sorted@[k]).0 <= t < sorted@[k].1;
                    if k == p {
                        assert(next_prefix[j as int] == x);
                    } else {
                        let ko = if k < p { k } else { k - 1 };
                        assert(old_sorted[ko] == sorted@[k]);
                        assert(in_segments(old_sorted, t));
                        let k2 = choose|k2: int| 0 <= k2 < prefix.len() && (#[trigger] prefix[k2]).0 <= t < prefix[k2].1;
                        assert(next_prefix[k2] == prefix[k2]);
                    }
                }
                if in_segments(next_prefix, t) {
                    let k = choose|k: int| 0 <= k < next_prefix.len() && (#[trigger] next_prefix[k]).0 <= t < next_prefix[k].1;
                    if k == j {
                        assert(sorted@[p as int] == x);
                    } else {
                        assert(prefix[k] == next_prefix[k]);
                        assert(in_segments(old_sorted, t));
                        let k2 = choose|k2: int| 0 <= k2 < old_sorted.len() && (#[trigger] old_sorted[k2]).0 <= t < old_sorted[k2].1;
                        let kn = if k2 < p { k2 } else { k2 + 1 };
                        assert(sorted@[kn] == old_sorted[k2]);
                    }
                }
            }
        }
        j = j + 1;
    }
    assert(segments@.take(j as int) =~= segments@);
    assert forall|a: int, b: int| 0 <= a < b < sorted@.len() implies (#[trigger] sorted@[a]).1 <= (#[trigger] sorted@[b]).0 by {
        assert(sorted@[a].0 <= sorted@[b].0);
        assert(sorted@[a].1 <= sorted@[b].0 || sorted@[b].1 <= sorted@[a].0);
    }
    sorted
}

/// Orders the segments by their starts and joins those that touch (the end
/// of one is the start of the next).
fn merge_adjacent(segments: Vec<(i64, i64)>) -> (merged: Vec<(i64, i64)>)
    requires
        disjoint_segments(segments@),
    ensures
        separated_segments(merged@),
        merged.len() <= segments.len(),
        forall|t: int| #[trigger] in_segments(merged@, t) <==> in_segments(segments@, t),
{
    if segments.len() == 0 {
        return segments;
    }
    let sorted = sort_by_start(&segments);
    let merged = merge_sorted(sorted);
    merged
}

/// Joins segments in increasing order that touch.
fn merge_sorted(segments: Vec<(i64, i64)>) -> (merged: Vec<(i64, i64)>)
    requires
        ordered_segments(segments@),
    ensures
        separated_segments(merged@),
        merged.len() <= segments.len(),
        forall|t: int| #[trigger] in_segments(merged@, t) <==> in_segments(segments@, t),
{
    let mut merged: Vec<(i64, i64)> = Vec::new();
    let mut j: usize = 0;
    while j < segments.len()
        invariant
            ordered_segments(segments@),
            j <= segments.len(),
            separated_segments(merged@),
            merged.len() <= j,
            j > 0 ==> merged.len() > 0 && merged@.last().1 == segments@[j - 1].1,
            forall|t: int|
                #[trigger] in_segments(merged@, t) <==> in_segments(segments@.take(j as int), t),
        decreases segments.len() - j,
    {
        let (start, end) = segments[j];
        let ghost old_merged = merged@;
        let ghost prefix = segments@.take(j as int);
        let ghost next_prefix = segments@.take(j as int + 1);
        assert(next_prefix =~= prefix.push(segments@[j as int]));
        if merged.len() > 0 && merged[merged.len() - 1].1 == start {
            let last = merged.len() - 1;
            let (last_start, _) = merged[last];
            merged.set(last, (last_start, end));
            assert forall|t: int| #[trigger] in_segments(merged@, t) <==> in_segments(next_prefix, t) by {
                if in_segments(merged@, t) {
                    let k = choose|k: int| 0 <= k < merged@.len() && (#[trigger] merged@[k]).0 <= t < merged@[k].1;
                    if k == last {
                        if t < start {
                            assert(old_merged[k].0 <= t < old_merged[k].1);
                            assert(in_segments(old_merged, t));
                        }
                    } else {
                        assert(old_merged[k] == merged@[k]);
                        assert(in_segments(old_merged, t));
                    }
                }
                if in_segments(next_prefix, t) {
                    let k = choose|k: int| 0 <= k < next_prefix.len() && (#[trigger] next_prefix[k]).0 <= t < next_prefix[k].1;
                    if k == j {
                        assert(merged@[last as int].0 <= t < merged@[last as int].1) by {
                            assert(old_merged[last as int].0 < old_merged[last as int].1);
                        }
                    } else {
                        assert(prefix[k] == next_prefix[k]);
                        assert(in_segments(old_merged, t));
                        let k2 = choose|k2: int| 0 <= k2 < old_merged.len() && (#[trigger] old_merged[k2]).0 <= t < old_merged[k2].1;
                        if k2 == last {
                            assert(merged@[k2].0 <= t < merged@[k2].1);
                        } else {
                            assert(merged@[k2] == old_merged[k2]);
                        }
                    }
                }
            }
        } else {
            proof {
                if merged.len() > 0 {
                    let last = merged.len() - 1;
                    assert(segments@[j - 1].1 <= segments@[j as int].0);
                    assert forall|k: int| 0 <= k < merged@.len() implies (#[trigger] merged@[k]).1 < start by {
                        if k < last {
                            assert(merged@[k].1 < merged@[last as int].0);
                        }
                    }
                }
            }
            merged.push((start, end));
            assert forall|t: int| #[trigger] in_segments(merged@, t) <==> in_segments(next_prefix, t) by {
                if in_segments(merged@, t) {
                    let k = choose|k: int| 0 <= k < merged@.len() && (#[trigger] merged@[k]).0 <= t < merged@[k].1;
                    if k < old_merged.len() {
                        assert(old_merged[k] == merged@[k]);
                        assert(in_segments(old_merged, t));
                        let k2 = choose|k2: int| 0 <= k2 < prefix.len() && (#[trigger] prefix[k2]).0 <= t < prefix[k2].1;
                        assert(next_prefix[k2] == prefix[k2]);
                    } else {
                        assert(next_prefix[j as int].0 <= t < next_prefix[j as int].1);
                    }
                }
                if in_segments(next_prefix, t) {
                    let k = choose|k: int| 0 <= k < next_prefix.len() && (#[trigger] next_prefix[k]).0 <= t < next_prefix[k].1;
                    if k == j {
                        assert(merged@[old_merged.len() as int].0 <= t < merged@[old_merged.len() as int].1);
                    } else {
                        assert(prefix[k] == next_prefix[k]);
                        assert(in_segments(old_merged, t));
                        let k2 = choose|k2: int| 0 <= k2 < old_merged.len() && (#[trigger] old_merged[k2]).0 <= t < old_merged[k2].1;
                        assert(merged@[k2] == old_merged[k2]);
                    }
                }
            }
        }
        j = j + 1;
    }
    assert(segments@.take(j as int) =~= segments@);
    merged
}

/// Where `u` stands in the sorted `users`: its index if present, else the
/// index at which it would be inserted.
pub(crate) fn find_position(users: &Vec<String>, u: &String) -> (res: (usize, bool))
    requires
        strictly_sorted(users@),
    ensures
        res.0 <= users.len(),
        res.1 ==> res.0 < users.len() && users@[res.0 as int]@ == u@,
        !res.1 ==> forall|q: int| 0 <= q < res.0 ==> lex_lt((#[trigger] users@[q])@, u@),
        !res.1 ==> forall|q: int| res.0 <= q < users.len() ==> lex_lt(u@, (#[trigger] users@[q])@),
{
    let mut p: usize = 0;
    while p < users.len()
        invariant
            strictly_sorted(users@),
            p <= users.len(),
            forall|q: int| 0 <= q < p ==> lex_lt((#[trigger] users@[q])@, u@),
        decreases users.len() - p,
    {
        if users[p] == *u {
            return (p, true);
        }
        if lex_less(u.as_str(), users[p].as_str()) {
            proof {
                assert forall|q: int| p <= q < users.len() implies lex_lt(u@, (#[trigger] users@[q])@) by {
                    if q > p {
                        lemma_lex_transitive(u@, users@[p as int]@, users@[q]@);
                    }
                }
            }
            return (p, false);
        }
        proof {
            lemma_lex_total(users@[p as int]@, u@);
        }
        p = p + 1;
    }
    (p, false)
}

/// The participants in lexicographic order, each with the index of its
/// first usable instance.
fn collect_participants(instances: &Vec<AvailabilityInstance>) -> (res: (Vec<String>, Vec<usize>))
    ensures
        lists_participants(res.0@, instances@),
        res.0.len() == res.1.len(),
        forall|k: int| 0 <= k < res.0.len() ==> is_first_instance(instances@, (#[trigger] res.0@[k])@, res.1@[k] as int),
{
    let mut users: Vec<String> = Vec::new();
    let mut first: Vec<usize> = Vec::new();
    let n = instances.len();
    let mut j: usize = 0;
    while j < n
        invariant
            n == instances.len(),
            j <= n,
            users.len() == first.len(),
            strictly_sorted(users@),
            forall|u: Seq<char>| #[trigger] holds_string(users@, u) <==> participant_before(instances@, u, j as int),
            forall|k: int| 0 <= k < users.len() ==> is_first_instance(instances@, (#[trigger] users@[k])@, first@[k] as int),
        decreases n - j,
    {
        let inst = &instances[j];
        let ghost uv = inst.user_id@;
        assert forall|u: Seq<char>| participant_before(instances@, u, j as int + 1) <==>
            (participant_before(instances@, u, j as int) || (is_usable(instances@[j as int]) && uv == u)) by {
            if participant_before(instances@, u, j as int + 1) && !participant_before(instances@, u, j as int) {
                let k = choose|k: int| 0 <= k < j + 1 && k < instances@.len() && is_usable(#[trigger] instances@[k]) && instances@[k].user_id@ == u;
                assert(k == j);
            }
        }
        if inst.start_utc < inst.end_utc {
            let (p, found) = find_position(&users, &inst.user_id);
            if !found {
                let ghost old_users = users@;
                let ghost old_first = first@;
                proof {
                    assert forall|m: int| 0 <= m < old_users.len() implies (#[trigger] old_users[m])@ != uv by {
                        if old_users[m]@ == uv {
                            lemma_lex_irreflexive(uv);
                        }
                    }
                    assert(!holds_string(old_users, uv));
                }
                users.insert(p, inst.user_id.clone());
                first.insert(p, j);
                proof {
                    assert forall|a: int, b: int| 0 <= a < b < users@.len() implies lex_lt((#[trigger] users@[a])@, (#[trigger] users@[b])@) by {
                        if b < p {
                            assert(users@[a] == old_users[a] && users@[b] == old_users[b]);
                        } else if b == p {
                            assert(users@[a] == old_users[a]);
                        } else if a < p {
                            assert(users@[a] == old_users[a] && users@[b] == old_users[b - 1]);
                            lemma_lex_transitive(old_users[a]@, uv, old_users[b - 1]@);
                        } else if a == p {
                            assert(users@[b] == old_users[b - 1]);
                        } else {
                            assert(users@[a] == old_users[a - 1] && users@[b] == old_users[b - 1]);
                        }
                    }
                    assert forall|u: Seq<char>| #[trigger] holds_string(users@, u) <==> participant_before(instances@, u, j as int + 1) by {
                        if holds_string(users@, u) {
                            let m = choose|m: int| 0 <= m < users@.len() && (#[trigger] users@[m])@ == u;
                            if m < p {
                                assert(old_users[m] == users@[m]);
                                assert(holds_string(old_users, u));
                            } else if m > p {
                                assert(old_users[m - 1] == users@[m]);
                                assert(holds_string(old_users, u));
                            }
                        }
                        if participant_before(instances@, u, j as int + 1) {
                            if u == uv {
                                assert(users@[p as int]@ == u);
                            } else {
                                assert(holds_string(old_users, u));
                                let m = choose|m: int| 0 <= m < old_users.len() && (#[trigger] old_users[m])@ == u;
                                if m < p {
                                    assert(users@[m] == old_users[m]);
                                } else {
                                    assert(users@[m + 1] == old_users[m]);
                                }
                            }
                        }
                    }
                    assert forall|k: int| 0 <= k < users@.len() implies is_first_instance(instances@, (#[trigger] users@[k])@, first@[k] as int) by {
                        if k < p {
                            assert(users@[k] == old_users[k] && first@[k] == old_first[k]);
                        } else if k > p {
                            assert(users@[k] == old_users[k - 1] && first@[k] == old_first[k - 1]);
                        } else {
                            assert(!participant_before(instances@, uv, j as int));
                        }
                    }
                }
            }
        }
        j = j + 1;
    }
    (users, first)
}

/// The times are in strictly increasing order.
pub open spec fn increasing(v: Seq<i64>) -> bool {
    forall|a: int, b: int| 0 <= a < b < v.len() ==> (#[trigger] v[a]) < (#[trigger] v[b])
}

/// `x` is the start or the end of a usable instance.
pub open spec fn is_event_time(insts: Seq<AvailabilityInstance>, x: int) -> bool {
    exists|k: int|
        0 <= k < insts.len() && is_usable(#[trigger] insts[k]) && (insts[k].start_utc == x || insts[k].end_utc == x)
}

/// `x` is the start or the end of a usable instance among the first `j`.
pub open spec fn is_event_time_before(insts: Seq<AvailabilityInstance>, x: int, j: int) -> bool {
    exists|k: int|
        0 <= k < j && k < insts.len() && is_usable(#[trigger] insts[k]) && (insts[k].start_utc == x || insts[k].end_utc == x)
}

/// Adds `x` to the increasing set `times`, unless it is already there.
fn insert_time(times: &mut Vec<i64>, x: i64)
    requires
        increasing(old(times)@),
    ensures
        increasing(final(times)@),
        forall|y: i64| #[trigger] final(times)@.contains(y) <==> (old(times)@.contains(y) || y == x),
        final(times).len() <= old(times).len() + 1,
{
    let mut p: usize = 0;
    while p < times.len() && times[p] < x
        invariant
            p <= times.len(),
            forall|q: int| 0 <= q < p ==> (#[trigger] times@[q]) < x,
        decreases times.len() - p,
    {
        p = p + 1;
    }
    if p < times.len() && times[p] == x {
        return;
    }
    let ghost old_times = times@;
    times.insert(p, x);
    assert forall|a: int, b: int| 0 <= a < b < times@.len() implies (#[trigger] times@[a]) < (#[trigger] times@[b]) by {
        if b < p {
            assert(times@[a] == old_times[a] && times@[b] == old_times[b]);
        } else if b == p {
            assert(times@[a] == old_times[a]);
        } else if a < p {
            assert(times@[a] == old_times[a] && times@[b] == old_times[b - 1]);
        } else if a == p {
            assert(times@[b] == old_times[b - 1]);
            assert(old_times[p as int] <= old_times[b - 1]);
        } else {
            assert(times@[a] == old_times[a - 1] && times@[b] == old_times[b - 1]);
        }
    }
    assert forall|y: i64| #[trigger] times@.contains(y) <==> (old_times.contains(y) || y == x) by {
        if times@.contains(y) {
            let m = choose|m: int| 0 <= m < times@.len() && times@[m] == y;
            if m < p {
                assert(old_times[m] == y);
            } else if m > p {
                assert(old_times[m - 1] == y);
            }
        }
        if old_times.contains(y) {
            let m = choose|m: int| 0 <= m < old_times.len() && old_times[m] == y;
            if m < p {
                assert(times@[m] == y);
            } else {
                assert(times@[m + 1] == y);
            }
        }
        if y == x {
            assert(times@[p as int] == y);
        }
    }
}

/// The distinct starts and ends of the usable instances, in increasing order.
fn collect_event_times(instances: &Vec<AvailabilityInstance>) -> (times: Vec<i64>)
    ensures
        increasing(times@),
        forall|x: i64| #[trigger] times@.contains(x) <==> is_event_time(instances@, x as int),
        times.len() <= 2 * instances.len(),
{
    let mut times: Vec<i64> = Vec::new();
    let n = instances.len();
    let mut j: usize = 0;
    while j < n
        invariant
            n == instances.len(),
            j <= n,
            increasing(times@),
            forall|x: i64| #[trigger] times@.contains(x) <==> is_event_time_before(instances@, x as int, j as int),
            times.len() <= 2 * j,
        decreases n - j,
    {
        let inst = &instances[j];
        let ghost before = times@;
        if inst.start_utc < inst.end_utc {
            insert_time(&mut times, inst.start_utc);
            insert_time(&mut times, inst.end_utc);
        }
        assert forall|x: i64| #[trigger] times@.contains(x) <==> is_event_time_before(instances@, x as int, j as int + 1) by {
            if is_event_time_before(instances@, x as int, j as int + 1) && !is_event_time_before(instances@, x as int, j as int) {
                let k = choose|k: int|
                    0 <= k < j + 1 && k < instances@.len() && is_usable(#[trigger] instances@[k])
                        && (instances@[k].start_utc == x || instances@[k].end_utc == x);
                assert(k == j);
            }
            if times@.contains(x) && !before.contains(x) {
                assert(is_usable(instances@[j as int]));
            }
        }
        j = j + 1;
    }
    times
}

/// The index of the first string of `users` equal to `u`, or the length of
/// `users` when there is none.
fn position_of(users: &Vec<String>, u: &String) -> (res: usize)
    ensures
        res <= users.len(),
        res < users.len() ==> users@[res as int]@ == u@,
        res == users.len() ==> !holds_string(users@, u@),
{
    let mut p: usize = 0;
    while p < users.len()
        invariant
            p <= users.len(),
            forall|q: int| 0 <= q < p ==> (#[trigger] users@[q])@ != u@,
        decreases users.len() - p,
    {
        if users[p] == *u {
            return p;
        }
        p = p + 1;
    }
    p
}

/// For each usable instance, the index of its user among the participants.
fn owner_indices(instances: &Vec<AvailabilityInstance>, users: &Vec<String>) -> (owner: Vec<usize>)
    requires
        lists_participants(users@, instances@),
    ensures
        owner.len() == instances.len(),
        forall|k: int|
            0 <= k < instances.len() && is_usable(#[trigger] instances@[k]) ==> owner@[k] < users.len()
                && users@[owner@[k] as int]@ == instances@[k].user_id@,
{
    let mut owner: Vec<usize> = Vec::new();
    let n = instances.len();
    let mut j: usize = 0;
    while j < n
        invariant
            n == instances.len(),
            j <= n,
            owner.len() == j,
            lists_participants(users@, instances@),
            forall|k: int|
                0 <= k < j && is_usable(#[trigger] instances@[k]) ==> owner@[k] < users.len()
                    && users@[owner@[k] as int]@ == instances@[k].user_id@,
        decreases n - j,
    {
        let inst = &instances[j];
        let mut found: usize = 0;
        if inst.start_utc < inst.end_utc {
            assert(is_usable(instances@[j as int]));
            assert(is_participant(instances@, inst.user_id@));
            assert(holds_string(users@, inst.user_id@));
            found = position_of(users, &inst.user_id);
        }
        owner.push(found);
        j = j + 1;
    }
    owner
}

/// How many of the instances `lo..hi` belong to `u` and cover the second `t`.
pub open spec fn cover_count(insts: Seq<AvailabilityInstance>, u: Seq<char>, t: int, lo: int, hi: int) -> nat
    decreases hi - lo,
{
    if lo >= hi {
        0
    } else {
        (if covers(insts[lo], u, t) { 1nat } else { 0nat }) + cover_count(insts, u, t, lo + 1, hi)
    }
}

proof fn lemma_cover_count_snoc(insts: Seq<AvailabilityInstance>, u: Seq<char>, t: int, lo: int, hi: int)
    requires
        lo <= hi,
    ensures
        cover_count(insts, u, t, lo, hi + 1) == cover_count(insts, u, t, lo, hi) + (if covers(insts[hi], u, t) { 1nat } else { 0nat }),
    decreases hi - lo,
{
    if lo < hi {
        lemma_cover_count_snoc(insts, u, t, lo + 1, hi);
    } else {
        assert(cover_count(insts, u, t, hi + 1, hi + 1) == 0);
    }
}

proof fn lemma_cover_count_bound(insts: Seq<AvailabilityInstance>, u: Seq<char>, t: int, lo: int, hi: int)
    requires
        lo <= hi,
    ensures
        cover_count(insts, u, t, lo, hi) <= hi - lo,
    decreases hi - lo,
{
    if lo < hi {
        lemma_cover_count_bound(insts, u, t, lo + 1, hi);
    }
}

proof fn lemma_cover_count_positive(insts: Seq<AvailabilityInstance>, u: Seq<char>, t: int, lo: int, hi: int)
    ensures
        cover_count(insts, u, t, lo, hi) > 0 <==> exists|k: int| lo <= k < hi && #[trigger] covers(insts[k], u, t),
    decreases hi - lo,
{
    if lo < hi {
        lemma_cover_count_positive(insts, u, t, lo + 1, hi);
        if exists|k: int| lo <= k < hi && #[trigger] covers(insts[k], u, t) {
            let k = choose|k: int| lo <= k < hi && #[trigger] covers(insts[k], u, t);
            if k > lo {
                assert(lo + 1 <= k < hi && covers(insts[k], u, t));
            }
        }
    }
}

/// Whether every participant has a positive count (`active_counts[m]` is the
/// count of `users[m]`).
pub fn all_users_active(users: &Vec<String>, active_counts: &Vec<usize>) -> (res: bool)
    requires
        users.len() == active_counts.len(),
    ensures
        res == forall|m: int| 0 <= m < users.len() ==> #[trigger] active_counts@[m] > 0,
{
    let mut m: usize = 0;
    while m < users.len()
        invariant
            users.len() == active_counts.len(),
            m <= users.len(),
            forall|q: int| 0 <= q < m ==> #[trigger] active_counts@[q] > 0,
        decreases users.len() - m,
    {
        if active_counts[m] == 0 {
            return false;
        }
        m = m + 1;
    }
    true
}

/// The event times cut the line into windows on which availability does not
/// change: inside `[times[i], times[i + 1])` it is that of `times[i]`.
proof fn lemma_constant_on_window(insts: Seq<AvailabilityInstance>, times: Seq<i64>, i: int, t: int)
    requires
        increasing(times),
        forall|x: i64| #[trigger] times.contains(x) <==> is_event_time(insts, x as int),
        0 <= i,
        i + 1 < times.len(),
        times[i] <= t < times[i + 1],
    ensures
        forall|u: Seq<char>| #[trigger] available_at(insts, u, t) <==> available_at(insts, u, times[i] as int),
        everyone_available_at(insts, t) <==> everyone_available_at(insts, times[i] as int),
{
    assert forall|k: int, u: Seq<char>| 0 <= k < insts.len() implies (#[trigger] covers(insts[k], u, t) <==> covers(insts[k], u, times[i] as int)) by {
        if is_usable(insts[k]) {
            assert(is_event_time(insts, insts[k].start_utc as int));
            assert(times.contains(insts[k].start_utc));
            assert(is_event_time(insts, insts[k].end_utc as int));
            assert(times.contains(insts[k].end_utc));
            let a = choose|a: int| 0 <= a < times.len() && times[a] == insts[k].start_utc;
            let b = choose|b: int| 0 <= b < times.len() && times[b] == insts[k].end_utc;
            if a <= i {
                assert(times[a] <= times[i]);
            } else {
                assert(times[i + 1] <= times[a]);
            }
            if b <= i {
                assert(times[b] <= times[i]);
            } else {
                assert(times[i + 1] <= times[b]);
            }
        }
    }
    assert forall|u: Seq<char>| #[trigger] available_at(insts, u, t) <==> available_at(insts, u, times[i] as int) by {
        if available_at(insts, u, t) {
            let k = choose|k: int| 0 <= k < insts.len() && #[trigger] covers(insts[k], u, t);
            assert(covers(insts[k], u, times[i] as int));
        }
        if available_at(insts, u, times[i] as int) {
            let k = choose|k: int| 0 <= k < insts.len() && #[trigger] covers(insts[k], u, times[i] as int);
            assert(covers(insts[k], u, t));
        }
    }
}

/// Every instance boundary lies outside the open interval between two
/// consecutive event times.
proof fn lemma_no_time_between(insts: Seq<AvailabilityInstance>, times: Seq<i64>, i: int, prev: int, k: int)
    requires
        increasing(times),
        forall|x: i64| #[trigger] times.contains(x) <==> is_event_time(insts, x as int),
        0 <= i < times.len(),
        i == 0 ==> prev == times[0] - 1,
        i > 0 ==> prev == times[i - 1],
        0 <= k < insts.len(),
        is_usable(insts[k]),
    ensures
        insts[k].start_utc <= prev || insts[k].start_utc >= times[i],
        insts[k].end_utc <= prev || insts[k].end_utc >= times[i],
        insts[k].start_utc >= times[0],
        insts[k].end_utc <= times.last(),
{
    assert(is_event_time(insts, insts[k].start_utc as int));
    assert(times.contains(insts[k].start_utc));
    assert(is_event_time(insts, insts[k].end_utc as int));
    assert(times.contains(insts[k].end_utc));
    let a = choose|a: int| 0 <= a < times.len() && times[a] == insts[k].start_utc;
    let b = choose|b: int| 0 <= b < times.len() && times[b] == insts[k].end_utc;
    if a < i {
        assert(times[a] <= times[i - 1]);
    } else if a > i {
        assert(times[i] < times[a]);
    }
    if b < i {
        assert(times[b] <= times[i - 1]);
    } else if b > i {
        assert(times[i] < times[b]);
    }
    if a > 0 {
        assert(times[0] < times[a]);
    }
    if b < times.len() - 1 {
        assert(times[b] < times[times.len() - 1]);
    }
}

/// Two participants at different positions of the sorted list differ.
proof fn lemma_users_distinct(users: Seq<String>, a: int, b: int)
    requires
        strictly_sorted(users),
        0 <= a < users.len(),
        0 <= b < users.len(),
        a != b,
    ensures
        users[a]@ != users[b]@,
{
    if a < b {
        assert(lex_lt(users[a]@, users[b]@));
    } else {
        assert(lex_lt(users[b]@, users[a]@));
    }
    if users[a]@ == users[b]@ {
        lemma_lex_irreflexive(users[a]@);
    }
}

/// The sweep over the event times: the windows `[times[i], times[i + 1])`
/// at whose start every participant is active, in increasing order.
fn sweep(
    instances: &Vec<AvailabilityInstance>,
    users: &Vec<String>,
    owner: &Vec<usize>,
    times: &Vec<i64>,
) -> (raw: Vec<(i64, i64)>)
    requires
        lists_participants(users@, instances@),
        owner.len() == instances.len(),
        forall|k: int|
            0 <= k < instances.len() && is_usable(#[trigger] instances@[k]) ==> owner@[k] < users.len()
                && users@[owner@[k] as int]@ == instances@[k].user_id@,
        increasing(times@),
        times.len() >= 2,
        forall|x: i64| #[trigger] times@.contains(x) <==> is_event_time(instances@, x as int),
    ensures
        ordered_segments(raw@),
        raw.len() < times.len(),
        forall|t: int| #[trigger] in_segments(raw@, t) <==> (times@[0] <= t < times@.last() && everyone_available_at(instances@, t)),
{
    let n = instances.len();
    let ghost insts = instances@;
    let mut counts: Vec<usize> = Vec::new();
    let mut m: usize = 0;
    while m < users.len()
        invariant
            m <= users.len(),
            counts.len() == m,
            forall|q: int| 0 <= q < m ==> #[trigger] counts@[q] == 0,
        decreases users.len() - m,
    {
        counts.push(0);
        m = m + 1;
    }
    proof {
        assert forall|q: int| 0 <= q < counts.len() implies #[trigger] counts@[q] == cover_count(insts, users@[q]@, times@[0] - 1, 0, n as int) by {
            assert forall|k: int| 0 <= k < n implies !(#[trigger] covers(insts[k], users@[q]@, times@[0] - 1)) by {
                if covers(insts[k], users@[q]@, times@[0] - 1) {
                    lemma_no_time_between(insts, times@, 0, times@[0] - 1, k);
                }
            }
            lemma_cover_count_positive(insts, users@[q]@, times@[0] - 1, 0, n as int);
        }
    }
    let mut raw: Vec<(i64, i64)> = Vec::new();
    let last = times.len() - 1;
    let mut i: usize = 0;
    while i < last
        invariant
            n == instances.len(),
            insts == instances@,
            last == times.len() - 1,
            i <= last,
            lists_participants(users@, insts),
            owner.len() == n,
            forall|k: int|
                0 <= k < n && is_usable(#[trigger] insts[k]) ==> owner@[k] < users.len()
                    && users@[owner@[k] as int]@ == insts[k].user_id@,
            increasing(times@),
            forall|x: i64| #[trigger] times@.contains(x) <==> is_event_time(insts, x as int),
            counts.len() == users.len(),
            forall|q: int| 0 <= q < counts.len() ==> #[trigger] counts@[q] == cover_count(
                insts,
                users@[q]@,
                if i == 0 { times@[0] - 1 } else { times@[i - 1] as int },
                0,
                n as int,
            ),
            ordered_segments(raw@),
            raw.len() <= i,
            forall|k: int| 0 <= k < raw.len() ==> times@[0] <= (#[trigger] raw@[k]).0 && raw@[k].1 <= times@[i as int],
            forall|t: int| times@[0] <= t < times@[i as int] ==> (#[trigger] in_segments(raw@, t) <==> everyone_available_at(insts, t)),
        decreases last - i,
    {
        let cur = times[i];
        let next = times[i + 1];
        let ghost prev: int = if i == 0 { times@[0] - 1 } else { times@[i - 1] as int };
        let mut j: usize = 0;
        while j < n
            invariant
                n == instances.len(),
                insts == instances@,
                j <= n,
                i < times.len(),
                cur == times@[i as int],
                i == 0 ==> prev == times@[0] - 1,
                i > 0 ==> prev == times@[i - 1],
                lists_participants(users@, insts),
                owner.len() == n,
                forall|k: int|
                    0 <= k < n && is_usable(#[trigger] insts[k]) ==> owner@[k] < users.len()
                        && users@[owner@[k] as int]@ == insts[k].user_id@,
                increasing(times@),
                forall|x: i64| #[trigger] times@.contains(x) <==> is_event_time(insts, x as int),
                counts.len() == users.len(),
                forall|q: int| 0 <= q < counts.len() ==> #[trigger] counts@[q] == cover_count(insts, users@[q]@, cur as int, 0, j as int)
                    + cover_count(insts, users@[q]@, prev, j as int, n as int),
            decreases n - j,
        {
            let inst = &instances[j];
            let ghost before = counts@;
            proof {
                assert forall|q: int| 0 <= q < counts.len() implies
                    cover_count(insts, users@[q]@, cur as int, 0, j as int + 1) + cover_count(insts, users@[q]@, prev, j as int + 1, n as int)
                    == #[trigger] before[q]
                        + (if covers(insts[j as int], users@[q]@, cur as int) { 1int } else { 0int })
                        - (if covers(insts[j as int], users@[q]@, prev) { 1int } else { 0int }) by {
                    lemma_cover_count_snoc(insts, users@[q]@, cur as int, 0, j as int);
                }
            }
            if inst.start_utc < inst.end_utc {
                let o = owner[j];
                proof {
                    lemma_no_time_between(insts, times@, i as int, prev, j as int);
                    assert forall|q: int| 0 <= q < counts.len() && q != o implies !covers(insts[j as int], #[trigger] users@[q]@, cur as int)
                        && !covers(insts[j as int], users@[q]@, prev) by {
                        lemma_users_distinct(users@, q, o as int);
                    }
                    lemma_cover_count_bound(insts, users@[o as int]@, cur as int, 0, j as int + 1);
                    lemma_cover_count_bound(insts, users@[o as int]@, prev, j as int + 1, n as int);
                }
                if inst.start_utc == cur {
                    let c = counts[o];
                    counts.set(o, c + 1);
                } else if inst.end_utc == cur {
                    let c = counts[o];
                    counts.set(o, c - 1);
                }
            }
            j = j + 1;
        }
        proof {
            assert forall|q: int| 0 <= q < counts.len() implies #[trigger] counts@[q] == cover_count(insts, users@[q]@, cur as int, 0, n as int) by {
            }
        }
        let active = all_users_active(users, &counts);
        proof {
            assert forall|q: int| 0 <= q < users.len() implies (#[trigger] counts@[q] > 0 <==> available_at(insts, users@[q]@, cur as int)) by {
                lemma_cover_count_positive(insts, users@[q]@, cur as int, 0, n as int);
            }
            if active {
                assert forall|u: Seq<char>| #[trigger] is_participant(insts, u) implies available_at(insts, u, cur as int) by {
                    assert(holds_string(users@, u));
                    let q = choose|q: int| 0 <= q < users@.len() && (#[trigger] users@[q])@ == u;
                    assert(counts@[q] > 0);
                }
            } else {
                let q = choose|q: int| 0 <= q < users.len() && !(#[trigger] counts@[q] > 0);
                assert(holds_string(users@, users@[q]@));
                assert(is_participant(insts, users@[q]@));
                assert(!available_at(insts, users@[q]@, cur as int));
            }
            assert(active <==> everyone_available_at(insts, cur as int));
        }
        let ghost old_raw = raw@;
        if active {
            raw.push((cur, next));
        }
        proof {
            assert forall|t: int| times@[0] <= t < times@[i + 1] implies (#[trigger] in_segments(raw@, t) <==> everyone_available_at(insts, t)) by {
                if t < cur {
                    if in_segments(raw@, t) {
                        let k = choose|k: int| 0 <= k < raw@.len() && (#[trigger] raw@[k]).0 <= t < raw@[k].1;
                        assert(k < old_raw.len());
                        assert(old_raw[k] == raw@[k]);
                        assert(in_segments(old_raw, t));
                    }
                    if in_segments(old_raw, t) {
                        let k = choose|k: int| 0 <= k < old_raw.len() && (#[trigger] old_raw[k]).0 <= t < old_raw[k].1;
                        assert(raw@[k] == old_raw[k]);
                    }
                } else {
                    lemma_constant_on_window(insts, times@, i as int, t);
                    if in_segments(raw@, t) {
                        let k = choose|k: int| 0 <= k < raw@.len() && (#[trigger] raw@[k]).0 <= t < raw@[k].1;
                        if k < old_raw.len() {
                            assert(old_raw[k] == raw@[k]);
                        }
                    }
                    if active {
                        assert(raw@[old_raw.len() as int].0 <= t < raw@[old_raw.len() as int].1);
                    }
                }
            }
            assert(times@[i as int] < times@[i + 1]);
        }
        i = i + 1;
    }
    raw
}

/// A copy of a list of strings.
pub fn clone_strings(v: &Vec<String>) -> (res: Vec<String>)
    ensures
        res@ == v@,
{
    let mut res: Vec<String> = Vec::new();
    let mut k: usize = 0;
    while k < v.len()
        invariant
            k <= v.len(),
            res@ == v@.take(k as int),
        decreases v.len() - k,
    {
        res.push(v[k].clone());
        assert(v@.take(k as int + 1) =~= v@.take(k as int).push(v@[k as int]));
        k = k + 1;
    }
    assert(v@.take(k as int) =~= v@);
    res
}

/// Slots that are non-empty, in increasing order, with a gap between any two.
pub open spec fn separated_slots(slots: Seq<OverlapSlot>) -> bool {
    &&& forall|k: int| 0 <= k < slots.len() ==> (#[trigger] slots[k]).start_utc < slots[k].end_utc
    &&& forall|a: int, b: int| 0 <= a < b < slots.len() ==> (#[trigger] slots[a]).end_utc < (#[trigger] slots[b]).start_utc
}

/// `names[q]` is the display name of `ids[q]`, for every `q`.
pub open spec fn names_participants(names: Seq<String>, ids: Seq<String>, insts: Seq<AvailabilityInstance>) -> bool {
    &&& names.len() == ids.len()
    &&& forall|q: int| 0 <= q < ids.len() ==> (#[trigger] names[q])@ == display_name(insts, ids[q]@)
}

/// `slots` are the full overlaps of `insts`: they cover exactly the seconds
/// at which every participant is available, with gaps between them, numbered
/// from 1, each listing the participants and their names.
pub open spec fn full_overlaps(insts: Seq<AvailabilityInstance>, slots: Seq<OverlapSlot>) -> bool {
    &&& slots.len() > 0 ==> exists|u: Seq<char>| is_participant(insts, u)
    &&& (exists|u: Seq<char>| is_participant(insts, u)) ==> forall|t: int|
        #[trigger] in_slots(slots, t) <==> everyone_available_at(insts, t)
    &&& separated_slots(slots)
    &&& forall|k: int| 0 <= k < slots.len() ==> {
        &&& (#[trigger] slots[k]).display_index == k + 1
        &&& lists_participants(slots[k].participant_user_ids@, insts)
        &&& names_participants(slots[k].participant_usernames@, slots[k].participant_user_ids@, insts)
    }
}

proof fn lemma_first_instance_unique(insts: Seq<AvailabilityInstance>, u: Seq<char>, m1: int, m2: int)
    requires
        is_first_instance(insts, u, m1),
        is_first_instance(insts, u, m2),
    ensures
        m1 == m2,
{
    if m1 < m2 {
        assert(is_usable(insts[m1]));
        assert(participant_before(insts, u, m2));
    } else if m2 < m1 {
        assert(is_usable(insts[m2]));
        assert(participant_before(insts, u, m1));
    }
}

/// The stretches of time in which every participant is available at once.
///
/// A participant is a user with at least one instance that ends after it
/// starts; other instances are ignored. The slots are the maximal such
/// stretches, numbered from 1 in increasing order, and each lists all the
/// participants (in lexicographic order of their ids) with the username of
/// each one's first usable instance. Without participants there is no slot.
pub fn compute_full_overlaps(instances: &Vec<AvailabilityInstance>) -> (slots: Vec<OverlapSlot>)
    requires
        instances.len() <= 0x4000_0000_0000_0000,
    ensures
        full_overlaps(instances@, slots@),
{
    let (users, first) = collect_participants(instances);
    let times = collect_event_times(instances);
    if users.len() == 0 || times.len() < 2 {
        proof {
            if users.len() > 0 {
                assert(holds_string(users@, users@[0]@));
                assert(is_participant(instances@, users@[0]@));
                let k = choose|k: int| 0 <= k < instances@.len() && is_usable(#[trigger] instances@[k]) && instances@[k].user_id@ == users@[0]@;
                assert(times@.contains(instances@[k].start_utc));
                assert(times@.contains(instances@[k].end_utc));
                let a = choose|a: int| 0 <= a < times@.len() && times@[a] == instances@[k].start_utc;
                let b = choose|b: int| 0 <= b < times@.len() && times@[b] == instances@[k].end_utc;
                assert(a != b);
            } else {
                assert forall|u: Seq<char>| !is_participant(instances@, u) by {
                    if is_participant(instances@, u) {
                        assert(holds_string(users@, u));
                    }
                }
            }
        }
        return Vec::new();
    }
    let owner = owner_indices(instances, &users);
    let raw = sweep(instances, &users, &owner, &times);
    proof {
        lemma_ordered_disjoint(raw@);
    }
    let merged = merge_adjacent(raw);

    let mut names: Vec<String> = Vec::new();
    let mut q: usize = 0;
    while q < users.len()
        invariant
            q <= users.len(),
            users.len() == first.len(),
            names.len() == q,
            forall|k: int| 0 <= k < users.len() ==> is_first_instance(instances@, (#[trigger] users@[k])@, first@[k] as int),
            forall|k: int| 0 <= k < q ==> (#[trigger] names@[k])@ == display_name(instances@, users@[k]@),
        decreases users.len() - q,
    {
        let m = first[q];
        proof {
            let c = choose|c: int| is_first_instance(instances@, users@[q as int]@, c);
            lemma_first_instance_unique(instances@, users@[q as int]@, c, m as int);
        }
        names.push(instances[m].username.clone());
        q = q + 1;
    }

    let mut slots: Vec<OverlapSlot> = Vec::new();
    let mut idx: usize = 0;
    while idx < merged.len()
        invariant
            idx <= merged.len(),
            merged.len() < times.len(),
            times.len() <= 2 * instances.len(),
            instances.len() <= 0x4000_0000_0000_0000,
            slots.len() == idx,
            lists_participants(users@, instances@),
            names_participants(names@, users@, instances@),
            forall|k: int| 0 <= k < idx ==> {
                &&& (#[trigger] slots@[k]).display_index == k + 1
                &&& slots@[k].start_utc == merged@[k].0
                &&& slots@[k].end_utc == merged@[k].1
                &&& slots@[k].participant_user_ids@ == users@
                &&& slots@[k].participant_usernames@ == names@
            },
        decreases merged.len() - idx,
    {
        let (start_utc, end_utc) = merged[idx];
        slots.push(OverlapSlot {
            display_index: idx as i64 + 1,
            start_utc,
            end_utc,
            participant_user_ids: clone_strings(&users),
            participant_usernames: clone_strings(&names),
        });
        idx = idx + 1;
    }
    proof {
        assert forall|t: int| #[trigger] in_slots(slots@, t) <==> in_segments(merged@, t) by {
            if in_slots(slots@, t) {
                let k = choose|k: int| 0 <= k < slots@.len() && (#[trigger] slots@[k]).start_utc <= t < slots@[k].end_utc;
                assert(merged@[k].0 <= t < merged@[k].1);
            }
            if in_segments(merged@, t) {
                let k = choose|k: int| 0 <= k < merged@.len() && (#[trigger] merged@[k]).0 <= t < merged@[k].1;
                assert(slots@[k].start_utc <= t < slots@[k].end_utc);
            }
        }
        assert(holds_string(users@, users@[0]@));
        assert forall|t: int| #[trigger] in_slots(slots@, t) <==> everyone_available_at(instances@, t) by {
            if everyone_available_at(instances@, t) {
                assert(is_participant(instances@, users@[0]@));
                assert(available_at(instances@, users@[0]@, t));
                let k = choose|k: int| 0 <= k < instances@.len() && #[trigger] covers(instances@[k], users@[0]@, t);
                lemma_no_time_between(instances@, times@, 0, times@[0] - 1, k);
                assert(in_segments(raw@, t));
            }
        }
        assert forall|a: int, b: int| 0 <= a < b < slots.len() implies (#[trigger] slots@[a]).end_utc < (#[trigger] slots@[b]).start_utc by {
            assert(merged@[a].1 < merged@[b].0);
        }
        assert forall|k: int| 0 <= k < slots.len() implies (#[trigger] slots@[k]).start_utc < slots@[k].end_utc by {
            assert(merged@[k].0 < merged@[k].1);
        }
    }
    slots
}

/// Two slot lists, each in increasing order with gaps, that cover the same
/// seconds have the same bounds.
proof fn lemma_separated_slots_unique(a: Seq<OverlapSlot>, b: Seq<OverlapSlot>)
    requires
        separated_slots(a),
        separated_slots(b),
        forall|t: int| #[trigger] in_slots(a, t) <==> in_slots(b, t),
    ensures
        a.len() == b.len(),
        forall|k: int| 0 <= k < a.len() ==> (#[trigger] a[k]).start_utc == b[k].start_utc && a[k].end_utc == b[k].end_utc,
    decreases a.len(),
{
    if a.len() == 0 {
        if b.len() > 0 {
            let t = b[0].start_utc as int;
            assert(in_slots(b, t));
            assert(!in_slots(a, t));
        }
    } else if b.len() == 0 {
        let t = a[0].start_utc as int;
        assert(in_slots(a, t));
        assert(!in_slots(b, t));
    } else {
        let a0 = a[0];
        let b0 = b[0];
        assert(in_slots(a, a0.start_utc as int));
        assert(in_slots(b, a0.start_utc as int));
        assert(in_slots(b, b0.start_utc as int));
        assert(in_slots(a, b0.start_utc as int));
        let ja = choose|k: int| 0 <= k < b.len() && (#[trigger] b[k]).start_utc <= a0.start_utc < b[k].end_utc;
        let jb = choose|k: int| 0 <= k < a.len() && (#[trigger] a[k]).start_utc <= b0.start_utc < a[k].end_utc;
        if ja > 0 {
            assert(b0.end_utc < b[ja].start_utc);
        }
        if jb > 0 {
            assert(a0.end_utc < a[jb].start_utc);
        }
        assert(a0.start_utc == b0.start_utc);
        if a0.end_utc < b0.end_utc {
            let t = a0.end_utc as int;
            assert(in_slots(b, t));
            assert(in_slots(a, t));
            let k = choose|k: int| 0 <= k < a.len() && (#[trigger] a[k]).start_utc <= t < a[k].end_utc;
            if k > 0 {
                assert(a0.end_utc < a[k].start_utc);
            }
        }
        if b0.end_utc < a0.end_utc {
            let t = b0.end_utc as int;
            assert(in_slots(a, t));
            let k = choose|k: int| 0 <= k < b.len() && (#[trigger] b[k]).start_utc <= t < b[k].end_utc;
            if k > 0 {
                assert(b0.end_utc < b[k].start_utc);
            }
        }
        let ar = a.drop_first();
        let br = b.drop_first();
        assert forall|t: int| #[trigger] in_slots(ar, t) <==> in_slots(br, t) by {
            if in_slots(ar, t) {
                let k = choose|k: int| 0 <= k < ar.len() && (#[trigger] ar[k]).start_utc <= t < ar[k].end_utc;
                assert(a[k + 1] == ar[k]);
                assert(a0.end_utc < a[k + 1].start_utc);
                assert(in_slots(a, t));
                let j = choose|j: int| 0 <= j < b.len() && (#[trigger] b[j]).start_utc <= t < b[j].end_utc;
                assert(j != 0);
                assert(br[j - 1] == b[j]);
            }
            if in_slots(br, t) {
                let k = choose|k: int| 0 <= k < br.len() && (#[trigger] br[k]).start_utc <= t < br[k].end_utc;
                assert(b[k + 1] == br[k]);
                assert(b0.end_utc < b[k + 1].start_utc);
                assert(in_slots(b, t));
                assert(in_slots(a, t));
                let j = choose|j: int| 0 <= j < a.len() && (#[trigger] a[j]).start_utc <= t < a[j].end_utc;
                assert(j != 0);
                assert(ar[j - 1] == a[j]);
            }
        }
        assert forall|x: int, y: int| 0 <= x < y < ar.len() implies (#[trigger] ar[x]).end_utc < (#[trigger] ar[y]).start_utc by {
            assert(a[x + 1].end_utc < a[y + 1].start_utc);
        }
        assert forall|x: int, y: int| 0 <= x < y < br.len() implies (#[trigger] br[x]).end_utc < (#[trigger] br[y]).start_utc by {
            assert(b[x + 1].end_utc < b[y + 1].start_utc);
        }
        assert forall|x: int| 0 <= x < ar.len() implies (#[trigger] ar[x]).start_utc < ar[x].end_utc by {
            assert(ar[x] == a[x + 1]);
        }
        assert forall|x: int| 0 <= x < br.len() implies (#[trigger] br[x]).start_utc < br[x].end_utc by {
            assert(br[x] == b[x + 1]);
        }
        lemma_separated_slots_unique(ar, br);
        assert forall|k: int| 0 <= k < a.len() implies (#[trigger] a[k]).start_utc == b[k].start_utc && a[k].end_utc
            == b[k].end_utc by {
            if k > 0 {
                assert(a[k] == ar[k - 1] && b[k] == br[k - 1]);
            }
        }
    }
}

/// Two participant lists of the same instances have the same ids.
proof fn lemma_participant_ids_unique(x: Seq<String>, y: Seq<String>, insts: Seq<AvailabilityInstance>)
    requires
        lists_participants(x, insts),
        lists_participants(y, insts),
    ensures
        texts(x) == texts(y),
{
    let tx = texts(x);
    let ty = texts(y);
    assert forall|a: int, b: int| 0 <= a < b < tx.len() implies lex_lt(#[trigger] tx[a], #[trigger] tx[b]) by {
        assert(lex_lt(x[a]@, x[b]@));
    }
    assert forall|a: int, b: int| 0 <= a < b < ty.len() implies lex_lt(#[trigger] ty[a], #[trigger] ty[b]) by {
        assert(lex_lt(y[a]@, y[b]@));
    }
    assert forall|k: Seq<char>| tx.contains(k) <==> ty.contains(k) by {
        if tx.contains(k) {
            let i = choose|i: int| 0 <= i < tx.len() && tx[i] == k;
            assert(holds_string(x, k));
            assert(holds_string(y, k));
            let j = choose|j: int| 0 <= j < y.len() && (#[trigger] y[j])@ == k;
            assert(ty[j] == k);
        }
        if ty.contains(k) {
            let i = choose|i: int| 0 <= i < ty.len() && ty[i] == k;
            assert(holds_string(y, k));
            assert(holds_string(x, k));
            let j = choose|j: int| 0 <= j < x.len() && (#[trigger] x[j])@ == k;
            assert(tx[j] == k);
        }
    }
    lemma_increasing_unique(tx, ty);
}

/// The full overlaps of a list of instances are determined: any two slot
/// lists that meet `full_overlaps` agree in every field of every slot.
pub proof fn lemma_full_overlaps_unique(insts: Seq<AvailabilityInstance>, s1: Seq<OverlapSlot>, s2: Seq<OverlapSlot>)
    requires
        full_overlaps(insts, s1),
        full_overlaps(insts, s2),
    ensures
        s1.len() == s2.len(),
        forall|k: int| 0 <= k < s1.len() ==> {
            &&& (#[trigger] s1[k]).start_utc == s2[k].start_utc
            &&& s1[k].end_utc == s2[k].end_utc
            &&& s1[k].display_index == s2[k].display_index
            &&& texts(s1[k].participant_user_ids@) == texts(s2[k].participant_user_ids@)
            &&& texts(s1[k].participant_usernames@) == texts(s2[k].participant_usernames@)
        },
{
    if exists|u: Seq<char>| is_participant(insts, u) {
        lemma_separated_slots_unique(s1, s2);
    } else {
        assert(s1.len() == 0 && s2.len() == 0);
    }
    assert forall|k: int| 0 <= k < s1.len() implies {
        &&& (#[trigger] s1[k]).start_utc == s2[k].start_utc
        &&& s1[k].end_utc == s2[k].end_utc
        &&& s1[k].display_index == s2[k].display_index
        &&& texts(s1[k].participant_user_ids@) == texts(s2[k].participant_user_ids@)
        &&& texts(s1[k].participant_usernames@) == texts(s2[k].participant_usernames@)
    } by {
        let i1 = s1[k].participant_user_ids@;
        let i2 = s2[k].participant_user_ids@;
        let n1 = s1[k].participant_usernames@;
        let n2 = s2[k].participant_usernames@;
        assert(s2[k].display_index == k + 1);
        lemma_participant_ids_unique(i1, i2, insts);
        assert(texts(n1) =~= texts(n2)) by {
            assert(n1.len() == i1.len() && n2.len() == i2.len());
            assert(texts(i1).len() == i1.len() && texts(i2).len() == i2.len());
            assert forall|q: int| 0 <= q < n1.len() implies texts(n1)[q] == texts(n2)[q] by {
                assert(texts(i1)[q] == texts(i2)[q]);
                assert(n1[q]@ == display_name(insts, i1[q]@));
                assert(n2[q]@ == display_name(insts, i2[q]@));
            }
        }
    }
}

/// Where an index of `insts` lands once `bad` is inserted at `pos`.
pub open spec fn shifted(pos: int, k: int) -> int {
    if k < pos { k } else { k + 1 }
}

proof fn lemma_participant_before_shift(insts: Seq<AvailabilityInstance>, pos: int, bad: AvailabilityInstance, u: Seq<char>, j: int)
    requires
        0 <= pos <= insts.len(),
        !is_usable(bad),
        0 <= j <= insts.len(),
    ensures
        participant_before(insts.insert(pos, bad), u, shifted(pos, j)) == participant_before(insts, u, j),
{
    let xs = insts.insert(pos, bad);
    assert forall|k: int| 0 <= k < insts.len() implies xs[shifted(pos, k)] == insts[k] by {}
    if participant_before(insts, u, j) {
        let k = choose|k: int| 0 <= k < j && k < insts.len() && is_usable(#[trigger] insts[k]) && insts[k].user_id@ == u;
        assert(xs[shifted(pos, k)] == insts[k]);
        assert(is_usable(xs[shifted(pos, k)]));
    }
    if participant_before(xs, u, shifted(pos, j)) {
        let k = choose|k: int| 0 <= k < shifted(pos, j) && k < xs.len() && is_usable(#[trigger] xs[k]) && xs[k].user_id@ == u;
        assert(k != pos);
        let ko = if k < pos { k } else { k - 1 };
        assert(xs[k] == insts[ko]);
        assert(is_usable(insts[ko]));
    }
}

/// An instance that does not end after it starts changes nothing in the full
/// overlaps: with such an instance inserted anywhere, `full_overlaps` holds
/// of exactly the same slot lists.
proof fn lemma_unusable_instance_ignored(
    insts: Seq<AvailabilityInstance>,
    pos: int,
    bad: AvailabilityInstance,
    slots: Seq<OverlapSlot>,
)
    requires
        0 <= pos <= insts.len(),
        bad.end_utc <= bad.start_utc,
    ensures
        full_overlaps(insts.insert(pos, bad), slots) == full_overlaps(insts, slots),
{
    let xs = insts.insert(pos, bad);
    assert forall|k: int| 0 <= k < insts.len() implies xs[shifted(pos, k)] == insts[k] by {}
    assert forall|u: Seq<char>| #[trigger] is_participant(xs, u) == is_participant(insts, u) by {
        lemma_participant_before_shift(insts, pos, bad, u, insts.len() as int);
    }
    assert forall|u: Seq<char>, t: int| #[trigger] available_at(xs, u, t) == available_at(insts, u, t) by {
        if available_at(insts, u, t) {
            let k = choose|k: int| 0 <= k < insts.len() && #[trigger] covers(insts[k], u, t);
            assert(covers(xs[shifted(pos, k)], u, t));
        }
        if available_at(xs, u, t) {
            let k = choose|k: int| 0 <= k < xs.len() && #[trigger] covers(xs[k], u, t);
            assert(k != pos);
            let ko = if k < pos { k } else { k - 1 };
            assert(xs[k] == insts[ko]);
            assert(covers(insts[ko], u, t));
        }
    }
    assert forall|t: int| #[trigger] everyone_available_at(xs, t) == everyone_available_at(insts, t) by {
        if everyone_available_at(insts, t) {
            assert forall|u: Seq<char>| #[trigger] is_participant(xs, u) implies available_at(xs, u, t) by {
                assert(is_participant(insts, u));
                assert(available_at(insts, u, t));
            }
        }
        if everyone_available_at(xs, t) {
            assert forall|u: Seq<char>| #[trigger] is_participant(insts, u) implies available_at(insts, u, t) by {
                assert(is_participant(xs, u));
                assert(available_at(xs, u, t));
            }
        }
    }
    assert forall|u: Seq<char>| is_participant(insts, u) implies display_name(xs, u) == display_name(insts, u) by {
        let m = choose|m: int| 0 <= m < insts.len() && is_usable(#[trigger] insts[m]) && insts[m].user_id@ == u && !participant_before(insts, u, m);
        assert(exists|m: int| is_first_instance(insts, u, m)) by {
            lemma_first_exists(insts, u, insts.len() as int);
        }
        let m1 = choose|m: int| is_first_instance(insts, u, m);
        lemma_participant_before_shift(insts, pos, bad, u, m1);
        assert(xs[shifted(pos, m1)] == insts[m1]);
        assert(is_first_instance(xs, u, shifted(pos, m1)));
        let m2 = choose|m: int| is_first_instance(xs, u, m);
        lemma_first_instance_unique(xs, u, m2, shifted(pos, m1));
    }
    assert forall|ids: Seq<String>| #[trigger] lists_participants(ids, xs) == lists_participants(ids, insts) by {
        assert forall|u: Seq<char>| #[trigger] holds_string(ids, u) <==> is_participant(xs, u) implies (holds_string(ids, u) <==> is_participant(insts, u)) by {
            assert(is_participant(xs, u) == is_participant(insts, u));
        }
        assert forall|u: Seq<char>| #[trigger] holds_string(ids, u) <==> is_participant(insts, u) implies (holds_string(ids, u) <==> is_participant(xs, u)) by {
            assert(is_participant(xs, u) == is_participant(insts, u));
        }
    }
    assert forall|names: Seq<String>, ids: Seq<String>|
        lists_participants(ids, insts) implies #[trigger] names_participants(names, ids, xs) == names_participants(names, ids, insts) by {
        assert forall|q: int| 0 <= q < ids.len() implies display_name(xs, ids[q]@) == display_name(insts, ids[q]@) by {
            assert(holds_string(ids, ids[q]@));
            assert(is_participant(insts, ids[q]@));
        }
    }
    assert((exists|u: Seq<char>| is_participant(xs, u)) == (exists|u: Seq<char>| is_participant(insts, u))) by {
        if exists|u: Seq<char>| is_participant(xs, u) {
            let u = choose|u: Seq<char>| is_participant(xs, u);
            assert(is_participant(insts, u));
        }
        if exists|u: Seq<char>| is_participant(insts, u) {
            let u = choose|u: Seq<char>| is_participant(insts, u);
            assert(is_participant(xs, u));
        }
    }
    assert forall|k: int| 0 <= k < slots.len() implies {
        &&& lists_participants((#[trigger] slots[k]).participant_user_ids@, xs) == lists_participants(slots[k].participant_user_ids@, insts)
        &&& lists_participants(slots[k].participant_user_ids@, insts) ==> names_participants(slots[k].participant_usernames@, slots[k].participant_user_ids@, xs)
            == names_participants(slots[k].participant_usernames@, slots[k].participant_user_ids@, insts)
    } by {
        let ids = slots[k].participant_user_ids@;
        assert(lists_participants(ids, xs) == lists_participants(ids, insts));
        if lists_participants(ids, insts) {
            assert(names_participants(slots[k].participant_usernames@, ids, xs) == names_participants(slots[k].participant_usernames@, ids, insts));
        }
    }
    if exists|u: Seq<char>| is_participant(insts, u) {
        assert forall|t: int| #[trigger] in_slots(slots, t) <==> everyone_available_at(xs, t) implies (in_slots(slots, t) <==> everyone_available_at(insts, t)) by {
            assert(everyone_available_at(xs, t) == everyone_available_at(insts, t));
        }
        assert forall|t: int| #[trigger] in_slots(slots, t) <==> everyone_available_at(insts, t) implies (in_slots(slots, t) <==> everyone_available_at(xs, t)) by {
            assert(everyone_available_at(xs, t) == everyone_available_at(insts, t));
        }
    }
}

/// A participant has a first usable instance.
proof fn lemma_first_exists(insts: Seq<AvailabilityInstance>, u: Seq<char>, j: int)
    requires
        0 <= j <= insts.len(),
        participant_before(insts, u, j),
    ensures
        exists|m: int| is_first_instance(insts, u, m),
    decreases j,
{
    if participant_before(insts, u, j - 1) {
        lemma_first_exists(insts, u, j - 1);
    } else {
        let k = choose|k: int| 0 <= k < j && k < insts.len() && is_usable(#[trigger] insts[k]) && insts[k].user_id@ == u;
        assert(k == j - 1);
        assert(is_first_instance(insts, u, j - 1));
    }
}

/// An empty or inverted interval changes nothing in `compute_full_overlaps`:
/// the full overlaps of `insts`, and those of `insts` with such an instance
/// inserted at any position, agree in every field of every slot.
pub proof fn lemma_unusable_instance_changes_nothing(
    insts: Seq<AvailabilityInstance>,
    pos: int,
    bad: AvailabilityInstance,
    without: Seq<OverlapSlot>,
    with: Seq<OverlapSlot>,
)
    requires
        0 <= pos <= insts.len(),
        bad.end_utc <= bad.start_utc,
        full_overlaps(insts, without),
        full_overlaps(insts.insert(pos, bad), with),
    ensures
        with.len() == without.len(),
        forall|k: int| 0 <= k < with.len() ==> {
            &&& (#[trigger] with[k]).start_utc == without[k].start_utc
            &&& with[k].end_utc == without[k].end_utc
            &&& with[k].display_index == without[k].display_index
            &&& texts(with[k].participant_user_ids@) == texts(without[k].participant_user_ids@)
            &&& texts(with[k].participant_usernames@) == texts(without[k].participant_usernames@)
        },
{
    lemma_unusable_instance_ignored(insts, pos, bad, with);
    lemma_full_overlaps_unique(insts, with, without);
}

} // verus!
