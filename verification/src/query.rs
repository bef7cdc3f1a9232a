//! Orderings and rearrangements used by name queries.
//!
//! A query returns each matched person's records in chronological order and
//! the matched people ordered by identity: name first, then graduation,
//! then country. The sorts here keep exactly the elements they are given.

use vstd::prelude::*;

verus! {

use crate::db::{Participant, ParticipantCampRecord, ParticipantContestRecord, ParticipantV, PidV,
    pv_seq};
use crate::text::{chars_lt, chars_of, lemma_seq_lt_total, lemma_seq_lt_trans, seq_lt};
use crate::types::{Graduation, graduation_lt, division_rank, month_rank};

/// Identity order: by name, then graduation, then country.
pub open spec fn id_lt(a: PidV, b: PidV) -> bool {
    seq_lt(a.name, b.name) || (a.name == b.name && (graduation_lt(a.graduation, b.graduation) || (
    a.graduation == b.graduation && seq_lt(a.country, b.country))))
}

/// The identity order is strict and total.
pub proof fn lemma_id_lt_total(a: PidV, b: PidV)
    ensures
        id_lt(a, b) ==> !id_lt(b, a),
        !id_lt(a, b) && !id_lt(b, a) ==> a == b,
{
    lemma_seq_lt_total(a.name, b.name);
    lemma_seq_lt_total(a.country, b.country);
    if !id_lt(a, b) && !id_lt(b, a) {
        assert(a.name == b.name);
        assert(a.graduation == b.graduation);
        assert(a.country == b.country);
        assert(a =~= b);
    }
}

/// The identity order is transitive.
pub proof fn lemma_id_lt_trans(a: PidV, b: PidV, c: PidV)
    requires
        id_lt(a, b),
        id_lt(b, c),
    ensures
        id_lt(a, c),
{
    if seq_lt(a.name, b.name) && seq_lt(b.name, c.name) {
        lemma_seq_lt_trans(a.name, b.name, c.name);
    } else if a.name == b.name && b.name == c.name && a.graduation == b.graduation && b.graduation
        == c.graduation {
        lemma_seq_lt_trans(a.country, b.country, c.country);
    }
}

/// Compares two identities.
pub fn id_lt_exec(a: &crate::db::ParticipantId, b: &crate::db::ParticipantId) -> (r: bool)
    ensures
        r == id_lt(a@, b@),
{
    let an = chars_of(a.name.as_str());
    let bn = chars_of(b.name.as_str());
    if chars_lt(&an, &bn) {
        return true;
    }
    if chars_lt(&bn, &an) {
        proof {
            lemma_seq_lt_total(a@.name, b@.name);
        }
        return false;
    }
    proof {
        lemma_seq_lt_total(a@.name, b@.name);
        assert(a@.name == b@.name);
    }
    let g_lt = match (a.graduation, b.graduation) {
        (Graduation::HighSchool { year: y1 }, Graduation::HighSchool { year: y2 }) => y1 < y2,
        (Graduation::HighSchool { .. }, Graduation::Observer) => true,
        (Graduation::Observer, _) => false,
    };
    if g_lt {
        return true;
    }
    let g_gt = match (b.graduation, a.graduation) {
        (Graduation::HighSchool { year: y1 }, Graduation::HighSchool { year: y2 }) => y1 < y2,
        (Graduation::HighSchool { .. }, Graduation::Observer) => true,
        (Graduation::Observer, _) => false,
    };
    if g_gt {
        return false;
    }
    proof {
        assert(a@.graduation == b@.graduation);
    }
    let ac = chars_of(a.country.as_str());
    let bc = chars_of(b.country.as_str());
    chars_lt(&ac, &bc)
}

/// Identities never decrease along the list.
pub open spec fn sorted_ids(s: Seq<ParticipantV>) -> bool {
    forall|a: int, b: int| 0 <= a < b < s.len() ==> !id_lt(#[trigger] s[b].id, #[trigger] s[a].id)
}

/// Moving one element elsewhere in the list keeps exactly its elements.
proof fn lemma_move_contains_p(s: Seq<ParticipantV>, i: int, p: int, x: ParticipantV)
    requires
        0 <= p <= i < s.len(),
    ensures
        s.remove(i).insert(p, s[i]).contains(x) <==> s.contains(x),
{
    let t = s.remove(i).insert(p, s[i]);
    if s.contains(x) {
        let m = choose|m: int| 0 <= m < s.len() && s[m] == x;
        if m == i {
            assert(t[p] == x);
        } else if m < p {
            assert(t[m] == x);
        } else if m < i {
            assert(t[m + 1] == x);
        } else {
            assert(t[m] == x);
        }
    }
    if t.contains(x) {
        let m = choose|m: int| 0 <= m < t.len() && t[m] == x;
        if m == p {
            assert(s[i] == x);
        } else if m < p {
            assert(s[m] == x);
        } else if m <= i {
            assert(s[m - 1] == x);
        } else {
            assert(s[m] == x);
        }
    }
}

/// Inserting the moved person where their identity fits keeps the prefix
/// sorted.
proof fn lemma_move_sorted_ids(s: Seq<ParticipantV>, i: int, p: int)
    requires
        0 <= p <= i < s.len(),
        sorted_ids(s.take(i)),
        forall|m: int| p <= m < i ==> id_lt(s[i].id, #[trigger] s[m].id),
        p > 0 ==> !id_lt(s[i].id, s[p - 1].id),
    ensures
        sorted_ids(s.remove(i).insert(p, s[i]).take(i + 1)),
        s.remove(i).insert(p, s[i]).len() == s.len(),
{
    let t = s.remove(i).insert(p, s[i]);
    let x = s[i];
    assert forall|m1: int, m2: int| 0 <= m1 < m2 < i implies !id_lt(
        #[trigger] s[m2].id,
        #[trigger] s[m1].id,
    ) by {
        assert(s.take(i)[m1] == s[m1]);
        assert(s.take(i)[m2] == s[m2]);
        assert(!id_lt(s.take(i)[m2].id, s.take(i)[m1].id));
    }
    assert forall|a: int, b: int| 0 <= a < b < t.take(i + 1).len() implies !id_lt(
        #[trigger] t.take(i + 1)[b].id,
        #[trigger] t.take(i + 1)[a].id,
    ) by {
        let ta = t.take(i + 1)[a];
        let tb = t.take(i + 1)[b];
        if a < p {
            assert(ta == s[a]);
        } else if a == p {
            assert(ta == x);
        } else {
            assert(ta == s[a - 1]);
        }
        if b < p {
            assert(tb == s[b]);
        } else if b == p {
            assert(tb == x);
        } else {
            assert(tb == s[b - 1]);
        }
        if b == p && a < p {
            if id_lt(x.id, s[a].id) {
                lemma_id_lt_total(s[p - 1].id, s[a].id);
                if id_lt(s[a].id, s[p - 1].id) {
                    lemma_id_lt_trans(x.id, s[a].id, s[p - 1].id);
                }
            }
        }
        if a == p && b > p {
            lemma_id_lt_total(x.id, s[b - 1].id);
        }
    }
}

/// Sorts people by identity, keeping exactly the given aggregates.
pub fn sort_participants(v: &mut Vec<Participant>)
    ensures
        final(v)@.len() == old(v)@.len(),
        sorted_ids(pv_seq(final(v)@)),
        forall|x: ParticipantV|
            pv_seq(final(v)@).contains(x) <==> pv_seq(old(v)@).contains(x),
{
    let ghost orig = pv_seq(v@);
    let n = v.len();
    if n == 0 {
        return ;
    }
    let mut i: usize = 1;
    while i < n
        invariant
            1 <= i <= n,
            n == v@.len(),
            sorted_ids(pv_seq(v@).take(i as int)),
            forall|x: ParticipantV| pv_seq(v@).contains(x) <==> orig.contains(x),
        decreases n - i,
    {
        let key_id = v[i].id.duplicate();
        let ghost sv = pv_seq(v@);
        proof {
            assert(sv[i as int] == v@[i as int]@);
            assert(key_id@ == sv[i as int].id);
        }
        let mut p: usize = i;
        while p > 0 && id_lt_exec(&key_id, &v[p - 1].id)
            invariant
                p <= i < n,
                n == v@.len(),
                sv == pv_seq(v@),
                key_id@ == sv[i as int].id,
                forall|m: int| p <= m < i ==> id_lt(sv[i as int].id, #[trigger] sv[m].id),
            decreases p,
        {
            proof {
                assert(sv[p - 1] == v@[p - 1]@);
            }
            p -= 1;
        }
        let x = v.remove(i);
        v.insert(p, x);
        proof {
            let moved = sv.remove(i as int).insert(p as int, sv[i as int]);
            assert(pv_seq(v@) =~= moved);
            lemma_move_sorted_ids(sv, i as int, p as int);
            assert(moved.take(i + 1 as int) =~= sv.remove(i as int).insert(
                p as int,
                sv[i as int],
            ).take(i + 1));
            assert forall|x2: ParticipantV| pv_seq(v@).contains(x2) <==> orig.contains(x2) by {
                lemma_move_contains_p(sv, i as int, p as int, x2);
            }
        }
        i += 1;
    }
    proof {
        assert(pv_seq(v@).take(n as int) =~= pv_seq(v@));
    }
}

/// A single number ordering contest records chronologically, then by
/// division.
pub open spec fn record_key(r: ParticipantContestRecord) -> int {
    (r.contest_time.year * 6 + month_rank(r.contest_time.month)) * 4 + division_rank(r.division)
}

/// Record keys never decrease along the list.
pub open spec fn sorted_records(s: Seq<ParticipantContestRecord>) -> bool {
    forall|a: int, b: int|
        0 <= a < b < s.len() ==> #[trigger] record_key(s[a]) <= #[trigger] record_key(s[b])
}

/// Camp years never decrease along the list.
pub open spec fn sorted_camp_records(s: Seq<ParticipantCampRecord>) -> bool {
    forall|a: int, b: int|
        0 <= a < b < s.len() ==> #[trigger] s[a].camp_year <= #[trigger] s[b].camp_year
}

/// Moving one record elsewhere in the list keeps exactly its elements.
proof fn lemma_move_contains_r(s: Seq<ParticipantContestRecord>, i: int, p: int, x: ParticipantContestRecord)
    requires
        0 <= p <= i < s.len(),
    ensures
        s.remove(i).insert(p, s[i]).contains(x) <==> s.contains(x),
{
    let t = s.remove(i).insert(p, s[i]);
    if s.contains(x) {
        let m = choose|m: int| 0 <= m < s.len() && s[m] == x;
        if m == i {
            assert(t[p] == x);
        } else if m < p {
            assert(t[m] == x);
        } else if m < i {
            assert(t[m + 1] == x);
        } else {
            assert(t[m] == x);
        }
    }
    if t.contains(x) {
        let m = choose|m: int| 0 <= m < t.len() && t[m] == x;
        if m == p {
            assert(s[i] == x);
        } else if m < p {
            assert(s[m] == x);
        } else if m <= i {
            assert(s[m - 1] == x);
        } else {
            assert(s[m] == x);
        }
    }
}

/// Inserting the moved record where its key fits keeps the prefix sorted.
proof fn lemma_move_sorted_r(s: Seq<ParticipantContestRecord>, i: int, p: int)
    requires
        0 <= p <= i < s.len(),
        sorted_records(s.take(i)),
        forall|m: int| p <= m < i ==> record_key(#[trigger] s[m]) > record_key(s[i]),
        p > 0 ==> record_key(s[p - 1]) <= record_key(s[i]),
    ensures
        sorted_records(s.remove(i).insert(p, s[i]).take(i + 1)),
        s.remove(i).insert(p, s[i]).len() == s.len(),
{
    let t = s.remove(i).insert(p, s[i]);
    assert forall|m1: int, m2: int| 0 <= m1 < m2 < i implies #[trigger] record_key(s[m1])
        <= #[trigger] record_key(s[m2]) by {
        assert(s.take(i)[m1] == s[m1]);
        assert(s.take(i)[m2] == s[m2]);
        assert(record_key(s.take(i)[m1]) <= record_key(s.take(i)[m2]));
    }
    assert forall|a: int, b: int|
        0 <= a < b < t.take(i + 1).len() implies #[trigger] record_key(t.take(i + 1)[a])
        <= #[trigger] record_key(t.take(i + 1)[b]) by {
        if a < p {
            assert(t.take(i + 1)[a] == s[a]);
        } else if a == p {
            assert(t.take(i + 1)[a] == s[i]);
        } else {
            assert(t.take(i + 1)[a] == s[a - 1]);
        }
        if b < p {
            assert(t.take(i + 1)[b] == s[b]);
        } else if b == p {
            assert(t.take(i + 1)[b] == s[i]);
        } else {
            assert(t.take(i + 1)[b] == s[b - 1]);
        }
    }
}

/// The record key as an executable value.
fn record_key_of(r: &ParticipantContestRecord) -> (k: u32)
    ensures
        k as int == record_key(*r),
{
    let m = crate::types::month_index(r.contest_time.month);
    let d = crate::types::division_index(r.division);
    (r.contest_time.year as u32 * 6 + m as u32) * 4 + d as u32
}

/// Sorts contest records chronologically, then by division, keeping exactly
/// the given records.
pub fn sort_contest_records(v: &mut Vec<ParticipantContestRecord>)
    ensures
        final(v)@.len() == old(v)@.len(),
        sorted_records(final(v)@),
        forall|x: ParticipantContestRecord| final(v)@.contains(x) <==> old(v)@.contains(x),
{
    let ghost orig = v@;
    let n = v.len();
    if n == 0 {
        return ;
    }
    let mut i: usize = 1;
    while i < n
        invariant
            1 <= i <= n,
            n == v@.len(),
            sorted_records(v@.take(i as int)),
            forall|x: ParticipantContestRecord| v@.contains(x) <==> orig.contains(x),
        decreases n - i,
    {
        let key = record_key_of(&v[i]);
        let ghost sv = v@;
        let mut p: usize = i;
        while p > 0 && record_key_of(&v[p - 1]) > key
            invariant
                p <= i < n,
                n == v@.len(),
                sv == v@,
                key as int == record_key(sv[i as int]),
                forall|m: int| p <= m < i ==> record_key(#[trigger] sv[m]) > key,
            decreases p,
        {
            p -= 1;
        }
        let x = v.remove(i);
        v.insert(p, x);
        proof {
            let moved = sv.remove(i as int).insert(p as int, sv[i as int]);
            assert(v@ =~= moved);
            lemma_move_sorted_r(sv, i as int, p as int);
            assert(moved.take(i + 1 as int) =~= sv.remove(i as int).insert(
                p as int,
                sv[i as int],
            ).take(i + 1));
            assert forall|x2: ParticipantContestRecord|
                v@.contains(x2) <==> orig.contains(x2) by {
                lemma_move_contains_r(sv, i as int, p as int, x2);
            }
        }
        i += 1;
    }
    proof {
        assert(v@.take(n as int) =~= v@);
    }
}

/// Moving one record elsewhere in the list keeps exactly its elements.
proof fn lemma_move_contains_c(s: Seq<ParticipantCampRecord>, i: int, p: int, x: ParticipantCampRecord)
    requires
        0 <= p <= i < s.len(),
    ensures
        s.remove(i).insert(p, s[i]).contains(x) <==> s.contains(x),
{
    let t = s.remove(i).insert(p, s[i]);
    if s.contains(x) {
        let m = choose|m: int| 0 <= m < s.len() && s[m] == x;
        if m == i {
            assert(t[p] == x);
        } else if m < p {
            assert(t[m] == x);
        } else if m < i {
            assert(t[m + 1] == x);
        } else {
            assert(t[m] == x);
        }
    }
    if t.contains(x) {
        let m = choose|m: int| 0 <= m < t.len() && t[m] == x;
        if m == p {
            assert(s[i] == x);
        } else if m < p {
            assert(s[m] == x);
        } else if m <= i {
            assert(s[m - 1] == x);
        } else {
            assert(s[m] == x);
        }
    }
}

/// Inserting the moved record where its year fits keeps the prefix sorted.
proof fn lemma_move_sorted_c(s: Seq<ParticipantCampRecord>, i: int, p: int)
    requires
        0 <= p <= i < s.len(),
        sorted_camp_records(s.take(i)),
        forall|m: int| p <= m < i ==> #[trigger] s[m].camp_year > s[i].camp_year,
        p > 0 ==> s[p - 1].camp_year <= s[i].camp_year,
    ensures
        sorted_camp_records(s.remove(i).insert(p, s[i]).take(i + 1)),
        s.remove(i).insert(p, s[i]).len() == s.len(),
{
    let t = s.remove(i).insert(p, s[i]);
    assert forall|m1: int, m2: int| 0 <= m1 < m2 < i implies #[trigger] s[m1].camp_year
        <= #[trigger] s[m2].camp_year by {
        assert(s.take(i)[m1] == s[m1]);
        assert(s.take(i)[m2] == s[m2]);
        assert(s.take(i)[m1].camp_year <= s.take(i)[m2].camp_year);
    }
    assert forall|a: int, b: int|
        0 <= a < b < t.take(i + 1).len() implies #[trigger] t.take(i + 1)[a].camp_year
        <= #[trigger] t.take(i + 1)[b].camp_year by {
        if a < p {
            assert(t.take(i + 1)[a] == s[a]);
        } else if a == p {
            assert(t.take(i + 1)[a] == s[i]);
        } else {
            assert(t.take(i + 1)[a] == s[a - 1]);
        }
        if b < p {
            assert(t.take(i + 1)[b] == s[b]);
        } else if b == p {
            assert(t.take(i + 1)[b] == s[i]);
        } else {
            assert(t.take(i + 1)[b] == s[b - 1]);
        }
    }
}

/// Sorts camp records by year, keeping exactly the given records.
pub fn sort_camp_records(v: &mut Vec<ParticipantCampRecord>)
    ensures
        final(v)@.len() == old(v)@.len(),
        sorted_camp_records(final(v)@),
        forall|x: ParticipantCampRecord| final(v)@.contains(x) <==> old(v)@.contains(x),
{
    let ghost orig = v@;
    let n = v.len();
    if n == 0 {
        return ;
    }
    let mut i: usize = 1;
    while i < n
        invariant
            1 <= i <= n,
            n == v@.len(),
            sorted_camp_records(v@.take(i as int)),
            forall|x: ParticipantCampRecord| v@.contains(x) <==> orig.contains(x),
        decreases n - i,
    {
        let key = v[i].camp_year;
        let ghost sv = v@;
        let mut p: usize = i;
        while p > 0 && v[p - 1].camp_year > key
            invariant
                p <= i < n,
                n == v@.len(),
                sv == v@,
                key == sv[i as int].camp_year,
                forall|m: int| p <= m < i ==> #[trigger] sv[m].camp_year > key,
            decreases p,
        {
            p -= 1;
        }
        let x = v.remove(i);
        v.insert(p, x);
        proof {
            let moved = sv.remove(i as int).insert(p as int, sv[i as int]);
            assert(v@ =~= moved);
            lemma_move_sorted_c(sv, i as int, p as int);
            assert(moved.take(i + 1 as int) =~= sv.remove(i as int).insert(
                p as int,
                sv[i as int],
            ).take(i + 1));
            assert forall|x2: ParticipantCampRecord| v@.contains(x2) <==> orig.contains(x2) by {
                lemma_move_contains_c(sv, i as int, p as int, x2);
            }
        }
        i += 1;
    }
    proof {
        assert(v@.take(n as int) =~= v@);
    }
}

} // verus!
