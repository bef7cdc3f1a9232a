//! Identity consolidation.
//!
//! Contest and camp records are grouped into per-person aggregates under a
//! best-effort identity: name, graduation and country. The key is heuristic,
//! not authoritative — two people sharing all three would merge. Camp rows
//! carry no country, so their identity synthesizes the home country; the
//! stored history names lose any leading parenthesized preferred name.
//! Aggregates appear in order of their identity's first occurrence.

use vstd::prelude::*;

verus! {

use crate::records::{CampParticipant, CampParticipantV, CampV, ContestParticipant,
    ContestParticipantV, ContestV, IntlHistory, IntlParticipant, IntlParticipantV, UsacoData,
    UsacoDataV};
use crate::types::{Division, Graduation, MonthYear};
use vstd::std_specs::cmp::PartialEqSpec;
use vstd::string::StringExecFns;

/// Best-effort identity of one person across sources.
#[derive(Debug, Clone, Eq, Hash)]
pub struct ParticipantId {
    pub name: String,
    pub graduation: Graduation,
    pub country: String,
}

/// View of a [`ParticipantId`].
#[verifier::ext_equal]
pub ghost struct PidV {
    pub name: Seq<char>,
    pub graduation: Graduation,
    pub country: Seq<char>,
}

impl View for ParticipantId {
    type V = PidV;

    open spec fn view(&self) -> PidV {
        PidV { name: self.name@, graduation: self.graduation, country: self.country@ }
    }
}

impl PartialEq for ParticipantId {
    /// Equality over all three components.
    fn eq(&self, other: &ParticipantId) -> (r: bool) {
        self.name == other.name && self.graduation == other.graduation && self.country
            == other.country
    }
}

impl vstd::std_specs::cmp::PartialEqSpecImpl for ParticipantId {
    open spec fn obeys_eq_spec() -> bool {
        true
    }

    open spec fn eq_spec(&self, other: &ParticipantId) -> bool {
        self@ == other@
    }
}

impl ParticipantId {
    /// A copy equal to this identity.
    pub fn duplicate(&self) -> (r: ParticipantId)
        ensures
            r == *self,
    {
        ParticipantId {
            name: self.name.clone(),
            graduation: self.graduation,
            country: self.country.clone(),
        }
    }
}

/// The identity a contest row contributes: its own name, graduation and
/// country.
pub open spec fn contest_pid(p: ContestParticipantV) -> PidV {
    PidV { name: p.name, graduation: p.graduation, country: p.country }
}

/// The identity a camp row contributes: camp pages list no country, so the
/// home country is synthesized, and the graduation year becomes a class
/// year.
pub open spec fn camp_pid(p: CampParticipantV) -> PidV {
    PidV {
        name: p.name,
        graduation: Graduation::HighSchool { year: p.graduation_year },
        country: "USA"@,
    }
}

impl From<ContestParticipant> for ParticipantId {
    fn from(value: ContestParticipant) -> (r: ParticipantId) {
        ParticipantId {
            name: value.name,
            graduation: value.graduation,
            country: value.country,
        }
    }
}

impl vstd::std_specs::convert::FromSpecImpl<ContestParticipant> for ParticipantId {
    open spec fn obeys_from_spec() -> bool {
        true
    }

    open spec fn from_spec(value: ContestParticipant) -> ParticipantId {
        ParticipantId {
            name: value.name,
            graduation: value.graduation,
            country: value.country,
        }
    }
}

impl From<CampParticipant> for ParticipantId {
    fn from(value: CampParticipant) -> (r: ParticipantId) {
        ParticipantId {
            name: value.name,
            graduation: Graduation::HighSchool { year: value.graduation_year },
            country: String::from_str("USA"),
        }
    }
}

impl vstd::std_specs::convert::FromSpecImpl<CampParticipant> for ParticipantId {
    /// The synthesized country is a fresh string, which no canonical value
    /// can stand for; [`ParticipantId::of_camp`] carries the contract.
    open spec fn obeys_from_spec() -> bool {
        false
    }

    open spec fn from_spec(value: CampParticipant) -> ParticipantId {
        vstd::pervasive::arbitrary()
    }
}

impl ParticipantId {
    /// The identity of a contest row.
    pub fn of_contest(p: &ContestParticipant) -> (r: ParticipantId)
        ensures
            r@ == contest_pid(p@),
    {
        ParticipantId {
            name: p.name.clone(),
            graduation: p.graduation,
            country: p.country.clone(),
        }
    }

    /// The identity of a camp row.
    pub fn of_camp(p: &CampParticipant) -> (r: ParticipantId)
        ensures
            r@ == camp_pid(p@),
    {
        ParticipantId {
            name: p.name.clone(),
            graduation: Graduation::HighSchool { year: p.graduation_year },
            country: String::from_str("USA"),
        }
    }
}

/// One contest appearance of one person.
#[derive(Debug, Copy, Clone, Eq, PartialEq, Structural, Hash)]
pub struct ParticipantContestRecord {
    pub contest_time: MonthYear,
    pub division: Division,
    pub score: u16,
}

/// One camp invitation of one person.
#[derive(Debug, Copy, Clone, Eq, PartialEq, Structural, Hash)]
pub struct ParticipantCampRecord {
    pub camp_year: u16,
}

/// One person's aggregated records.
#[derive(Debug, Clone)]
pub struct Participant {
    pub id: ParticipantId,
    pub contests: Vec<ParticipantContestRecord>,
    pub camps: Vec<ParticipantCampRecord>,
}

/// View of a [`Participant`].
#[verifier::ext_equal]
pub ghost struct ParticipantV {
    pub id: PidV,
    pub contests: Seq<ParticipantContestRecord>,
    pub camps: Seq<ParticipantCampRecord>,
}

impl View for Participant {
    type V = ParticipantV;

    open spec fn view(&self) -> ParticipantV {
        ParticipantV { id: self.id@, contests: self.contests@, camps: self.camps@ }
    }
}

/// Views of a participant list.
pub open spec fn pv_seq(s: Seq<Participant>) -> Seq<ParticipantV> {
    s.map_values(|p: Participant| p@)
}

/// The consolidated dataset: per-person aggregates and the olympiad
/// histories.
#[derive(Debug, Clone)]
pub struct UsacoDb {
    pub participants: Vec<Participant>,
    intl_history: IntlHistory,
}

/// View of a [`UsacoDb`].
#[verifier::ext_equal]
pub ghost struct UsacoDbV {
    pub participants: Seq<ParticipantV>,
    pub intl_history: crate::records::IntlHistoryV,
}

impl View for UsacoDb {
    type V = UsacoDbV;

    closed spec fn view(&self) -> UsacoDbV {
        UsacoDbV { participants: pv_seq(self.participants@), intl_history: self.intl_history@ }
    }
}

impl Default for UsacoDb {
    /// An empty dataset.
    fn default() -> (r: UsacoDb)
        ensures
            r@.participants == Seq::<ParticipantV>::empty(),
            r@.intl_history.ioi == Seq::<IntlParticipantV>::empty(),
            r@.intl_history.egoi == Seq::<IntlParticipantV>::empty(),
    {
        let r = UsacoDb {
            participants: Vec::new(),
            intl_history: IntlHistory { ioi: Vec::new(), egoi: Vec::new() },
        };
        proof {
            assert(r@.participants =~= Seq::<ParticipantV>::empty());
            assert(r@.intl_history.ioi =~= Seq::<IntlParticipantV>::empty());
            assert(r@.intl_history.egoi =~= Seq::<IntlParticipantV>::empty());
        }
        r
    }
}

/// Index of the first aggregate with this identity, or a negative value.
pub open spec fn find_pid(ps: Seq<ParticipantV>, id: PidV) -> int
    decreases ps.len(),
{
    if ps.len() == 0 {
        -1
    } else if ps[0].id == id {
        0
    } else {
        let r = find_pid(ps.skip(1), id);
        if r < 0 {
            -1
        } else {
            r + 1
        }
    }
}

/// The first match is found.
proof fn lemma_find_pid_at(ps: Seq<ParticipantV>, id: PidV, j: int)
    requires
        0 <= j < ps.len(),
        ps[j].id == id,
        forall|m: int| 0 <= m < j ==> #[trigger] ps[m].id != id,
    ensures
        find_pid(ps, id) == j,
    decreases j,
{
    if j > 0 {
        assert forall|m: int| 0 <= m < j - 1 implies #[trigger] ps.skip(1)[m].id != id by {
            assert(ps.skip(1)[m] == ps[m + 1]);
        }
        assert(ps.skip(1)[j - 1] == ps[j]);
        lemma_find_pid_at(ps.skip(1), id, j - 1);
    }
}

/// No match is found.
proof fn lemma_find_pid_none(ps: Seq<ParticipantV>, id: PidV)
    requires
        forall|m: int| 0 <= m < ps.len() ==> #[trigger] ps[m].id != id,
    ensures
        find_pid(ps, id) == -1,
    decreases ps.len(),
{
    if ps.len() > 0 {
        assert forall|m: int| 0 <= m < ps.skip(1).len() implies #[trigger] ps.skip(1)[m].id
            != id by {
            assert(ps.skip(1)[m] == ps[m + 1]);
        }
        lemma_find_pid_none(ps.skip(1), id);
    }
}

/// A found index is in range, carries the identity, and nothing earlier
/// does; a negative result means the identity is absent.
proof fn lemma_find_pid_props(ps: Seq<ParticipantV>, id: PidV)
    ensures
        find_pid(ps, id) >= 0 ==> 0 <= find_pid(ps, id) < ps.len() && ps[find_pid(ps, id)].id
            == id,
        find_pid(ps, id) < 0 ==> forall|m: int| 0 <= m < ps.len() ==> #[trigger] ps[m].id != id,
    decreases ps.len(),
{
    if ps.len() > 0 && ps[0].id != id {
        lemma_find_pid_props(ps.skip(1), id);
        let r = find_pid(ps.skip(1), id);
        if r >= 0 {
            assert(ps.skip(1)[r] == ps[r + 1]);
        } else {
            assert forall|m: int| 0 <= m < ps.len() implies #[trigger] ps[m].id != id by {
                if m > 0 {
                    assert(ps.skip(1)[m - 1] == ps[m]);
                }
            }
        }
    }
}

/// The aggregates after one contest row lands: the row's record joins its
/// identity's aggregate, or opens a new aggregate at the end.
pub open spec fn upsert_contest(ps: Seq<ParticipantV>, id: PidV, rec: ParticipantContestRecord) -> Seq<ParticipantV> {
    let j = find_pid(ps, id);
    if j < 0 {
        ps.push(ParticipantV { id, contests: seq![rec], camps: Seq::empty() })
    } else {
        ps.update(
            j,
            ParticipantV { id: ps[j].id, contests: ps[j].contests.push(rec), camps: ps[j].camps },
        )
    }
}

/// The aggregates after one camp row lands.
pub open spec fn upsert_camp(ps: Seq<ParticipantV>, id: PidV, rec: ParticipantCampRecord) -> Seq<ParticipantV> {
    let j = find_pid(ps, id);
    if j < 0 {
        ps.push(ParticipantV { id, contests: Seq::empty(), camps: seq![rec] })
    } else {
        ps.update(
            j,
            ParticipantV { id: ps[j].id, contests: ps[j].contests, camps: ps[j].camps.push(rec) },
        )
    }
}

/// The record a contest row contributes.
pub open spec fn contest_rec(time: MonthYear, division: Division, p: ContestParticipantV) -> ParticipantContestRecord {
    ParticipantContestRecord { contest_time: time, division, score: p.score }
}

/// The aggregates after the first `n` rows of one contest land.
pub open spec fn after_contest_rows(
    ps: Seq<ParticipantV>,
    time: MonthYear,
    division: Division,
    rows: Seq<ContestParticipantV>,
    n: int,
) -> Seq<ParticipantV>
    decreases n,
{
    if n <= 0 {
        ps
    } else {
        upsert_contest(
            after_contest_rows(ps, time, division, rows, n - 1),
            contest_pid(rows[n - 1]),
            contest_rec(time, division, rows[n - 1]),
        )
    }
}

/// The aggregates after the first `n` contests land.
pub open spec fn after_contests(ps: Seq<ParticipantV>, cs: Seq<ContestV>, n: int) -> Seq<
    ParticipantV,
>
    decreases n,
{
    if n <= 0 {
        ps
    } else {
        let c = cs[n - 1];
        after_contest_rows(
            after_contests(ps, cs, n - 1),
            c.time,
            c.division,
            c.participants,
            c.participants.len() as int,
        )
    }
}

/// The aggregates after the first `n` rows of one camp land.
pub open spec fn after_camp_rows(
    ps: Seq<ParticipantV>,
    year: u16,
    rows: Seq<CampParticipantV>,
    n: int,
) -> Seq<ParticipantV>
    decreases n,
{
    if n <= 0 {
        ps
    } else {
        upsert_camp(
            after_camp_rows(ps, year, rows, n - 1),
            camp_pid(rows[n - 1]),
            ParticipantCampRecord { camp_year: year },
        )
    }
}

/// The aggregates after the first `n` camps land.
pub open spec fn after_camps(ps: Seq<ParticipantV>, cs: Seq<CampV>, n: int) -> Seq<ParticipantV>
    decreases n,
{
    if n <= 0 {
        ps
    } else {
        let c = cs[n - 1];
        after_camp_rows(after_camps(ps, cs, n - 1), c.year, c.participants, c.participants.len() as int)
    }
}

/// No newline among the characters at `a` up to `b`.
pub open spec fn no_nl(s: Seq<char>, a: int, b: int) -> bool
    decreases b - a,
{
    b <= a || (s[a] != '\n' && no_nl(s, a + 1, b))
}

/// The end of the longest preferred-name match starting at `i`: the largest
/// `j` below `hi` with `s[j]` a closing parenthesis followed by a space, at
/// least one newline-free character after the opening parenthesis.
pub open spec fn match_end_upto(s: Seq<char>, i: int, hi: int) -> Option<int>
    decreases hi - i,
{
    if hi <= i + 2 {
        None
    } else {
        let j = hi - 1;
        if s[j] == ')' && j + 1 < s.len() && s[j + 1] == ' ' && no_nl(s, i + 1, j) {
            Some(j)
        } else {
            match_end_upto(s, i, hi - 1)
        }
    }
}

/// The start of the leftmost preferred-name match at or after `from`.
pub open spec fn match_start(s: Seq<char>, from: int) -> Option<int>
    decreases s.len() - from,
{
    if from >= s.len() || from < 0 {
        None
    } else if s[from] == '(' && match_end_upto(s, from, s.len() as int) is Some {
        Some(from)
    } else {
        match_start(s, from + 1)
    }
}

/// A name with its leading parenthesized preferred name removed: the
/// leftmost, longest newline-free span from an opening parenthesis to a
/// closing parenthesis followed by a space is cut out; a name without one is
/// kept whole.
pub open spec fn strip_pref(s: Seq<char>) -> Seq<char> {
    match match_start(s, 0) {
        None => s,
        Some(i) => {
            let j = match_end_upto(s, i, s.len() as int)->Some_0;
            s.take(i) + s.skip(j + 2)
        },
    }
}

/// Every name in the list with its preferred name removed.
pub open spec fn strip_names(l: Seq<IntlParticipantV>) -> Seq<IntlParticipantV> {
    l.map_values(
        |p: IntlParticipantV| IntlParticipantV { year: p.year, result: p.result, name: strip_pref(p.name) },
    )
}

/// What consolidation yields: every contest's rows grouped in order, then
/// every camp's rows, and the histories with preferred names removed.
pub open spec fn spec_consolidate(d: UsacoDataV) -> UsacoDbV {
    UsacoDbV {
        participants: after_camps(
            after_contests(Seq::empty(), d.contests, d.contests.len() as int),
            d.camps,
            d.camps.len() as int,
        ),
        intl_history: crate::records::IntlHistoryV {
            ioi: strip_names(d.intl_history.ioi),
            egoi: strip_names(d.intl_history.egoi),
        },
    }
}

/// Whether a newline occurs among the characters at `a` up to `b`.
fn no_nl_exec(v: &Vec<char>, a: usize, b: usize) -> (r: bool)
    requires
        a <= b <= v@.len(),
    ensures
        r == no_nl(v@, a as int, b as int),
{
    let mut k = a;
    while k < b
        invariant
            a <= k <= b <= v@.len(),
            no_nl(v@, a as int, b as int) == no_nl(v@, k as int, b as int),
        decreases b - k,
    {
        if v[k] == '\n' {
            return false;
        }
        k += 1;
    }
    true
}

/// Finds the end of the longest match starting at `i`.
fn match_end_at(v: &Vec<char>, i: usize) -> (r: Option<usize>)
    requires
        i < v@.len(),
    ensures
        match r {
            Some(j) => i + 2 <= j && j + 1 < v@.len() && match_end_upto(v@, i as int, v@.len() as int)
                == Some(j as int),
            None => match_end_upto(v@, i as int, v@.len() as int) is None,
        },
{
    let n = v.len();
    let mut hi = n;
    while hi >= 3 && hi - 3 >= i
        invariant
            hi <= n,
            n == v@.len(),
            i < n,
            match_end_upto(v@, i as int, n as int) == match_end_upto(v@, i as int, hi as int),
        decreases hi,
    {
        proof {
            assert(hi > i + 2);
        }
        let j = hi - 1;
        if v[j] == ')' && j + 1 < n && v[j + 1] == ' ' && no_nl_exec(v, i + 1, j) {
            return Some(j);
        }
        hi -= 1;
    }
    None
}

/// Removes the leading parenthesized preferred name, if any.
pub fn strip_preferred(name: &str) -> (r: String)
    ensures
        r@ == strip_pref(name@),
{
    let v = crate::text::chars_of(name);
    let n = v.len();
    let mut i: usize = 0;
    while i < n
        invariant
            i <= n,
            n == v@.len(),
            v@ == name@,
            match_start(v@, 0) == match_start(v@, i as int),
        decreases n - i,
    {
        if v[i] == '(' {
            match match_end_at(&v, i) {
                Some(j) => {
                    let mut out: Vec<char> = Vec::new();
                    let mut q: usize = 0;
                    while q < i
                        invariant
                            q <= i <= n,
                            n == v@.len(),
                            out@ == v@.subrange(0, q as int),
                        decreases i - q,
                    {
                        proof {
                            assert(v@.subrange(0, q + 1 as int) =~= v@.subrange(0, q as int).push(
                                v@[q as int],
                            ));
                        }
                        out.push(v[q]);
                        q += 1;
                    }
                    let mut q2: usize = j + 2;
                    while q2 < n
                        invariant
                            j + 2 <= q2 <= n,
                            n == v@.len(),
                            out@ == v@.subrange(0, i as int) + v@.subrange(j + 2, q2 as int),
                        decreases n - q2,
                    {
                        proof {
                            assert(v@.subrange(j + 2, q2 + 1 as int) =~= v@.subrange(
                                j + 2,
                                q2 as int,
                            ).push(v@[q2 as int]));
                            assert(v@.subrange(0, i as int) + v@.subrange(j + 2, q2 + 1 as int)
                                =~= (v@.subrange(0, i as int) + v@.subrange(j + 2, q2 as int)).push(
                                v@[q2 as int],
                            ));
                        }
                        out.push(v[q2]);
                        q2 += 1;
                    }
                    proof {
                        assert(v@.take(i as int) =~= v@.subrange(0, i as int));
                        assert(v@.skip(j + 2) =~= v@.subrange(j + 2, n as int));
                        assert(strip_pref(name@) == v@.take(i as int) + v@.skip(j + 2));
                    }
                    return crate::text::string_of_chars(&out);
                },
                None => {},
            }
        }
        i += 1;
    }
    proof {
        assert(match_start(v@, n as int) is None);
        assert(strip_pref(name@) == name@);
    }
    let mut out = String::new();
    out.append(name);
    out
}

/// Lands one contest record: into its identity's aggregate, or a new one.
fn upsert_contest_exec(ps: &mut Vec<Participant>, id: ParticipantId, rec: ParticipantContestRecord)
    ensures
        pv_seq(final(ps)@) == upsert_contest(pv_seq(old(ps)@), id@, rec),
{
    let n = ps.len();
    let mut j: usize = 0;
    while j < n
        invariant
            j <= n,
            n == ps@.len(),
            ps@ == old(ps)@,
            forall|m: int| 0 <= m < j ==> #[trigger] pv_seq(ps@)[m].id != id@,
        decreases n - j,
    {
        let same = ps[j].id.eq(&id);
        if same {
            proof {
                assert(pv_seq(ps@)[j as int].id == id@);
                lemma_find_pid_at(pv_seq(ps@), id@, j as int);
            }
            let mut p = ps.remove(j);
            p.contests.push(rec);
            ps.insert(j, p);
            proof {
                assert(pv_seq(ps@) =~= upsert_contest(pv_seq(old(ps)@), id@, rec));
            }
            return ;
        }
        j += 1;
    }
    proof {
        lemma_find_pid_none(pv_seq(ps@), id@);
    }
    let fresh = Participant { id, contests: vec![rec], camps: Vec::new() };
    let ghost fv = fresh@;
    ps.push(fresh);
    proof {
        assert(fv.contests =~= seq![rec]);
        assert(fv.camps =~= Seq::<ParticipantCampRecord>::empty());
        assert(pv_seq(ps@) =~= upsert_contest(pv_seq(old(ps)@), id@, rec));
    }
}

/// Lands one camp record: into its identity's aggregate, or a new one.
fn upsert_camp_exec(ps: &mut Vec<Participant>, id: ParticipantId, rec: ParticipantCampRecord)
    ensures
        pv_seq(final(ps)@) == upsert_camp(pv_seq(old(ps)@), id@, rec),
{
    let n = ps.len();
    let mut j: usize = 0;
    while j < n
        invariant
            j <= n,
            n == ps@.len(),
            ps@ == old(ps)@,
            forall|m: int| 0 <= m < j ==> #[trigger] pv_seq(ps@)[m].id != id@,
        decreases n - j,
    {
        let same = ps[j].id.eq(&id);
        if same {
            proof {
                assert(pv_seq(ps@)[j as int].id == id@);
                lemma_find_pid_at(pv_seq(ps@), id@, j as int);
            }
            let mut p = ps.remove(j);
            p.camps.push(rec);
            ps.insert(j, p);
            proof {
                assert(pv_seq(ps@) =~= upsert_camp(pv_seq(old(ps)@), id@, rec));
            }
            return ;
        }
        j += 1;
    }
    proof {
        lemma_find_pid_none(pv_seq(ps@), id@);
    }
    let fresh = Participant { id, contests: Vec::new(), camps: vec![rec] };
    let ghost fv = fresh@;
    ps.push(fresh);
    proof {
        assert(fv.camps =~= seq![rec]);
        assert(fv.contests =~= Seq::<ParticipantContestRecord>::empty());
        assert(pv_seq(ps@) =~= upsert_camp(pv_seq(old(ps)@), id@, rec));
    }
}

/// Strips preferred names from a medal list.
fn strip_list(v: Vec<IntlParticipant>) -> (r: Vec<IntlParticipant>)
    ensures
        crate::history::ipv_seq(r@) == strip_names(crate::history::ipv_seq(v@)),
{
    let ghost sv = crate::history::ipv_seq(v@);
    let mut out: Vec<IntlParticipant> = Vec::new();
    let n = v.len();
    let mut i: usize = 0;
    proof {
        assert(crate::history::ipv_seq(out@) =~= strip_names(sv.take(0)));
    }
    while i < n
        invariant
            i <= n,
            n == v@.len(),
            sv == crate::history::ipv_seq(v@),
            crate::history::ipv_seq(out@) == strip_names(sv.take(i as int)),
        decreases n - i,
    {
        let p = &v[i];
        let q = IntlParticipant {
            year: p.year,
            result: p.result,
            name: strip_preferred(p.name.as_str()),
        };
        let ghost qv = q@;
        let ghost prev = crate::history::ipv_seq(out@);
        out.push(q);
        proof {
            assert(sv[i as int] == v@[i as int]@);
            assert(crate::history::ipv_seq(out@) =~= prev.push(qv));
            assert(strip_names(sv.take(i + 1 as int)) =~= strip_names(sv.take(i as int)).push(
                qv,
            ));
        }
        i += 1;
    }
    proof {
        assert(sv.take(n as int) =~= sv);
    }
    out
}

impl UsacoDb {
    /// Groups every contest record, then every camp record, into per-person
    /// aggregates in order of their identity's first occurrence, and strips
    /// preferred names from the histories.
    pub fn from_data(data: UsacoData) -> (r: UsacoDb)
        ensures
            r@ == spec_consolidate(data@),
    {
        let ghost dv = data@;
        let mut participants: Vec<Participant> = Vec::new();
        let nc = data.contests.len();
        let mut ci: usize = 0;
        while ci < nc
            invariant
                ci <= nc,
                nc == data.contests@.len(),
                dv == data@,
                pv_seq(participants@) == after_contests(
                    Seq::<ParticipantV>::empty(),
                    dv.contests,
                    ci as int,
                ),
            decreases nc - ci,
        {
            let c = &data.contests[ci];
            proof {
                assert(dv.contests[ci as int] == data.contests@[ci as int]@);
            }
            let ghost base = pv_seq(participants@);
            let np = c.participants.len();
            let mut pi: usize = 0;
            while pi < np
                invariant
                    pi <= np,
                    np == c.participants@.len(),
                    c == &data.contests[ci as int],
                    ci < data.contests@.len(),
                    dv == data@,
                    dv.contests[ci as int] == c@,
                    pv_seq(participants@) == after_contest_rows(
                        base,
                        c@.time,
                        c@.division,
                        c@.participants,
                        pi as int,
                    ),
                decreases np - pi,
            {
                let p = &c.participants[pi];
                proof {
                    assert(c@.participants[pi as int] == c.participants@[pi as int]@);
                }
                let id = ParticipantId::of_contest(p);
                let rec = ParticipantContestRecord {
                    contest_time: c.time,
                    division: c.division,
                    score: p.score,
                };
                upsert_contest_exec(&mut participants, id, rec);
                pi += 1;
            }
            proof {
                assert(after_contests(Seq::<ParticipantV>::empty(), dv.contests, ci + 1 as int)
                    == after_contest_rows(
                    base,
                    dv.contests[ci as int].time,
                    dv.contests[ci as int].division,
                    dv.contests[ci as int].participants,
                    dv.contests[ci as int].participants.len() as int,
                ));
            }
            ci += 1;
        }
        let ghost after_c = pv_seq(participants@);
        let ncp = data.camps.len();
        let mut ki: usize = 0;
        while ki < ncp
            invariant
                ki <= ncp,
                ncp == data.camps@.len(),
                dv == data@,
                pv_seq(participants@) == after_camps(after_c, dv.camps, ki as int),
            decreases ncp - ki,
        {
            let c = &data.camps[ki];
            proof {
                assert(dv.camps[ki as int] == data.camps@[ki as int]@);
            }
            let ghost base = pv_seq(participants@);
            let np = c.participants.len();
            let mut pi: usize = 0;
            while pi < np
                invariant
                    pi <= np,
                    np == c.participants@.len(),
                    c == &data.camps[ki as int],
                    ki < data.camps@.len(),
                    dv == data@,
                    dv.camps[ki as int] == c@,
                    pv_seq(participants@) == after_camp_rows(
                        base,
                        c@.year,
                        c@.participants,
                        pi as int,
                    ),
                decreases np - pi,
            {
                let p = &c.participants[pi];
                proof {
                    assert(c@.participants[pi as int] == c.participants@[pi as int]@);
                }
                let id = ParticipantId::of_camp(p);
                let rec = ParticipantCampRecord { camp_year: c.year };
                upsert_camp_exec(&mut participants, id, rec);
                pi += 1;
            }
            proof {
                assert(after_camps(after_c, dv.camps, ki + 1 as int) == after_camp_rows(
                    base,
                    dv.camps[ki as int].year,
                    dv.camps[ki as int].participants,
                    dv.camps[ki as int].participants.len() as int,
                ));
            }
            ki += 1;
        }
        let ioi = strip_list(data.intl_history.ioi);
        let egoi = strip_list(data.intl_history.egoi);
        let r = UsacoDb { participants, intl_history: IntlHistory { ioi, egoi } };
        proof {
            assert(r@ =~= spec_consolidate(dv));
        }
        r
    }
}

impl From<UsacoData> for UsacoDb {
    fn from(value: UsacoData) -> (r: UsacoDb) {
        UsacoDb::from_data(value)
    }
}

impl vstd::std_specs::convert::FromSpecImpl<UsacoData> for UsacoDb {
    /// Consolidation builds fresh strings, which no canonical value can
    /// stand for; [`UsacoDb::from_data`] carries the contract.
    open spec fn obeys_from_spec() -> bool {
        false
    }

    open spec fn from_spec(value: UsacoData) -> UsacoDb {
        vstd::pervasive::arbitrary()
    }
}

/// Sum of the aggregates' contest-record counts.
pub open spec fn total_contest_records(ps: Seq<ParticipantV>) -> int
    decreases ps.len(),
{
    if ps.len() == 0 {
        0
    } else {
        total_contest_records(ps.drop_last()) + ps.last().contests.len()
    }
}

/// Sum of the aggregates' camp-record counts.
pub open spec fn total_camp_records(ps: Seq<ParticipantV>) -> int
    decreases ps.len(),
{
    if ps.len() == 0 {
        0
    } else {
        total_camp_records(ps.drop_last()) + ps.last().camps.len()
    }
}

/// A prefix never holds more contest records than the whole.
proof fn lemma_total_contest_prefix(ps: Seq<ParticipantV>, k: int)
    requires
        0 <= k <= ps.len(),
    ensures
        total_contest_records(ps.take(k)) <= total_contest_records(ps),
        total_contest_records(ps) >= 0,
    decreases ps.len(),
{
    if ps.len() > 0 {
        lemma_total_contest_prefix(ps.drop_last(), if k == ps.len() {
            ps.len() - 1
        } else {
            k
        });
        if k == ps.len() {
            assert(ps.take(k) =~= ps);
        } else {
            assert(ps.drop_last().take(k) =~= ps.take(k));
        }
    } else {
        assert(ps.take(k) =~= ps);
    }
}

/// A prefix never holds more camp records than the whole.
proof fn lemma_total_camp_prefix(ps: Seq<ParticipantV>, k: int)
    requires
        0 <= k <= ps.len(),
    ensures
        total_camp_records(ps.take(k)) <= total_camp_records(ps),
        total_camp_records(ps) >= 0,
    decreases ps.len(),
{
    if ps.len() > 0 {
        lemma_total_camp_prefix(ps.drop_last(), if k == ps.len() {
            ps.len() - 1
        } else {
            k
        });
        if k == ps.len() {
            assert(ps.take(k) =~= ps);
        } else {
            assert(ps.drop_last().take(k) =~= ps.take(k));
        }
    } else {
        assert(ps.take(k) =~= ps);
    }
}

/// The names on a medal list.
pub open spec fn names_of(l: Seq<IntlParticipantV>) -> Seq<Seq<char>> {
    l.map_values(|p: IntlParticipantV| p.name)
}

/// Number of distinct names on a medal list.
fn distinct_name_count(v: &Vec<IntlParticipant>) -> (r: usize)
    ensures
        r as int == names_of(crate::history::ipv_seq(v@)).to_set().len(),
{
    let ghost ns = names_of(crate::history::ipv_seq(v@));
    let mut seen: Vec<String> = Vec::new();
    let n = v.len();
    let mut i: usize = 0;
    proof {
        assert(crate::contest::strs_view(seen@) =~= Seq::<Seq<char>>::empty());
        assert(ns.take(0) =~= Seq::<Seq<char>>::empty());
        assert(crate::contest::strs_view(seen@).to_set() =~= ns.take(0).to_set());
    }
    while i < n
        invariant
            i <= n,
            n == v@.len(),
            ns == names_of(crate::history::ipv_seq(v@)),
            ns.len() == n,
            crate::contest::strs_view(seen@).no_duplicates(),
            crate::contest::strs_view(seen@).to_set() == ns.take(i as int).to_set(),
        decreases n - i,
    {
        let ghost sv = crate::contest::strs_view(seen@);
        proof {
            assert(ns[i as int] == v@[i as int]@.name);
            assert(ns.take(i + 1 as int) =~= ns.take(i as int).push(ns[i as int]));
            ns.take(i as int).lemma_push_to_set_commute(ns[i as int]);
        }
        let nm = &v[i].name;
        let mut found = false;
        let sn = seen.len();
        let mut j: usize = 0;
        while j < sn
            invariant
                j <= sn,
                sn == seen@.len(),
                sv == crate::contest::strs_view(seen@),
                nm@ == ns[i as int],
                i < ns.len(),
                found <==> (exists|m: int| 0 <= m < j && sv[m] == nm@),
            decreases sn - j,
        {
            let e = &seen[j];
            if e.eq(nm) {
                proof {
                    assert(sv[j as int] == nm@);
                }
                found = true;
            }
            j += 1;
        }
        if found {
            proof {
                let m = choose|m: int| 0 <= m < sv.len() && sv[m] == nm@;
                assert(sv.contains(nm@));
                assert(sv.to_set().contains(nm@));
                assert(ns.take(i as int).to_set().insert(nm@) =~= ns.take(i as int).to_set());
            }
        } else {
            proof {
                if sv.contains(nm@) {
                    let m = choose|m: int| 0 <= m < sv.len() && sv[m] == nm@;
                    assert(false);
                }
            }
            let ghost prev = sv;
            seen.push(nm.clone());
            proof {
                assert(crate::contest::strs_view(seen@) =~= prev.push(nm@));
                prev.lemma_push_to_set_commute(nm@);
                assert forall|a: int, b: int|
                    0 <= a < b < prev.push(nm@).len() implies prev.push(nm@)[a] != prev.push(
                    nm@,
                )[b] by {
                    if b < prev.len() {
                        assert(prev[a] != prev[b]);
                    } else {
                        assert(prev.push(nm@)[b] == nm@);
                        assert(prev.push(nm@)[a] == prev[a]);
                        assert(prev.contains(prev[a]));
                    }
                }
            }
        }
        i += 1;
    }
    proof {
        assert(ns.take(n as int) =~= ns);
        crate::contest::strs_view(seen@).unique_seq_to_set();
    }
    seen.len()
}

impl UsacoDb {
    /// Number of people with contest or camp records.
    pub fn people_count(&self) -> (r: usize)
        ensures
            r == self@.participants.len(),
    {
        self.participants.len()
    }

    /// Number of contest records across every person.
    pub fn contest_count(&self) -> (r: usize)
        requires
            total_contest_records(self@.participants) <= usize::MAX,
        ensures
            r as int == total_contest_records(self@.participants),
    {
        let ghost full = self@.participants;
        let mut sum: usize = 0;
        let n = self.participants.len();
        let mut i: usize = 0;
        proof {
            assert(full.take(0) =~= Seq::<ParticipantV>::empty());
        }
        while i < n
            invariant
                i <= n,
                n == self.participants@.len(),
                full == pv_seq(self.participants@),
                total_contest_records(full) <= usize::MAX,
                sum as int == total_contest_records(full.take(i as int)),
            decreases n - i,
        {
            proof {
                assert(full.take(i + 1 as int).drop_last() =~= full.take(i as int));
                assert(full.take(i + 1 as int).last() == full[i as int]);
                assert(full[i as int] == self.participants@[i as int]@);
                lemma_total_contest_prefix(full, i + 1);
            }
            sum = sum + self.participants[i].contests.len();
            i += 1;
        }
        proof {
            assert(full.take(n as int) =~= full);
        }
        sum
    }

    /// Number of camp records across every person.
    pub fn camp_count(&self) -> (r: usize)
        requires
            total_camp_records(self@.participants) <= usize::MAX,
        ensures
            r as int == total_camp_records(self@.participants),
    {
        let ghost full = self@.participants;
        let mut sum: usize = 0;
        let n = self.participants.len();
        let mut i: usize = 0;
        proof {
            assert(full.take(0) =~= Seq::<ParticipantV>::empty());
        }
        while i < n
            invariant
                i <= n,
                n == self.participants@.len(),
                full == pv_seq(self.participants@),
                total_camp_records(full) <= usize::MAX,
                sum as int == total_camp_records(full.take(i as int)),
            decreases n - i,
        {
            proof {
                assert(full.take(i + 1 as int).drop_last() =~= full.take(i as int));
                assert(full.take(i + 1 as int).last() == full[i as int]);
                assert(full[i as int] == self.participants@[i as int]@);
                lemma_total_camp_prefix(full, i + 1);
            }
            sum = sum + self.participants[i].camps.len();
            i += 1;
        }
        proof {
            assert(full.take(n as int) =~= full);
        }
        sum
    }

    /// Number of distinct names with records at the first olympiad.
    pub fn ioi_people_count(&self) -> (r: usize)
        ensures
            r as int == names_of(self@.intl_history.ioi).to_set().len(),
    {
        distinct_name_count(&self.intl_history.ioi)
    }

    /// Number of medal records at the first olympiad.
    pub fn ioi_records_count(&self) -> (r: usize)
        ensures
            r == self@.intl_history.ioi.len(),
    {
        self.intl_history.ioi.len()
    }

    /// Number of distinct names with records at the all-girls olympiad.
    pub fn egoi_people_count(&self) -> (r: usize)
        ensures
            r as int == names_of(self@.intl_history.egoi).to_set().len(),
    {
        distinct_name_count(&self.intl_history.egoi)
    }

    /// Number of medal records at the all-girls olympiad.
    pub fn egoi_records_count(&self) -> (r: usize)
        ensures
            r == self@.intl_history.egoi.len(),
    {
        self.intl_history.egoi.len()
    }
}

/// Where the consolidated dataset is kept on disk: a directory path. The
/// reading and writing themselves live with the caller.
#[derive(Debug, Clone)]
pub struct FileStore {
    path: String,
}

impl View for FileStore {
    type V = Seq<char>;

    closed spec fn view(&self) -> Seq<char> {
        self.path@
    }
}

impl FileStore {
    /// A store rooted at the given directory path.
    pub fn new_path(path: String) -> (r: FileStore)
        ensures
            r@ == path@,
    {
        FileStore { path }
    }

    /// The store's directory path.
    pub fn path(&self) -> (r: &str)
        ensures
            r@ == self@,
    {
        self.path.as_str()
    }
}

/// Result of a name query.
#[derive(Debug, Clone)]
pub struct NameQueryResult {
    /// Matched per-person aggregates, ordered by identity.
    pub participants: Vec<Participant>,
    /// Matching records at the first olympiad, sorted by year.
    pub ioi: Vec<IntlParticipant>,
    /// Matching records at the all-girls olympiad, sorted by year.
    pub egoi: Vec<IntlParticipant>,
}

/// View of a [`NameQueryResult`].
#[verifier::ext_equal]
pub ghost struct NameQueryResultV {
    pub participants: Seq<ParticipantV>,
    pub ioi: Seq<IntlParticipantV>,
    pub egoi: Seq<IntlParticipantV>,
}

impl View for NameQueryResult {
    type V = NameQueryResultV;

    open spec fn view(&self) -> NameQueryResultV {
        NameQueryResultV {
            participants: pv_seq(self.participants@),
            ioi: crate::history::ipv_seq(self.ioi@),
            egoi: crate::history::ipv_seq(self.egoi@),
        }
    }
}

/// What a query matches against: the searched name, Unicode-lowercased with
/// whitespace runs collapsed.
pub open spec fn query_key(name: Seq<char>) -> Seq<char> {
    crate::text::normalize_spec(crate::text::lower_of(name))
}

/// The aggregates whose stored name lowercases to the key, in order.
pub open spec fn q_filter(ps: Seq<ParticipantV>, key: Seq<char>) -> Seq<ParticipantV>
    decreases ps.len(),
{
    if ps.len() == 0 {
        Seq::empty()
    } else if crate::text::lower_of(ps.last().id.name) == key {
        q_filter(ps.drop_last(), key).push(ps.last())
    } else {
        q_filter(ps.drop_last(), key)
    }
}

/// The medal records whose name lowercases to the key, in order.
pub open spec fn name_filter(l: Seq<IntlParticipantV>, key: Seq<char>) -> Seq<IntlParticipantV>
    decreases l.len(),
{
    if l.len() == 0 {
        Seq::empty()
    } else if crate::text::lower_of(l.last().name) == key {
        name_filter(l.drop_last(), key).push(l.last())
    } else {
        name_filter(l.drop_last(), key)
    }
}

/// The same person with the same records, rearranged chronologically:
/// contests ordered by time then division, camps by year.
pub open spec fn chrono_rearranged(got: ParticipantV, orig: ParticipantV) -> bool {
    &&& got.id == orig.id
    &&& got.contests.len() == orig.contests.len()
    &&& crate::query::sorted_records(got.contests)
    &&& forall|x: ParticipantContestRecord|
        got.contests.contains(x) <==> orig.contests.contains(x)
    &&& got.camps.len() == orig.camps.len()
    &&& crate::query::sorted_camp_records(got.camps)
    &&& forall|x: ParticipantCampRecord| got.camps.contains(x) <==> orig.camps.contains(x)
}

/// Some member of the list is a chronological rearrangement of this
/// aggregate.
pub open spec fn has_rearranged(rps: Seq<ParticipantV>, orig: ParticipantV) -> bool {
    exists|ix: int| 0 <= ix < rps.len() && chrono_rearranged(rps[ix], orig)
}

/// This aggregate is a chronological rearrangement of some member of the
/// list.
pub open spec fn is_rearranged_of(f: Seq<ParticipantV>, got: ParticipantV) -> bool {
    exists|jx: int| 0 <= jx < f.len() && chrono_rearranged(got, f[jx])
}

/// What a query's participant list must be, relative to the matched
/// aggregates `f`: the same people, ordered by identity, each with their
/// records rearranged chronologically.
pub open spec fn query_participants_ok(rps: Seq<ParticipantV>, f: Seq<ParticipantV>) -> bool {
    &&& rps.len() == f.len()
    &&& crate::query::sorted_ids(rps)
    &&& forall|jx: int| 0 <= jx < f.len() ==> #[trigger] has_rearranged(rps, f[jx])
    &&& forall|ix: int| 0 <= ix < rps.len() ==> #[trigger] is_rearranged_of(f, rps[ix])
}

/// A sorted rearrangement of chronologically rearranged aggregates answers
/// the query correctly.
proof fn lemma_query_participants(
    rp: Seq<ParticipantV>,
    r1: Seq<ParticipantV>,
    f: Seq<ParticipantV>,
)
    requires
        rp.len() == f.len(),
        r1.len() == f.len(),
        crate::query::sorted_ids(rp),
        forall|jx: int| 0 <= jx < f.len() ==> chrono_rearranged(#[trigger] r1[jx], f[jx]),
        forall|x: ParticipantV| rp.contains(x) <==> r1.contains(x),
    ensures
        query_participants_ok(rp, f),
{
    assert forall|jx: int| 0 <= jx < f.len() implies #[trigger] has_rearranged(rp, f[jx]) by {
        assert(r1.contains(r1[jx]));
        assert(rp.contains(r1[jx]));
        let w = choose|w: int| 0 <= w < rp.len() && rp[w] == r1[jx];
        assert(chrono_rearranged(rp[w], f[jx]));
    }
    assert forall|ix: int| 0 <= ix < rp.len() implies #[trigger] is_rearranged_of(f, rp[ix]) by {
        assert(rp.contains(rp[ix]));
        assert(r1.contains(rp[ix]));
        let w = choose|w: int| 0 <= w < r1.len() && r1[w] == rp[ix];
        assert(chrono_rearranged(r1[w], f[w]));
        assert(chrono_rearranged(rp[ix], f[w]));
    }
}

/// A copy of one aggregate, equal in view.
fn duplicate_participant(p: &Participant) -> (r: Participant)
    ensures
        r@ == p@,
{
    let mut contests: Vec<ParticipantContestRecord> = Vec::new();
    let nc = p.contests.len();
    let mut i: usize = 0;
    while i < nc
        invariant
            i <= nc,
            nc == p.contests@.len(),
            contests@ == p.contests@.take(i as int),
        decreases nc - i,
    {
        proof {
            assert(p.contests@.take(i + 1 as int) =~= p.contests@.take(i as int).push(
                p.contests@[i as int],
            ));
        }
        contests.push(p.contests[i]);
        i += 1;
    }
    let mut camps: Vec<ParticipantCampRecord> = Vec::new();
    let nk = p.camps.len();
    let mut k: usize = 0;
    while k < nk
        invariant
            k <= nk,
            nk == p.camps@.len(),
            camps@ == p.camps@.take(k as int),
        decreases nk - k,
    {
        proof {
            assert(p.camps@.take(k + 1 as int) =~= p.camps@.take(k as int).push(
                p.camps@[k as int],
            ));
        }
        camps.push(p.camps[k]);
        k += 1;
    }
    let r = Participant { id: p.id.duplicate(), contests, camps };
    proof {
        assert(r.contests@ =~= p.contests@);
        assert(r.camps@ =~= p.camps@);
        assert(r@ =~= p@);
    }
    r
}

/// The matching medal records, in order.
fn filter_intl(l: &Vec<IntlParticipant>, key: &String) -> (r: Vec<IntlParticipant>)
    ensures
        crate::history::ipv_seq(r@) == name_filter(crate::history::ipv_seq(l@), key@),
{
    let ghost lv = crate::history::ipv_seq(l@);
    let mut out: Vec<IntlParticipant> = Vec::new();
    let n = l.len();
    let mut i: usize = 0;
    proof {
        assert(crate::history::ipv_seq(out@) =~= name_filter(lv.take(0), key@));
    }
    while i < n
        invariant
            i <= n,
            n == l@.len(),
            lv == crate::history::ipv_seq(l@),
            crate::history::ipv_seq(out@) == name_filter(lv.take(i as int), key@),
        decreases n - i,
    {
        proof {
            assert(lv.take(i + 1 as int).drop_last() =~= lv.take(i as int));
            assert(lv.take(i + 1 as int).last() == lv[i as int]);
            assert(lv[i as int] == l@[i as int]@);
        }
        let p = &l[i];
        let pl = crate::text::lowercase(p.name.as_str());
        if pl.eq(key) {
            let ghost prev = crate::history::ipv_seq(out@);
            let d = p.duplicate();
            let ghost dv = d@;
            out.push(d);
            proof {
                assert(crate::history::ipv_seq(out@) =~= prev.push(dv));
            }
        }
        i += 1;
    }
    proof {
        assert(lv.take(n as int) =~= lv);
    }
    out
}

impl UsacoDb {
    /// Answers a name query: a case-insensitive, whitespace-normalized
    /// exact match against stored names. Matched people come back ordered
    /// by identity — name, then graduation, then country — with each
    /// person's contest records ordered by time then division and camp
    /// records by year; matching olympiad records come back sorted by year.
    #[verifier::rlimit(80)]
    pub fn query_name(&self, name: &str) -> (r: NameQueryResult)
        ensures
            ({
                let key = query_key(name@);
                let f = q_filter(self@.participants, key);
                &&& query_participants_ok(r@.participants, f)
                &&& crate::history::sorted_by_year(r@.ioi)
                &&& forall|y: u16|
                    #[trigger] crate::history::year_filter(r@.ioi, y)
                        == crate::history::year_filter(
                        name_filter(self@.intl_history.ioi, key),
                        y,
                    )
                &&& crate::history::sorted_by_year(r@.egoi)
                &&& forall|y: u16|
                    #[trigger] crate::history::year_filter(r@.egoi, y)
                        == crate::history::year_filter(
                        name_filter(self@.intl_history.egoi, key),
                        y,
                    )
            }),
    {
        let low = crate::text::lowercase(name);
        let key = crate::text::normalize_text(low.as_str());
        let ghost kv = key@;
        let ghost pv0 = pv_seq(self.participants@);
        let ghost f = q_filter(pv0, kv);
        let mut matched: Vec<Participant> = Vec::new();
        let n = self.participants.len();
        let mut i: usize = 0;
        proof {
            assert(pv_seq(matched@) =~= q_filter(pv0.take(0), kv));
        }
        while i < n
            invariant
                i <= n,
                n == self.participants@.len(),
                pv0 == pv_seq(self.participants@),
                kv == key@,
                pv_seq(matched@) == q_filter(pv0.take(i as int), kv),
            decreases n - i,
        {
            proof {
                assert(pv0.take(i + 1 as int).drop_last() =~= pv0.take(i as int));
                assert(pv0.take(i + 1 as int).last() == pv0[i as int]);
                assert(pv0[i as int] == self.participants@[i as int]@);
            }
            let p = &self.participants[i];
            let pl = crate::text::lowercase(p.id.name.as_str());
            if pl.eq(&key) {
                let ghost prev = pv_seq(matched@);
                let d = duplicate_participant(p);
                let ghost dv = d@;
                matched.push(d);
                proof {
                    assert(pv_seq(matched@) =~= prev.push(dv));
                }
            }
            i += 1;
        }
        proof {
            assert(pv0.take(n as int) =~= pv0);
            assert(pv_seq(matched@) == f);
        }
        let nm = matched.len();
        let mut ix: usize = 0;
        while ix < nm
            invariant
                ix <= nm,
                nm == matched@.len(),
                nm == f.len(),
                forall|jx: int|
                    0 <= jx < ix ==> chrono_rearranged(#[trigger] pv_seq(matched@)[jx], f[jx]),
                forall|jx: int| ix <= jx < nm ==> #[trigger] pv_seq(matched@)[jx] == f[jx],
            decreases nm - ix,
        {
            let ghost before = pv_seq(matched@);
            let p = matched.remove(ix);
            proof {
                assert(p@ == before[ix as int]);
                assert(before[ix as int] == f[ix as int]);
            }
            let id = p.id;
            let mut contests = p.contests;
            let mut camps = p.camps;
            crate::query::sort_contest_records(&mut contests);
            crate::query::sort_camp_records(&mut camps);
            let p2 = Participant { id, contests, camps };
            let ghost pv = p2@;
            matched.insert(ix, p2);
            proof {
                assert(pv_seq(matched@) =~= before.update(ix as int, pv));
                assert(chrono_rearranged(pv, f[ix as int]));
                assert forall|jx: int|
                    0 <= jx < ix + 1 implies chrono_rearranged(
                    #[trigger] pv_seq(matched@)[jx],
                    f[jx],
                ) by {
                    if jx < ix {
                        assert(pv_seq(matched@)[jx] == before[jx]);
                    }
                }
            }
            ix += 1;
        }
        let ghost r1 = pv_seq(matched@);
        crate::query::sort_participants(&mut matched);
        let mut ioi_m = filter_intl(&self.intl_history.ioi, &key);
        crate::history::sort_intl(&mut ioi_m);
        let mut egoi_m = filter_intl(&self.intl_history.egoi, &key);
        crate::history::sort_intl(&mut egoi_m);
        let r = NameQueryResult { participants: matched, ioi: ioi_m, egoi: egoi_m };
        proof {
            let rp = r@.participants;
            assert(kv == query_key(name@));
            assert(f == q_filter(self@.participants, query_key(name@)));
            lemma_query_participants(rp, r1, f);
        }
        r
    }
}

/// No two aggregates share an identity.
pub open spec fn unique_ids(ps: Seq<ParticipantV>) -> bool {
    forall|i: int, j: int| 0 <= i < j < ps.len() ==> #[trigger] ps[i].id != #[trigger] ps[j].id
}

/// Landing a contest row keeps identities unique.
proof fn lemma_upsert_contest_unique(ps: Seq<ParticipantV>, id: PidV, rec: ParticipantContestRecord)
    requires
        unique_ids(ps),
    ensures
        unique_ids(upsert_contest(ps, id, rec)),
{
    lemma_find_pid_props(ps, id);
    let j = find_pid(ps, id);
    if j < 0 {
        let t = ps.push(ParticipantV { id, contests: seq![rec], camps: Seq::empty() });
        assert forall|a: int, b: int| 0 <= a < b < t.len() implies #[trigger] t[a].id
            != #[trigger] t[b].id by {
            if b < ps.len() {
                assert(t[a] == ps[a] && t[b] == ps[b]);
            } else {
                assert(t[b].id == id);
                assert(t[a] == ps[a]);
            }
        }
    } else {
        let t = upsert_contest(ps, id, rec);
        assert forall|a: int, b: int| 0 <= a < b < t.len() implies #[trigger] t[a].id
            != #[trigger] t[b].id by {
            assert(t[a].id == ps[a].id);
            assert(t[b].id == ps[b].id);
        }
    }
}

/// Landing a camp row keeps identities unique.
proof fn lemma_upsert_camp_unique(ps: Seq<ParticipantV>, id: PidV, rec: ParticipantCampRecord)
    requires
        unique_ids(ps),
    ensures
        unique_ids(upsert_camp(ps, id, rec)),
{
    lemma_find_pid_props(ps, id);
    let j = find_pid(ps, id);
    if j < 0 {
        let t = ps.push(ParticipantV { id, contests: Seq::empty(), camps: seq![rec] });
        assert forall|a: int, b: int| 0 <= a < b < t.len() implies #[trigger] t[a].id
            != #[trigger] t[b].id by {
            if b < ps.len() {
                assert(t[a] == ps[a] && t[b] == ps[b]);
            } else {
                assert(t[b].id == id);
                assert(t[a] == ps[a]);
            }
        }
    } else {
        let t = upsert_camp(ps, id, rec);
        assert forall|a: int, b: int| 0 <= a < b < t.len() implies #[trigger] t[a].id
            != #[trigger] t[b].id by {
            assert(t[a].id == ps[a].id);
            assert(t[b].id == ps[b].id);
        }
    }
}

/// Grouping never produces two aggregates with the same identity.
pub proof fn lemma_consolidation_unique(d: UsacoDataV)
    ensures
        unique_ids(spec_consolidate(d).participants),
{
    let base = after_contests(Seq::empty(), d.contests, d.contests.len() as int);
    lemma_after_contests_unique(Seq::empty(), d.contests, d.contests.len() as int);
    lemma_after_camps_unique(base, d.camps, d.camps.len() as int);
}

proof fn lemma_after_contest_rows_unique(
    ps: Seq<ParticipantV>,
    time: MonthYear,
    division: Division,
    rows: Seq<ContestParticipantV>,
    n: int,
)
    requires
        unique_ids(ps),
    ensures
        unique_ids(after_contest_rows(ps, time, division, rows, n)),
    decreases n,
{
    if n > 0 {
        lemma_after_contest_rows_unique(ps, time, division, rows, n - 1);
        lemma_upsert_contest_unique(
            after_contest_rows(ps, time, division, rows, n - 1),
            contest_pid(rows[n - 1]),
            contest_rec(time, division, rows[n - 1]),
        );
    }
}

proof fn lemma_after_contests_unique(ps: Seq<ParticipantV>, cs: Seq<ContestV>, n: int)
    requires
        unique_ids(ps),
    ensures
        unique_ids(after_contests(ps, cs, n)),
    decreases n,
{
    if n > 0 {
        lemma_after_contests_unique(ps, cs, n - 1);
        let c = cs[n - 1];
        lemma_after_contest_rows_unique(
            after_contests(ps, cs, n - 1),
            c.time,
            c.division,
            c.participants,
            c.participants.len() as int,
        );
    }
}

proof fn lemma_after_camp_rows_unique(
    ps: Seq<ParticipantV>,
    year: u16,
    rows: Seq<CampParticipantV>,
    n: int,
)
    requires
        unique_ids(ps),
    ensures
        unique_ids(after_camp_rows(ps, year, rows, n)),
    decreases n,
{
    if n > 0 {
        lemma_after_camp_rows_unique(ps, year, rows, n - 1);
        lemma_upsert_camp_unique(
            after_camp_rows(ps, year, rows, n - 1),
            camp_pid(rows[n - 1]),
            ParticipantCampRecord { camp_year: year },
        );
    }
}

proof fn lemma_after_camps_unique(ps: Seq<ParticipantV>, cs: Seq<CampV>, n: int)
    requires
        unique_ids(ps),
    ensures
        unique_ids(after_camps(ps, cs, n)),
    decreases n,
{
    if n > 0 {
        lemma_after_camps_unique(ps, cs, n - 1);
        let c = cs[n - 1];
        lemma_after_camp_rows_unique(
            after_camps(ps, cs, n - 1),
            c.year,
            c.participants,
            c.participants.len() as int,
        );
    }
}

/// Two contest rows of the same identity in two different contests land in
/// one aggregate that holds both records, in contest order and each in full.
pub proof fn lemma_identity_consolidation(
    c1: ContestV,
    c2: ContestV,
    p1: ContestParticipantV,
    p2: ContestParticipantV,
    hist: crate::records::IntlHistoryV,
)
    requires
        c1.participants == seq![p1],
        c2.participants == seq![p2],
        contest_pid(p1) == contest_pid(p2),
        hist.ioi == Seq::<IntlParticipantV>::empty(),
        hist.egoi == Seq::<IntlParticipantV>::empty(),
    ensures
        spec_consolidate(
            UsacoDataV { contests: seq![c1, c2], camps: Seq::empty(), intl_history: hist },
        ).participants == seq![
            ParticipantV {
                id: contest_pid(p1),
                contests: seq![
                    contest_rec(c1.time, c1.division, p1),
                    contest_rec(c2.time, c2.division, p2),
                ],
                camps: Seq::<ParticipantCampRecord>::empty(),
            },
        ],
{
    let d = UsacoDataV { contests: seq![c1, c2], camps: Seq::empty(), intl_history: hist };
    let id = contest_pid(p1);
    let r1 = contest_rec(c1.time, c1.division, p1);
    let r2 = contest_rec(c2.time, c2.division, p2);
    let e = Seq::<ParticipantV>::empty();
    assert(d.contests[0] == c1 && d.contests[1] == c2);
    assert(after_contests(e, d.contests, 0) == e);
    let s1 = after_contests(e, d.contests, 1);
    assert(s1 == after_contest_rows(e, c1.time, c1.division, c1.participants, 1));
    assert(c1.participants[0] == p1);
    assert(after_contest_rows(e, c1.time, c1.division, c1.participants, 0) == e);
    assert(find_pid(e, id) == -1);
    let q1 = ParticipantV { id, contests: seq![r1], camps: Seq::empty() };
    assert(s1 == e.push(q1));
    let s2 = after_contests(e, d.contests, 2);
    assert(s2 == after_contest_rows(s1, c2.time, c2.division, c2.participants, 1));
    assert(c2.participants[0] == p2);
    assert(e.push(q1)[0] == q1);
    lemma_find_pid_at(e.push(q1), id, 0);
    assert(find_pid(s1, id) == 0);
    let q2 = ParticipantV { id, contests: seq![r1, r2], camps: Seq::empty() };
    assert(seq![r1].push(r2) =~= seq![r1, r2]);
    assert(s1[0] == q1);
    let q2b = ParticipantV {
        id: s1[0].id,
        contests: s1[0].contests.push(r2),
        camps: s1[0].camps,
    };
    assert(contest_pid(c2.participants[0]) == id);
    assert(contest_rec(c2.time, c2.division, c2.participants[0]) == r2);
    assert(after_contest_rows(s1, c2.time, c2.division, c2.participants, 0) == s1);
    assert(s2 == upsert_contest(s1, id, r2));
    assert(upsert_contest(s1, id, r2) == s1.update(0, q2b));
    assert(s2 == s1.update(0, q2b));
    assert(q2b =~= q2);
    assert(s2[0] == q2);
    assert(s2 =~= seq![q2]);
    assert(after_camps(s2, d.camps, 0) == s2);
    assert(spec_consolidate(d).participants == s2);
}

} // verus!
