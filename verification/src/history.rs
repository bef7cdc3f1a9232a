//! International-history page parser.
//!
//! The history page carries one section per olympiad, recognized by its
//! heading. Inside a section each block covers one year: the year is the
//! first four characters of the block's text, and each contestant is a text
//! node whose medal is the image element immediately before it, except for
//! the visa-issue marker, which needs no image. Entries that do not fit are
//! skipped one by one; each olympiad's list is finally sorted by year with
//! the page's order kept among equal years.

use vstd::prelude::*;

verus! {

use crate::dom::{HistNode, HistNodeV, HistSection, HistSectionV, YearBlock, YearBlockV,
    history_sections, history_sections_of, sections_view};
use crate::records::{IntlHistory, IntlParticipant, IntlParticipantV};
use crate::text::{chars_of, has_substr, has_substring, normalize_spec, normalize_text, parse_u16,
    parse_u16_spec, rfind_char, rfind_spec, string_of_chars, trim_chars, trim_spec};
use crate::types::IntlMedal;
use vstd::string::StringExecFns;
use vstd::string::StrSliceExecFns;

/// Views of a medal-record list.
pub open spec fn ipv_seq(s: Seq<IntlParticipant>) -> Seq<IntlParticipantV> {
    s.map_values(|p: IntlParticipant| p@)
}

/// The medal a medal-image path denotes, if any.
pub open spec fn medal_of(src: Seq<char>) -> Option<IntlMedal> {
    if src == "current/images/medal_none.png"@ {
        Some(IntlMedal::NoMedal)
    } else if src == "current/images/medal_bronze.png"@ {
        Some(IntlMedal::Bronze)
    } else if src == "current/images/medal_silver.png"@ {
        Some(IntlMedal::Silver)
    } else if src == "current/images/medal_gold.png"@ {
        Some(IntlMedal::Gold)
    } else {
        None
    }
}

/// Executable medal lookup.
fn medal_from_src(src: &String) -> (r: Option<IntlMedal>)
    ensures
        r == medal_of(src@),
{
    let none_p = String::from_str("current/images/medal_none.png");
    let bronze_p = String::from_str("current/images/medal_bronze.png");
    let silver_p = String::from_str("current/images/medal_silver.png");
    let gold_p = String::from_str("current/images/medal_gold.png");
    if src.eq(&none_p) {
        Some(IntlMedal::NoMedal)
    } else if src.eq(&bronze_p) {
        Some(IntlMedal::Bronze)
    } else if src.eq(&silver_p) {
        Some(IntlMedal::Silver)
    } else if src.eq(&gold_p) {
        Some(IntlMedal::Gold)
    } else {
        None
    }
}

/// The trimmed name begins with the visa-issue marker.
pub open spec fn has_visa_marker(nm: Seq<char>) -> bool {
    nm.len() >= 3 && nm[0] == '(' && nm[1] == '*' && nm[2] == ')'
}

/// The stored name once a trailing parenthesized placement is stripped:
/// everything before the last opening parenthesis, trimmed; nothing when the
/// placement text has no opening parenthesis to cut at.
pub open spec fn cleaned_name(nm: Seq<char>) -> Option<Seq<char>> {
    if has_substr(nm, "place)"@) {
        match rfind_spec(nm, '(') {
            Some(ix) => Some(trim_spec(nm.take(ix))),
            None => None,
        }
    } else {
        Some(nm)
    }
}

/// The medal record one child node denotes, given the year: a text node
/// whose trimmed text is nonempty, either marked as a visa issue or preceded
/// immediately by a recognized medal image.
pub open spec fn entry_result(nodes: Seq<HistNodeV>, idx: int, year: u16) -> Option<
    IntlParticipantV,
> {
    match nodes[idx] {
        HistNodeV::Text(raw) => {
            let nm = trim_spec(raw);
            if nm.len() == 0 {
                None
            } else if has_visa_marker(nm) {
                Some(
                    IntlParticipantV {
                        year,
                        result: IntlMedal::VisaIssue,
                        name: if nm.len() >= 4 {
                            trim_spec(nm.skip(4))
                        } else {
                            Seq::empty()
                        },
                    },
                )
            } else if idx == 0 {
                None
            } else {
                match nodes[idx - 1] {
                    HistNodeV::Element { src: Some(p) } => match medal_of(p) {
                        Some(m) => match cleaned_name(nm) {
                            Some(n) => Some(IntlParticipantV { year, result: m, name: n }),
                            None => None,
                        },
                        None => None,
                    },
                    _ => None,
                }
            }
        },
        _ => None,
    }
}

/// The records of the first `n` child nodes, in order.
pub open spec fn entries(nodes: Seq<HistNodeV>, n: int, year: u16) -> Seq<IntlParticipantV>
    decreases n,
{
    if n <= 0 {
        Seq::empty()
    } else {
        entries(nodes, n - 1, year) + (match entry_result(nodes, n - 1, year) {
            Some(p) => seq![p],
            None => Seq::empty(),
        })
    }
}

/// The records of one year block: nothing unless the first four characters
/// of its normalized text parse as a year; otherwise its nodes' records.
pub open spec fn block_results(b: YearBlockV) -> Seq<IntlParticipantV> {
    let t = normalize_spec(b.text);
    if t.len() < 4 {
        Seq::empty()
    } else {
        match parse_u16_spec(t.take(4)) {
            None => Seq::empty(),
            Some(year) => entries(b.nodes, b.nodes.len() as int, year),
        }
    }
}

/// The records of one section's year blocks, in order.
pub open spec fn section_results(blocks: Seq<YearBlockV>) -> Seq<IntlParticipantV>
    decreases blocks.len(),
{
    if blocks.len() == 0 {
        Seq::empty()
    } else {
        section_results(blocks.drop_last()) + block_results(blocks.last())
    }
}

/// The two olympiads' raw lists after all sections, in page order: a section
/// is assigned by which olympiad name its heading holds, one with both or
/// neither is skipped, and a later section of the same olympiad replaces the
/// earlier one.
pub open spec fn spec_hist(ss: Seq<HistSectionV>) -> (Seq<IntlParticipantV>, Seq<IntlParticipantV>)
    decreases ss.len(),
{
    if ss.len() == 0 {
        (Seq::empty(), Seq::empty())
    } else {
        let prev = spec_hist(ss.drop_last());
        let s = ss.last();
        match s.heading {
            None => prev,
            Some(h) => {
                let is_i = has_substr(h, "IOI"@);
                let is_e = has_substr(h, "EGOI"@);
                if is_i && is_e {
                    prev
                } else if is_i {
                    (section_results(s.blocks), prev.1)
                } else if is_e {
                    (prev.0, section_results(s.blocks))
                } else {
                    prev
                }
            },
        }
    }
}

/// Years never decrease along the list.
pub open spec fn sorted_by_year(s: Seq<IntlParticipantV>) -> bool {
    forall|a: int, b: int| 0 <= a < b < s.len() ==> #[trigger] s[a].year <= #[trigger] s[b].year
}

/// The records of one year, in list order.
pub open spec fn year_filter(s: Seq<IntlParticipantV>, y: u16) -> Seq<IntlParticipantV>
    decreases s.len(),
{
    if s.len() == 0 {
        Seq::empty()
    } else if s.last().year == y {
        year_filter(s.drop_last(), y).push(s.last())
    } else {
        year_filter(s.drop_last(), y)
    }
}

/// Year selection splits over concatenation.
proof fn lemma_filter_add(a: Seq<IntlParticipantV>, b: Seq<IntlParticipantV>, y: u16)
    ensures
        year_filter(a + b, y) == year_filter(a, y) + year_filter(b, y),
    decreases b.len(),
{
    if b.len() == 0 {
        assert(a + b =~= a);
        assert(year_filter(a, y) + year_filter(b, y) =~= year_filter(a, y));
    } else {
        lemma_filter_add(a, b.drop_last(), y);
        assert((a + b).drop_last() =~= a + b.drop_last());
        assert((a + b).last() == b.last());
        if b.last().year == y {
            assert(year_filter(a, y) + year_filter(b.drop_last(), y).push(b.last())
                =~= (year_filter(a, y) + year_filter(b.drop_last(), y)).push(b.last()));
        }
    }
}

/// A list with no record of the year selects nothing.
proof fn lemma_filter_absent(s: Seq<IntlParticipantV>, y: u16)
    requires
        forall|m: int| 0 <= m < s.len() ==> #[trigger] s[m].year != y,
    ensures
        year_filter(s, y) == Seq::<IntlParticipantV>::empty(),
    decreases s.len(),
{
    if s.len() > 0 {
        assert forall|m: int| 0 <= m < s.drop_last().len() implies #[trigger] s.drop_last()[m].year
            != y by {
            assert(s.drop_last()[m] == s[m]);
        }
        lemma_filter_absent(s.drop_last(), y);
        assert(s.last() == s[s.len() - 1]);
    }
}

/// Selecting from one record keeps it exactly when its year matches.
proof fn lemma_filter_one(x: IntlParticipantV, y: u16)
    ensures
        year_filter(seq![x], y) == (if x.year == y {
            seq![x]
        } else {
            Seq::<IntlParticipantV>::empty()
        }),
{
    let s = seq![x];
    assert(s.drop_last() =~= Seq::<IntlParticipantV>::empty());
    assert(s.last() == x);
    assert(year_filter(s.drop_last(), y) == Seq::<IntlParticipantV>::empty());
    if x.year == y {
        assert(year_filter(s, y) == year_filter(s.drop_last(), y).push(x));
        assert(year_filter(s.drop_last(), y).push(x) =~= seq![x]);
    }
}

/// Moving one record leftward across records of strictly greater years
/// keeps every year's sublist.
proof fn lemma_move_filter(s: Seq<IntlParticipantV>, i: int, p: int, y: u16)
    requires
        0 <= p <= i < s.len(),
        forall|m: int| p <= m < i ==> #[trigger] s[m].year > s[i].year,
    ensures
        year_filter(s.remove(i).insert(p, s[i]), y) == year_filter(s, y),
{
    let x = s[i];
    let a = s.take(p);
    let b = s.subrange(p, i);
    let c = s.skip(i + 1);
    assert(s =~= (a + b + seq![x]) + c);
    assert(s.remove(i).insert(p, x) =~= (a + seq![x] + b) + c);
    lemma_filter_add((a + b + seq![x]), c, y);
    lemma_filter_add(a + b, seq![x], y);
    lemma_filter_add(a, b, y);
    lemma_filter_add((a + seq![x] + b), c, y);
    lemma_filter_add(a + seq![x], b, y);
    lemma_filter_add(a, seq![x], y);
    lemma_filter_one(x, y);
    if x.year == y {
        assert forall|m: int| 0 <= m < b.len() implies #[trigger] b[m].year != y by {
            assert(b[m] == s[p + m]);
        }
        lemma_filter_absent(b, y);
    }
    assert(year_filter(a, y) + year_filter(b, y) + year_filter(seq![x], y) + year_filter(c, y)
        =~= year_filter(a, y) + year_filter(seq![x], y) + year_filter(b, y) + year_filter(c, y));
}

/// Inserting the moved record where its year fits keeps the prefix sorted
/// and the suffix untouched.
proof fn lemma_move_sorted(s: Seq<IntlParticipantV>, i: int, p: int)
    requires
        0 <= p <= i < s.len(),
        sorted_by_year(s.take(i)),
        forall|m: int| p <= m < i ==> #[trigger] s[m].year > s[i].year,
        p > 0 ==> s[p - 1].year <= s[i].year,
    ensures
        sorted_by_year(s.remove(i).insert(p, s[i]).take(i + 1)),
        s.remove(i).insert(p, s[i]).len() == s.len(),
        s.remove(i).insert(p, s[i]).skip(i + 1) =~= s.skip(i + 1),
{
    let t = s.remove(i).insert(p, s[i]);
    assert forall|m1: int, m2: int| 0 <= m1 < m2 < i implies #[trigger] s[m1].year
        <= #[trigger] s[m2].year by {
        assert(s.take(i)[m1] == s[m1]);
        assert(s.take(i)[m2] == s[m2]);
        assert(s.take(i)[m1].year <= s.take(i)[m2].year);
    }
    assert forall|a: int, b: int|
        0 <= a < b < t.take(i + 1).len() implies #[trigger] t.take(i + 1)[a].year
        <= #[trigger] t.take(i + 1)[b].year by {
        let ta = t.take(i + 1)[a];
        let tb = t.take(i + 1)[b];
        if a < p {
            assert(ta == s[a]);
        } else if a == p {
            assert(ta == s[i]);
        } else {
            assert(ta == s[a - 1]);
        }
        if b < p {
            assert(tb == s[b]);
        } else if b == p {
            assert(tb == s[i]);
        } else {
            assert(tb == s[b - 1]);
        }
        if b == p {
            assert(a < p);
            assert(s[a].year <= s[p - 1].year);
        }
        if a == p && b > p {
            assert(s[b - 1].year > s[i].year);
        }
        if a < p && b > p {
            if p > 0 {
                assert(s[a].year <= s[p - 1].year);
            }
            assert(s[b - 1].year > s[i].year);
        }
    }
}

/// Sorts records by year, keeping the existing order among equal years.
pub(crate) fn sort_intl(v: &mut Vec<IntlParticipant>)
    ensures
        final(v)@.len() == old(v)@.len(),
        sorted_by_year(ipv_seq(final(v)@)),
        forall|y: u16|
            #[trigger] year_filter(ipv_seq(final(v)@), y) == year_filter(ipv_seq(old(v)@), y),
{
    let ghost orig = ipv_seq(v@);
    let n = v.len();
    if n == 0 {
        return ;
    }
    let mut i: usize = 1;
    while i < n
        invariant
            1 <= i <= n,
            n == v@.len(),
            sorted_by_year(ipv_seq(v@).take(i as int)),
            forall|y: u16| #[trigger] year_filter(ipv_seq(v@), y) == year_filter(orig, y),
        decreases n - i,
    {
        let key_year = v[i].year;
        let ghost sv = ipv_seq(v@);
        let mut p: usize = i;
        while p > 0 && v[p - 1].year > key_year
            invariant
                p <= i < n,
                n == v@.len(),
                sv == ipv_seq(v@),
                key_year == sv[i as int].year,
                forall|m: int| p <= m < i ==> #[trigger] sv[m].year > key_year,
            decreases p,
        {
            proof {
                assert(sv[p - 1].year == v@[p - 1]@.year);
            }
            p -= 1;
        }
        let x = v.remove(i);
        v.insert(p, x);
        proof {
            let moved = sv.remove(i as int).insert(p as int, sv[i as int]);
            assert(ipv_seq(v@) =~= moved);
            lemma_move_sorted(sv, i as int, p as int);
            assert(moved.take(i + 1 as int) =~= sv.remove(i as int).insert(
                p as int,
                sv[i as int],
            ).take(i + 1));
            assert forall|y: u16|
                #[trigger] year_filter(ipv_seq(v@), y) == year_filter(orig, y) by {
                lemma_move_filter(sv, i as int, p as int, y);
            }
        }
        i += 1;
    }
    proof {
        if n > 0 {
            assert(ipv_seq(v@).take(n as int) =~= ipv_seq(v@));
        }
    }
}

/// Reads one child node of a year block.
fn parse_entry(nodes: &Vec<HistNode>, idx: usize, year: u16) -> (r: Option<IntlParticipant>)
    requires
        idx < nodes@.len(),
    ensures
        match r {
            Some(p) => entry_result(nodes@.map_values(|n: HistNode| n@), idx as int, year) == Some(
                p@,
            ),
            None => entry_result(nodes@.map_values(|n: HistNode| n@), idx as int, year) is None,
        },
{
    let ghost nv = nodes@.map_values(|n: HistNode| n@);
    proof {
        assert(nv[idx as int] == nodes@[idx as int]@);
    }
    match &nodes[idx] {
        HistNode::Text(raw) => {
            let rc = chars_of(raw.as_str());
            let nm = trim_chars(&rc);
            if nm.len() == 0 {
                return None;
            }
            if nm.len() >= 3 && nm[0] == '(' && nm[1] == '*' && nm[2] == ')' {
                let mut tailv: Vec<char> = Vec::new();
                let mut q: usize = 4;
                if nm.len() >= 4 {
                    while q < nm.len()
                        invariant
                            4 <= q <= nm@.len(),
                            tailv@ == nm@.subrange(4, q as int),
                        decreases nm@.len() - q,
                    {
                        proof {
                            assert(nm@.subrange(4, q + 1 as int) =~= nm@.subrange(4, q as int).push(
                                nm@[q as int],
                            ));
                        }
                        tailv.push(nm[q]);
                        q += 1;
                    }
                    proof {
                        assert(tailv@ =~= nm@.skip(4));
                    }
                }
                let trimmed = trim_chars(&tailv);
                let name = string_of_chars(&trimmed);
                let p = IntlParticipant { year, result: IntlMedal::VisaIssue, name };
                proof {
                    if nm@.len() < 4 {
                        assert(tailv@ =~= Seq::<char>::empty());
                        assert(trim_spec(tailv@) == tailv@);
                    }
                    assert(entry_result(nv, idx as int, year) matches Some(e) && e =~= p@);
                }
                return Some(p);
            }
            if idx == 0 {
                return None;
            }
            proof {
                assert(nv[idx - 1] == nodes@[idx - 1]@);
            }
            match &nodes[idx - 1] {
                HistNode::Element { src: Some(srcp) } => {
                    let medal = match medal_from_src(srcp) {
                        Some(m) => m,
                        None => {
                            return None;
                        },
                    };
                    let placev = chars_of("place)");
                    let name_chars = if has_substring(&nm, &placev) {
                        match rfind_char(&nm, '(') {
                            Some(ix) => {
                                let mut headv: Vec<char> = Vec::new();
                                let mut q: usize = 0;
                                while q < ix
                                    invariant
                                        q <= ix < nm@.len(),
                                        headv@ == nm@.subrange(0, q as int),
                                    decreases ix - q,
                                {
                                    proof {
                                        assert(nm@.subrange(0, q + 1 as int) =~= nm@.subrange(
                                            0,
                                            q as int,
                                        ).push(nm@[q as int]));
                                    }
                                    headv.push(nm[q]);
                                    q += 1;
                                }
                                proof {
                                    assert(headv@ =~= nm@.take(ix as int));
                                }
                                trim_chars(&headv)
                            },
                            None => {
                                return None;
                            },
                        }
                    } else {
                        nm
                    };
                    let p = IntlParticipant {
                        year,
                        result: medal,
                        name: string_of_chars(&name_chars),
                    };
                    proof {
                        assert(entry_result(nv, idx as int, year) matches Some(e) && e =~= p@);
                    }
                    Some(p)
                },
                _ => None,
            }
        },
        _ => None,
    }
}

/// Collects one year block's records.
fn parse_block(b: &YearBlock, out: &mut Vec<IntlParticipant>)
    ensures
        ipv_seq(final(out)@) == ipv_seq(old(out)@) + block_results(b@),
{
    let ghost before = ipv_seq(out@);
    let t = normalize_text(b.text.as_str());
    if t.as_str().unicode_len() < 4 {
        proof {
            assert(before + block_results(b@) =~= before);
        }
        return ;
    }
    let y4 = t.as_str().substring_char(0, 4);
    proof {
        assert(y4@ =~= normalize_spec(b@.text).take(4));
    }
    let year = match parse_u16(y4) {
        Some(y) => y,
        None => {
            proof {
                assert(before + block_results(b@) =~= before);
            }
            return ;
        },
    };
    let ghost nv = b.nodes@.map_values(|n: HistNode| n@);
    proof {
        assert(nv == b@.nodes);
    }
    let nn = b.nodes.len();
    let mut idx: usize = 0;
    while idx < nn
        invariant
            idx <= nn,
            nn == b.nodes@.len(),
            nv == b.nodes@.map_values(|n: HistNode| n@),
            ipv_seq(out@) == before + entries(nv, idx as int, year),
        decreases nn - idx,
    {
        match parse_entry(&b.nodes, idx, year) {
            Some(p) => {
                let ghost pv = p@;
                let ghost prev = ipv_seq(out@);
                out.push(p);
                proof {
                    assert(ipv_seq(out@) =~= prev.push(pv));
                    assert(prev + seq![pv] =~= prev.push(pv));
                }
            },
            None => {
                proof {
                    assert(ipv_seq(out@) + Seq::<IntlParticipantV>::empty() =~= ipv_seq(out@));
                }
            },
        }
        idx += 1;
    }
    proof {
        assert(entries(nv, nn as int, year) == entries(b@.nodes, b@.nodes.len() as int, year));
        assert(block_results(b@) == entries(nv, nn as int, year));
    }
}

/// Collects one section's records, block by block.
fn section_participants(s: &HistSection) -> (r: Vec<IntlParticipant>)
    ensures
        ipv_seq(r@) == section_results(s@.blocks),
{
    let mut out: Vec<IntlParticipant> = Vec::new();
    let ghost bv = s@.blocks;
    let nb = s.blocks.len();
    let mut bi: usize = 0;
    while bi < nb
        invariant
            bi <= nb,
            nb == s.blocks@.len(),
            bv == s@.blocks,
            ipv_seq(out@) == section_results(bv.take(bi as int)),
        decreases nb - bi,
    {
        proof {
            assert(bv.take(bi + 1 as int).drop_last() =~= bv.take(bi as int));
            assert(bv.take(bi + 1 as int).last() == bv[bi as int]);
            assert(bv[bi as int] == s.blocks@[bi as int]@);
        }
        parse_block(&s.blocks[bi], &mut out);
        bi += 1;
    }
    proof {
        assert(bv.take(nb as int) =~= bv);
    }
    out
}

/// Builds the two olympiads' histories from already-extracted sections:
/// each list holds what [`spec_hist`] assigns it, sorted by year with the
/// page's order kept among equal years.
pub fn history_from_sections(sections: &Vec<HistSection>) -> (r: IntlHistory)
    ensures
        sorted_by_year(r@.ioi),
        sorted_by_year(r@.egoi),
        forall|y: u16|
            #[trigger] year_filter(r@.ioi, y) == year_filter(
                spec_hist(sections_view(sections@)).0,
                y,
            ),
        forall|y: u16|
            #[trigger] year_filter(r@.egoi, y) == year_filter(
                spec_hist(sections_view(sections@)).1,
                y,
            ),
{
    let ghost sv = sections_view(sections@);
    let mut ioi: Vec<IntlParticipant> = Vec::new();
    let mut egoi: Vec<IntlParticipant> = Vec::new();
    let ns = sections.len();
    let mut si: usize = 0;
    while si < ns
        invariant
            si <= ns,
            ns == sections@.len(),
            sv == sections_view(sections@),
            ipv_seq(ioi@) == spec_hist(sv.take(si as int)).0,
            ipv_seq(egoi@) == spec_hist(sv.take(si as int)).1,
        decreases ns - si,
    {
        proof {
            assert(sv.take(si + 1 as int).drop_last() =~= sv.take(si as int));
            assert(sv.take(si + 1 as int).last() == sv[si as int]);
            assert(sv[si as int] == sections@[si as int]@);
        }
        let s = &sections[si];
        match &s.heading {
            None => {},
            Some(h) => {
                let hc = chars_of(h.as_str());
                let ioip = chars_of("IOI");
                let egoip = chars_of("EGOI");
                let is_i = has_substring(&hc, &ioip);
                let is_e = has_substring(&hc, &egoip);
                if is_i && is_e {
                } else if is_i {
                    ioi = section_participants(s);
                } else if is_e {
                    egoi = section_participants(s);
                }
            },
        }
        si += 1;
    }
    proof {
        assert(sv.take(ns as int) =~= sv);
    }
    sort_intl(&mut ioi);
    sort_intl(&mut egoi);
    IntlHistory { ioi, egoi }
}

/// Parses the history page. Never fails: unrecognized sections, blocks and
/// entries are skipped; an empty or absent page yields empty histories.
pub fn parse_history_page(html: &str) -> (r: IntlHistory)
    ensures
        sorted_by_year(r@.ioi),
        sorted_by_year(r@.egoi),
        forall|y: u16|
            #[trigger] year_filter(r@.ioi, y) == year_filter(
                spec_hist(history_sections_of(html@)).0,
                y,
            ),
        forall|y: u16|
            #[trigger] year_filter(r@.egoi, y) == year_filter(
                spec_hist(history_sections_of(html@)).1,
                y,
            ),
{
    let sections = history_sections(html);
    history_from_sections(&sections)
}

} // verus!
