//! Standings page parser.
//!
//! A standings page holds one or more tables. The first row of a table is
//! its header: when its second cell does not read "Year" the table lists
//! observers, who have no graduation column. After the fixed leading columns
//! every other header cell carries a `colspan` attribute giving one
//! problem's testcase count. Any malformed row is skipped on its own; a
//! malformed header skips its whole table; the parser never fails a page.

use vstd::prelude::*;

verus! {

use crate::dom::{HeaderCellV, HtmlTable, HtmlTableV, TableRow, TableRowV, tables_of, tables_view,
    html_tables};
use crate::records::{Contest, ContestParticipant, ContestParticipantV, ContestV, subs_view};
use crate::text::{normalize_spec, normalize_text, parse_u16, parse_u16_spec, parse_u8,
    parse_u8_spec};
use crate::types::{Division, Graduation, MonthYear, TestcaseResult};
use vstd::std_specs::cmp::PartialEqSpec;
use vstd::string::StringExecFns;
use vstd::string::StrSliceExecFns;

/// Views of a string list.
pub open spec fn strs_view(s: Seq<String>) -> Seq<Seq<char>> {
    s.map_values(|x: String| x@)
}

/// Views of a participant list.
pub open spec fn cpv_seq(s: Seq<ContestParticipant>) -> Seq<ContestParticipantV> {
    s.map_values(|p: ContestParticipant| p@)
}

/// A row's data cells, normalized.
pub open spec fn norm_cells(row: TableRowV) -> Seq<Seq<char>> {
    row.data_cells.map_values(|c: Seq<char>| normalize_spec(c))
}

/// Whether a header row announces an observer table: its second cell, read
/// normalized, is missing or is not "Year".
pub open spec fn observers_of(header: TableRowV) -> bool {
    let h = header.header_cells.map_values(|c: HeaderCellV| normalize_spec(c.text));
    !(h.len() > 1 && h[1] == "Year"@)
}

/// The header cells holding per-problem testcase counts: after the fixed
/// leading columns, every other cell, starting with the second.
pub open spec fn problem_cells(cells: Seq<HeaderCellV>, skip: int) -> Seq<HeaderCellV> {
    if cells.len() >= skip {
        Seq::new(((cells.len() - skip) / 2) as nat, |j: int| cells[skip + 2 * j + 1])
    } else {
        Seq::empty()
    }
}

/// The testcase counts read from the problem header cells' `colspan`
/// attributes; nothing if any attribute is missing or unparsable.
pub open spec fn widths_of(probs: Seq<HeaderCellV>) -> Option<Seq<u8>>
    decreases probs.len(),
{
    if probs.len() == 0 {
        Some(Seq::empty())
    } else {
        match widths_of(probs.drop_last()) {
            None => None,
            Some(r) => match probs.last().colspan {
                None => None,
                Some(t) => match parse_u8_spec(t) {
                    None => None,
                    Some(w) => Some(r.push(w)),
                },
            },
        }
    }
}

/// A failing prefix fails the whole width list.
proof fn lemma_widths_of_none(probs: Seq<HeaderCellV>, k: int)
    requires
        0 <= k <= probs.len(),
        widths_of(probs.take(k)) is None,
    ensures
        widths_of(probs) is None,
    decreases probs.len(),
{
    if k == probs.len() {
        assert(probs.take(k) =~= probs);
    } else {
        assert(probs.drop_last().take(k) =~= probs.take(k));
        lemma_widths_of_none(probs.drop_last(), k);
    }
}

/// The testcase outcome a cell's text denotes, if any.
pub open spec fn tcr_spec(s: Seq<char>) -> Option<TestcaseResult> {
    if s == "*"@ {
        Some(TestcaseResult::Correct)
    } else if s == "x"@ {
        Some(TestcaseResult::WrongAnswer)
    } else if s == "t"@ {
        Some(TestcaseResult::Timeout)
    } else if s == "c"@ {
        Some(TestcaseResult::CompilationError)
    } else if s == "s"@ || s == "!"@ {
        Some(TestcaseResult::RunTimeError)
    } else if s == "e"@ {
        Some(TestcaseResult::Empty)
    } else {
        None
    }
}

/// The outcomes of a cell group; nothing if any cell is unrecognized.
pub open spec fn map_tcr(g: Seq<Seq<char>>) -> Option<Seq<TestcaseResult>>
    decreases g.len(),
{
    if g.len() == 0 {
        Some(Seq::empty())
    } else {
        match map_tcr(g.drop_last()) {
            None => None,
            Some(r) => match tcr_spec(g.last()) {
                None => None,
                Some(t) => Some(r.push(t)),
            },
        }
    }
}

/// A failing prefix fails the whole group.
proof fn lemma_map_tcr_none(g: Seq<Seq<char>>, k: int)
    requires
        0 <= k <= g.len(),
        map_tcr(g.take(k)) is None,
    ensures
        map_tcr(g) is None,
    decreases g.len(),
{
    if k == g.len() {
        assert(g.take(k) =~= g);
    } else {
        assert(g.drop_last().take(k) =~= g.take(k));
        lemma_map_tcr_none(g.drop_last(), k);
    }
}

/// Every cell of the group is textually empty.
pub open spec fn all_blank(g: Seq<Seq<char>>) -> bool
    decreases g.len(),
{
    g.len() == 0 || (g.last().len() == 0 && all_blank(g.drop_last()))
}

/// One problem's result from its consumed cells: a markup quirk leaves a
/// trailing blank cell, which is dropped; a group left all blank means no
/// submission; otherwise every cell must denote an outcome.
pub open spec fn group_result(group: Seq<Seq<char>>) -> Option<Option<Seq<TestcaseResult>>> {
    let g = if group.len() > 0 && group.last().len() == 0 {
        group.drop_last()
    } else {
        group
    };
    if all_blank(g) {
        Some(None)
    } else {
        match map_tcr(g) {
            None => None,
            Some(t) => Some(Some(t)),
        }
    }
}

/// Per-problem results read from the cursor onward: each problem consumes
/// one ignored separator cell and then its testcase cells; nothing if the
/// row runs out of cells or a group is malformed.
pub open spec fn spec_parse_problems(cells: Seq<Seq<char>>, i: int, widths: Seq<u8>) -> Option<
    Seq<Option<Seq<TestcaseResult>>>,
>
    decreases widths.len(),
{
    if widths.len() == 0 {
        Some(Seq::empty())
    } else {
        let w = widths[0] as int;
        if i + 1 + w > cells.len() {
            None
        } else {
            match group_result(cells.subrange(i + 1, i + 1 + w)) {
                None => None,
                Some(g) => match spec_parse_problems(cells, i + 1 + w, widths.skip(1)) {
                    None => None,
                    Some(rest) => Some(seq![g] + rest),
                },
            }
        }
    }
}

/// The participant one data row denotes: country, graduation year unless an
/// observer, name, score, then one result group per problem; nothing if a
/// cell is missing or unparsable.
pub open spec fn spec_parse_row(cells: Seq<Seq<char>>, observers: bool, widths: Seq<u8>) -> Option<
    ContestParticipantV,
> {
    let fixed: int = if observers {
        3
    } else {
        4
    };
    if cells.len() < fixed {
        None
    } else {
        let graduation = if observers {
            Some(Graduation::Observer)
        } else {
            match parse_u16_spec(cells[1]) {
                Some(y) => Some(Graduation::HighSchool { year: y }),
                None => None,
            }
        };
        let name = if observers {
            cells[1]
        } else {
            cells[2]
        };
        let score_txt = if observers {
            cells[2]
        } else {
            cells[3]
        };
        match graduation {
            None => None,
            Some(g) => match parse_u16_spec(score_txt) {
                None => None,
                Some(sc) => match spec_parse_problems(cells, fixed, widths) {
                    None => None,
                    Some(subs) => Some(
                        ContestParticipantV {
                            country: cells[0],
                            graduation: g,
                            name: name,
                            score: sc,
                            submission_results: subs,
                        },
                    ),
                },
            },
        }
    }
}

/// The participants of the given data rows, in order, skipping rows that do
/// not parse.
pub open spec fn rows_results(rows: Seq<TableRowV>, observers: bool, widths: Seq<u8>) -> Seq<
    ContestParticipantV,
>
    decreases rows.len(),
{
    if rows.len() == 0 {
        Seq::empty()
    } else {
        rows_results(rows.drop_last(), observers, widths) + (match spec_parse_row(
            norm_cells(rows.last()),
            observers,
            widths,
        ) {
            Some(p) => seq![p],
            None => Seq::empty(),
        })
    }
}

/// The participants one table yields: none when it has no rows or its header
/// widths do not parse; otherwise its data rows' participants.
pub open spec fn spec_parse_table(t: HtmlTableV) -> Seq<ContestParticipantV> {
    if t.rows.len() == 0 {
        Seq::empty()
    } else {
        let obs = observers_of(t.rows[0]);
        let skip: int = if obs {
            3
        } else {
            4
        };
        match widths_of(problem_cells(t.rows[0].header_cells, skip)) {
            None => Seq::empty(),
            Some(ws) => rows_results(t.rows.skip(1), obs, ws),
        }
    }
}

/// All tables' participants, in order.
pub open spec fn spec_contest_participants(ts: Seq<HtmlTableV>) -> Seq<ContestParticipantV>
    decreases ts.len(),
{
    if ts.len() == 0 {
        Seq::empty()
    } else {
        spec_contest_participants(ts.drop_last()) + spec_parse_table(ts.last())
    }
}

/// First occurrences only: a participant equal in every field to an earlier
/// one is dropped.
pub open spec fn spec_dedup(s: Seq<ContestParticipantV>) -> Seq<ContestParticipantV>
    decreases s.len(),
{
    if s.len() == 0 {
        Seq::empty()
    } else {
        let d = spec_dedup(s.drop_last());
        if s.drop_last().contains(s.last()) {
            d
        } else {
            d.push(s.last())
        }
    }
}

/// Deduplication keeps exactly the set of participants.
pub proof fn lemma_dedup_contains(s: Seq<ContestParticipantV>, x: ContestParticipantV)
    ensures
        spec_dedup(s).contains(x) <==> s.contains(x),
    decreases s.len(),
{
    if s.len() > 0 {
        lemma_dedup_contains(s.drop_last(), x);
        let d = spec_dedup(s.drop_last());
        if !s.drop_last().contains(s.last()) {
            assert forall|y: ContestParticipantV| d.push(s.last()).contains(y) <==> d.contains(y)
                || y == s.last() by {
                if d.contains(y) {
                    let j = choose|j: int| 0 <= j < d.len() && d[j] == y;
                    assert(d.push(s.last())[j] == y);
                }
                if y == s.last() {
                    assert(d.push(s.last())[d.len() as int] == y);
                }
                if d.push(s.last()).contains(y) {
                    let j = choose|j: int| 0 <= j < d.push(s.last()).len() && d.push(s.last())[j]
                        == y;
                    if j < d.len() {
                        assert(d[j] == y);
                    }
                }
            }
        }
        if s.contains(x) {
            let j = choose|j: int| 0 <= j < s.len() && s[j] == x;
            if j < s.len() - 1 {
                assert(s.drop_last()[j] == x);
            }
        }
        if s.drop_last().contains(x) {
            let j = choose|j: int| 0 <= j < s.drop_last().len() && s.drop_last()[j] == x;
            assert(s[j] == x);
        }
    }
}

/// Deduplication leaves no two participants equal in every field.
pub proof fn lemma_dedup_no_duplicates(s: Seq<ContestParticipantV>)
    ensures
        spec_dedup(s).no_duplicates(),
    decreases s.len(),
{
    if s.len() > 0 {
        lemma_dedup_no_duplicates(s.drop_last());
        if !s.drop_last().contains(s.last()) {
            lemma_dedup_contains(s.drop_last(), s.last());
            let d = spec_dedup(s.drop_last());
            assert forall|i: int, j: int|
                0 <= i < j < d.push(s.last()).len() implies d.push(s.last())[i] != d.push(
                s.last(),
            )[j] by {
                if j < d.len() {
                    assert(d[i] != d[j]);
                } else {
                    assert(d.push(s.last())[j] == s.last());
                    assert(d.push(s.last())[i] == d[i]);
                    assert(d.contains(d[i]));
                }
            }
        }
    }
}

/// Everything one standings page yields.
pub open spec fn spec_parse_contest(time: MonthYear, division: Division, ts: Seq<HtmlTableV>) -> ContestV {
    ContestV {
        time,
        division,
        participants: spec_dedup(spec_contest_participants(ts)),
    }
}

/// An observer table yields only observers.
pub proof fn lemma_observer_table(t: HtmlTableV)
    requires
        t.rows.len() > 0,
        observers_of(t.rows[0]),
    ensures
        forall|j: int|
            0 <= j < spec_parse_table(t).len() ==> #[trigger] spec_parse_table(t)[j].graduation
                == Graduation::Observer,
{
    match widths_of(problem_cells(t.rows[0].header_cells, 3)) {
        None => {},
        Some(ws) => {
            lemma_rows_graduations(t.rows.skip(1), true, ws);
        },
    }
}

/// A year table yields only high-school participants.
pub proof fn lemma_year_table(t: HtmlTableV)
    requires
        t.rows.len() > 0,
        !observers_of(t.rows[0]),
    ensures
        forall|j: int|
            0 <= j < spec_parse_table(t).len() ==> #[trigger] spec_parse_table(t)[j].graduation
                is HighSchool,
{
    match widths_of(problem_cells(t.rows[0].header_cells, 4)) {
        None => {},
        Some(ws) => {
            lemma_rows_graduations(t.rows.skip(1), false, ws);
        },
    }
}

/// Every participant of an observer row group is an observer; of a year row
/// group, a high-schooler with the year its row's second cell holds.
proof fn lemma_rows_graduations(rows: Seq<TableRowV>, observers: bool, ws: Seq<u8>)
    ensures
        forall|j: int|
            0 <= j < rows_results(rows, observers, ws).len() ==> #[trigger] rows_results(
                rows,
                observers,
                ws,
            )[j].graduation == (if observers {
                Graduation::Observer
            } else {
                rows_results(rows, observers, ws)[j].graduation
            }) && (observers || rows_results(rows, observers, ws)[j].graduation is HighSchool),
    decreases rows.len(),
{
    if rows.len() > 0 {
        lemma_rows_graduations(rows.drop_last(), observers, ws);
    }
}

/// View of one problem's optional result vector.
pub open spec fn sub1_view(o: Option<Vec<TestcaseResult>>) -> Option<Seq<TestcaseResult>> {
    match o {
        Some(t) => Some(t@),
        None => None,
    }
}

/// Reads one problem's cell group, the cells at `start .. start + w`.
fn parse_group(cells: &Vec<String>, start: usize, w: usize) -> (r: Option<
    Option<Vec<TestcaseResult>>,
>)
    requires
        start + w <= cells@.len(),
    ensures
        match r {
            Some(gopt) => group_result(
                strs_view(cells@).subrange(start as int, start + w as int),
            ) == Some(sub1_view(gopt)),
            None => group_result(strs_view(cells@).subrange(start as int, start + w as int))
                is None,
        },
{
    let ghost cseq = strs_view(cells@);
    let ghost gfull = cseq.subrange(start as int, start + w as int);
    let cl = cells.len();
    let mut group: Vec<String> = Vec::new();
    let mut j: usize = 0;
    while j < w
        invariant
            j <= w,
            start + w <= cl,
            cl == cells@.len(),
            cseq == strs_view(cells@),
            strs_view(group@) == cseq.subrange(start as int, start + j as int),
        decreases w - j,
    {
        let c = cells[start + j].clone();
        proof {
            assert(strs_view(group@.push(c)) =~= strs_view(group@).push(c@));
            assert(cseq.subrange(start as int, start + (j + 1) as int) =~= cseq.subrange(
                start as int,
                start + j as int,
            ).push(cseq[start + j]));
        }
        group.push(c);
        j += 1;
    }
    proof {
        assert(gfull =~= strs_view(group@));
    }
    if group.len() > 0 && group[group.len() - 1].as_str().is_empty() {
        proof {
            assert(strs_view(group@).last() == group@[group@.len() - 1]@);
            assert(strs_view(group@.drop_last()) =~= strs_view(group@).drop_last());
        }
        group.pop();
    }
    let ghost g = strs_view(group@);
    proof {
        assert(g == (if gfull.len() > 0 && gfull.last().len() == 0 {
            gfull.drop_last()
        } else {
            gfull
        }));
    }
    let mut all_empty = true;
    let mut j2: usize = 0;
    proof {
        assert(g.take(0) =~= Seq::<Seq<char>>::empty());
    }
    while j2 < group.len()
        invariant
            j2 <= group@.len(),
            g == strs_view(group@),
            all_empty == all_blank(g.take(j2 as int)),
        decreases group@.len() - j2,
    {
        let e = group[j2].as_str().is_empty();
        proof {
            assert(g[j2 as int] == group@[j2 as int]@);
            assert(g.take(j2 + 1 as int).drop_last() =~= g.take(j2 as int));
            assert(g.take(j2 + 1 as int).last() == g[j2 as int]);
        }
        if !e {
            all_empty = false;
        }
        j2 += 1;
    }
    proof {
        assert(g.take(group@.len() as int) =~= g);
    }
    if all_empty {
        return Some(None);
    }
    let mut t: Vec<TestcaseResult> = Vec::new();
    let mut j3: usize = 0;
    let gl = group.len();
    while j3 < gl
        invariant
            j3 <= gl,
            gl == group@.len(),
            g == strs_view(group@),
            start + w <= cseq.len(),
            gfull == cseq.subrange(start as int, start + w as int),
            cseq == strs_view(cells@),
            g == (if gfull.len() > 0 && gfull.last().len() == 0 {
                gfull.drop_last()
            } else {
                gfull
            }),
            !all_blank(g),
            map_tcr(g.take(j3 as int)) == Some(t@),
        decreases gl - j3,
    {
        match tcr_of_cell(&group[j3]) {
            Some(x) => {
                proof {
                    assert(g[j3 as int] == group@[j3 as int]@);
                    assert(g.take(j3 + 1 as int).drop_last() =~= g.take(j3 as int));
                    assert(g.take(j3 + 1 as int).last() == g[j3 as int]);
                }
                t.push(x);
            },
            None => {
                proof {
                    assert(g[j3 as int] == group@[j3 as int]@);
                    assert(g.take(j3 + 1 as int).drop_last() =~= g.take(j3 as int));
                    assert(g.take(j3 + 1 as int).last() == g[j3 as int]);
                    lemma_map_tcr_none(g, j3 + 1);
                    assert(group_result(gfull) is None);
                }
                return None;
            },
        }
        j3 += 1;
    }
    proof {
        assert(g.take(gl as int) =~= g);
        assert(map_tcr(g) == Some(t@));
        assert(!all_blank(g));
        assert(group_result(gfull) == Some(Some(t@)));
    }
    Some(Some(t))
}

/// Reads one data row against the table's mode and widths.
#[verifier::rlimit(60)]
fn parse_row(row: &TableRow, observers: bool, widths: &Vec<u8>) -> (r: Option<ContestParticipant>)
    ensures
        match r {
            Some(p) => spec_parse_row(norm_cells(row@), observers, widths@) == Some(p@),
            None => spec_parse_row(norm_cells(row@), observers, widths@) is None,
        },
{
    let ghost cseq = norm_cells(row@);
    let mut cells: Vec<String> = Vec::new();
    let nd = row.data_cells.len();
    let mut ci: usize = 0;
    while ci < nd
        invariant
            ci <= nd,
            nd == row.data_cells@.len(),
            cseq == norm_cells(row@),
            cseq.len() == nd,
            strs_view(cells@) == cseq.take(ci as int),
        decreases nd - ci,
    {
        let t = normalize_text(row.data_cells[ci].as_str());
        proof {
            assert(cseq[ci as int] == normalize_spec(row.data_cells@[ci as int]@));
            assert(strs_view(cells@.push(t)) =~= strs_view(cells@).push(t@));
            assert(cseq.take(ci + 1 as int) =~= cseq.take(ci as int).push(cseq[ci as int]));
        }
        cells.push(t);
        ci += 1;
    }
    proof {
        assert(cseq.take(nd as int) =~= cseq);
    }
    let fixed: usize = if observers {
        3
    } else {
        4
    };
    if cells.len() < fixed {
        return None;
    }
    let country = cells[0].clone();
    let graduation = if observers {
        Graduation::Observer
    } else {
        match parse_u16(cells[1].as_str()) {
            Some(y) => Graduation::HighSchool { year: y },
            None => {
                return None;
            },
        }
    };
    let name = if observers {
        cells[1].clone()
    } else {
        cells[2].clone()
    };
    let score = match parse_u16(cells[if observers {
        2
    } else {
        3
    }].as_str()) {
        Some(s) => s,
        None => {
            return None;
        },
    };
    let mut subs: Vec<Option<Vec<TestcaseResult>>> = Vec::new();
    let mut i: usize = fixed;
    let mut k: usize = 0;
    proof {
        assert(widths@.skip(0) =~= widths@);
    }
    while k < widths.len()
        invariant
            k <= widths@.len(),
            fixed <= i <= cells@.len(),
            cells@.len() <= usize::MAX,
            fixed == (if observers {
                3int
            } else {
                4int
            }),
            strs_view(cells@) == cseq,
            cseq == norm_cells(row@),
            cseq.len() == cells@.len(),
            spec_parse_problems(cseq, fixed as int, widths@) == (match spec_parse_problems(
                cseq,
                i as int,
                widths@.skip(k as int),
            ) {
                Some(rest) => Some(subs_view(subs@) + rest),
                None => None::<Seq<Option<Seq<TestcaseResult>>>>,
            }),
        decreases widths@.len() - k,
    {
        let w = widths[k] as usize;
        proof {
            assert(widths@.skip(k as int)[0] == widths@[k as int]);
            assert(widths@.skip(k as int).skip(1) =~= widths@.skip(k + 1 as int));
        }
        if w + 1 > cells.len() - i {
            return None;
        }
        let ghost old_subs = subs_view(subs@);
        let ghost gfull = cseq.subrange(i + 1 as int, i + 1 + w as int);
        let gr = parse_group(&cells, i + 1, w);
        proof {
            assert(strs_view(cells@).subrange((i + 1) as int, (i + 1) + w as int) == gfull);
        }
        let ghost gval = group_result(gfull)->Some_0;
        match gr {
            None => {
                proof {
                    assert(group_result(gfull) is None);
                    assert(spec_parse_problems(cseq, i as int, widths@.skip(k as int)) is None);
                }
                return None;
            },
            Some(gopt) => {
                proof {
                    assert(group_result(gfull) == Some(sub1_view(gopt)));
                }
                subs.push(gopt);
                proof {
                    assert(subs_view(subs@) =~= old_subs.push(gval));
                }
            },
        }
        proof {
            let rest_opt = spec_parse_problems(cseq, i + 1 + w as int, widths@.skip(k + 1 as int));
            match rest_opt {
                Some(rest) => {
                    assert(old_subs + (seq![gval] + rest) =~= old_subs.push(gval) + rest);
                },
                None => {},
            }
        }
        i = i + 1 + w;
        k += 1;
    }
    proof {
        assert(widths@.skip(widths@.len() as int) =~= Seq::<u8>::empty());
        assert(spec_parse_problems(cseq, i as int, Seq::<u8>::empty()) == Some(
            Seq::<Option<Seq<TestcaseResult>>>::empty(),
        ));
        assert(subs_view(subs@) + Seq::<Option<Seq<TestcaseResult>>>::empty() =~= subs_view(
            subs@,
        ));
    }
    let p = ContestParticipant { country, graduation, name, score, submission_results: subs };
    proof {
        let expected = spec_parse_row(cseq, observers, widths@);
        assert(expected matches Some(e) && e =~= p@);
    }
    Some(p)
}

/// The outcome one cell denotes, if any.
fn tcr_of_cell(s: &String) -> (r: Option<TestcaseResult>)
    ensures
        r == tcr_spec(s@),
{
    proof {
        reveal_strlit("*");
        reveal_strlit("x");
        reveal_strlit("t");
        reveal_strlit("c");
        reveal_strlit("s");
        reveal_strlit("!");
        reveal_strlit("e");
    }
    if s.as_str().unicode_len() == 1 {
        let c = s.as_str().get_char(0);
        proof {
            assert(s@ =~= seq![s@[0]]);
        }
        match c {
            '*' => {
                proof {
                    assert(s@ =~= "*"@);
                }
                Some(TestcaseResult::Correct)
            },
            'x' => {
                proof {
                    assert(s@ =~= "x"@);
                }
                Some(TestcaseResult::WrongAnswer)
            },
            't' => {
                proof {
                    assert(s@ =~= "t"@);
                }
                Some(TestcaseResult::Timeout)
            },
            'c' => {
                proof {
                    assert(s@ =~= "c"@);
                }
                Some(TestcaseResult::CompilationError)
            },
            's' => {
                proof {
                    assert(s@ =~= "s"@);
                }
                Some(TestcaseResult::RunTimeError)
            },
            '!' => {
                proof {
                    assert(s@ =~= "!"@);
                }
                Some(TestcaseResult::RunTimeError)
            },
            'e' => {
                proof {
                    assert(s@ =~= "e"@);
                }
                Some(TestcaseResult::Empty)
            },
            _ => None,
        }
    } else {
        None
    }
}

/// Reads a table's header row: its observer mode and, if they parse, its
/// per-problem testcase counts.
fn parse_header(header: &TableRow) -> (r: (bool, Option<Vec<u8>>))
    ensures
        r.0 == observers_of(header@),
        match r.1 {
            Some(ws) => widths_of(
                problem_cells(
                    header@.header_cells,
                    if r.0 {
                        3int
                    } else {
                        4int
                    },
                ),
            ) == Some(ws@),
            None => widths_of(
                problem_cells(
                    header@.header_cells,
                    if r.0 {
                        3int
                    } else {
                        4int
                    },
                ),
            ) is None,
        },
{
    let nh = header.header_cells.len();
    let observers = if nh > 1 {
        let t = normalize_text(header.header_cells[1].text.as_str());
        let year = String::from_str("Year");
        proof {
            let h = header@.header_cells.map_values(|c: HeaderCellV| normalize_spec(c.text));
            assert(h[1] == normalize_spec(header@.header_cells[1].text));
            assert(header@.header_cells[1].text == header.header_cells@[1].text@);
        }
        !(t == year)
    } else {
        true
    };
    proof {
        let h = header@.header_cells.map_values(|c: HeaderCellV| normalize_spec(c.text));
        assert(h.len() == nh);
        assert(observers == observers_of(header@));
    }
    let skip: usize = if observers {
        3
    } else {
        4
    };
    let ghost pc = problem_cells(header@.header_cells, skip as int);
    let count: usize = if nh > skip {
        (nh - skip) / 2
    } else {
        0
    };
    proof {
        assert(pc.len() == count);
    }
    let mut ws: Vec<u8> = Vec::new();
    let mut j: usize = 0;
    while j < count
        invariant
            j <= count,
            count == pc.len(),
            pc == problem_cells(header@.header_cells, skip as int),
            observers == observers_of(header@),
            skip == (if observers {
                3int
            } else {
                4int
            }),
            nh == header.header_cells@.len(),
            count > 0 ==> skip + 2 * count <= nh,
            widths_of(pc.take(j as int)) == Some(ws@),
        decreases count - j,
    {
        let idx = skip + 2 * j + 1;
        proof {
            assert(pc[j as int] == header@.header_cells[idx as int]);
            assert(pc.take(j + 1 as int).drop_last() =~= pc.take(j as int));
            assert(pc.take(j + 1 as int).last() == pc[j as int]);
        }
        let wopt = match &header.header_cells[idx].colspan {
            Some(cstr) => parse_u8(cstr.as_str()),
            None => None,
        };
        match wopt {
            Some(w) => {
                ws.push(w);
            },
            None => {
                proof {
                    lemma_widths_of_none(pc, j + 1);
                }
                return (observers, None);
            },
        }
        j += 1;
    }
    proof {
        assert(pc.take(count as int) =~= pc);
    }
    (observers, Some(ws))
}

/// Membership across a push.
proof fn lemma_contains_push(
    s: Seq<ContestParticipantV>,
    e: ContestParticipantV,
    x: ContestParticipantV,
)
    ensures
        s.push(e).contains(x) <==> s.contains(x) || x == e,
{
    if s.contains(x) {
        let j = choose|j: int| 0 <= j < s.len() && s[j] == x;
        assert(s.push(e)[j] == x);
    }
    if x == e {
        assert(s.push(e)[s.len() as int] == x);
    }
    if s.push(e).contains(x) {
        let j = choose|j: int| 0 <= j < s.push(e).len() && s.push(e)[j] == x;
        if j < s.len() {
            assert(s[j] == x);
        }
    }
}

/// Keeps the first occurrence of each participant, in order.
fn dedup_participants(v: Vec<ContestParticipant>) -> (r: Vec<ContestParticipant>)
    ensures
        cpv_seq(r@) == spec_dedup(cpv_seq(v@)),
{
    let ghost full = cpv_seq(v@);
    let mut out: Vec<ContestParticipant> = Vec::new();
    let mut rest = v;
    proof {
        assert(cpv_seq(rest@) =~= full.skip(0));
        assert(full.take(0) =~= Seq::<ContestParticipantV>::empty());
    }
    while rest.len() > 0
        invariant
            rest@.len() <= full.len(),
            cpv_seq(rest@) == full.skip(full.len() - rest@.len()),
            cpv_seq(out@) == spec_dedup(full.take(full.len() - rest@.len())),
            forall|x: ContestParticipantV|
                cpv_seq(out@).contains(x) <==> full.take(full.len() - rest@.len()).contains(x),
        decreases rest@.len(),
    {
        let ghost done = full.len() - rest@.len();
        let ghost old_rest = cpv_seq(rest@);
        let p = rest.remove(0);
        proof {
            assert(old_rest[0] == full[done]);
            assert(p@ == old_rest[0]);
            assert(cpv_seq(rest@) =~= old_rest.skip(1));
            assert(old_rest.skip(1) =~= full.skip(done + 1));
            assert(full.take(done + 1).drop_last() =~= full.take(done));
            assert(full.take(done + 1).last() == full[done]);
        }
        let keep = !contains_participant(&out, &p);
        let ghost prev_out = cpv_seq(out@);
        let ghost pv = p@;
        if keep {
            out.push(p);
            proof {
                assert(cpv_seq(out@) =~= prev_out.push(pv));
            }
        }
        proof {
            assert forall|x: ContestParticipantV|
                cpv_seq(out@).contains(x) <==> full.take(done + 1).contains(x) by {
                lemma_contains_push(prev_out, pv, x);
                lemma_contains_push(full.take(done), full[done], x);
                assert(full.take(done + 1) =~= full.take(done).push(full[done]));
            }
        }
    }
    proof {
        assert(full.take(full.len() as int) =~= full);
    }
    out
}

/// Whether an equal participant is already present.
fn contains_participant(v: &Vec<ContestParticipant>, p: &ContestParticipant) -> (r: bool)
    ensures
        r == cpv_seq(v@).contains(p@),
{
    let n = v.len();
    let mut j: usize = 0;
    while j < n
        invariant
            j <= n,
            n == v@.len(),
            forall|m: int| 0 <= m < j ==> cpv_seq(v@)[m] != p@,
        decreases n - j,
    {
        let e = &v[j];
        if e.eq(p) {
            proof {
                assert(cpv_seq(v@)[j as int] == p@);
            }
            return true;
        }
        j += 1;
    }
    proof {
        if cpv_seq(v@).contains(p@) {
            let m = choose|m: int| 0 <= m < cpv_seq(v@).len() && cpv_seq(v@)[m] == p@;
            assert(false);
        }
    }
    false
}

/// Builds a contest from already-extracted tables: every parsable data row
/// of every well-headed table, first occurrences only.
pub fn contest_from_tables(time: MonthYear, division: Division, tables: &Vec<HtmlTable>) -> (r:
    Contest)
    ensures
        r@ == spec_parse_contest(time, division, tables_view(tables@)),
{
    let ghost tv = tables_view(tables@);
    let mut acc: Vec<ContestParticipant> = Vec::new();
    let nt = tables.len();
    let mut ti: usize = 0;
    while ti < nt
        invariant
            ti <= nt,
            nt == tables@.len(),
            tv == tables_view(tables@),
            cpv_seq(acc@) == spec_contest_participants(tv.take(ti as int)),
        decreases nt - ti,
    {
        let t = &tables[ti];
        proof {
            assert(tv[ti as int] == t@);
            assert(tv.take(ti + 1 as int).drop_last() =~= tv.take(ti as int));
            assert(tv.take(ti + 1 as int).last() == tv[ti as int]);
        }
        let nr = t.rows.len();
        if nr > 0 {
            let (observers, wso) = parse_header(&t.rows[0]);
            proof {
                assert(t@.rows[0] == t.rows@[0]@);
            }
            match wso {
                None => {
                    proof {
                        assert(spec_parse_table(t@) =~= Seq::<ContestParticipantV>::empty());
                        assert(cpv_seq(acc@) + Seq::<ContestParticipantV>::empty() =~= cpv_seq(
                            acc@,
                        ));
                    }
                },
                Some(ws) => {
                    let ghost drows = t@.rows.skip(1);
                    let ghost before = cpv_seq(acc@);
                    let mut ri: usize = 1;
                    while ri < nr
                        invariant
                            1 <= ri <= nr,
                            nr == t.rows@.len(),
                            t == &tables[ti as int],
                            drows == t@.rows.skip(1),
                            drows.len() == nr - 1,
                            cpv_seq(acc@) == before + rows_results(
                                drows.take(ri - 1),
                                observers,
                                ws@,
                            ),
                        decreases nr - ri,
                    {
                        proof {
                            assert(drows[ri - 1] == t@.rows[ri as int]);
                            assert(t@.rows[ri as int] == t.rows@[ri as int]@);
                            assert(drows.take(ri as int).drop_last() =~= drows.take(ri - 1));
                            assert(drows.take(ri as int).last() == drows[ri - 1]);
                        }
                        match parse_row(&t.rows[ri], observers, &ws) {
                            Some(p) => {
                                let ghost pv = p@;
                                let ghost prev = cpv_seq(acc@);
                                acc.push(p);
                                proof {
                                    assert(cpv_seq(acc@) =~= prev.push(pv));
                                    assert(prev + seq![pv] =~= prev.push(pv));
                                }
                            },
                            None => {
                                proof {
                                    assert(cpv_seq(acc@) + Seq::<
                                        ContestParticipantV,
                                    >::empty() =~= cpv_seq(acc@));
                                }
                            },
                        }
                        ri += 1;
                    }
                    proof {
                        assert(drows.take(nr - 1) =~= drows);
                        assert(spec_parse_table(t@) == rows_results(drows, observers, ws@));
                    }
                },
            }
        } else {
            proof {
                assert(spec_parse_table(t@) =~= Seq::<ContestParticipantV>::empty());
                assert(cpv_seq(acc@) + Seq::<ContestParticipantV>::empty() =~= cpv_seq(acc@));
            }
        }
        ti += 1;
    }
    proof {
        assert(tv.take(nt as int) =~= tv);
    }
    let ghost accv = cpv_seq(acc@);
    let deduped = dedup_participants(acc);
    let r = Contest { time, division, participants: deduped };
    proof {
        assert(r@ =~= spec_parse_contest(time, division, tv));
    }
    r
}

/// Parses one standings page: every parsable data row of every well-headed
/// table in its markup, first occurrences only. Never fails: malformed rows
/// and tables are skipped.
pub fn parse_contest_page(time: MonthYear, division: Division, html: &str) -> (r: Contest)
    ensures
        r@ == spec_parse_contest(time, division, tables_of(html@)),
{
    let tables = html_tables(html);
    contest_from_tables(time, division, &tables)
}

} // verus!
