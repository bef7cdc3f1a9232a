//! Fetch plan and result assembly.
//!
//! One run enumerates every page to retrieve for the seasons 2012 through a
//! given upper bound: per season one standings page per month and division
//! (the schedule shrank after 2014 and a fourth division appeared in 2016),
//! one finalists page, and one history page for the whole run. The caller
//! performs the transfers and hands every page back with its status; a page
//! with a non-success status counts as absent, and an absent history page is
//! read as empty input. Contests come out sorted by time then division,
//! camps by year.

use vstd::prelude::*;

verus! {

use crate::camp::spec_parse_camp;
use crate::contest::spec_parse_contest;
use crate::dom::{tables_of, history_sections_of};
use crate::history::{sorted_by_year, spec_hist, year_filter};
use crate::records::{Camp, CampV, Contest, ContestV, UsacoData};
use crate::text::dec_str;
use crate::text::u32_to_string;
use crate::types::{Division, Month, MonthYear, division_rank, division_url_name, month_rank,
    month_url_name, month_year_lt};
use vstd::string::StringExecFns;

/// What one planned page holds once parsed.
#[derive(Debug, Copy, Clone, Eq, PartialEq, Structural, Hash)]
pub enum PageKind {
    /// A standings page for this time slot and division.
    Contest { time: MonthYear, division: Division },
    /// The finalists page of this season.
    Camp { season: u16 },
    /// The single olympiad-history page.
    History,
}

/// One page to retrieve.
#[derive(Debug, Clone)]
pub struct FetchTask {
    pub url: String,
    pub kind: PageKind,
}

/// View of a [`FetchTask`].
#[verifier::ext_equal]
pub ghost struct FetchTaskV {
    pub url: Seq<char>,
    pub kind: PageKind,
}

impl View for FetchTask {
    type V = FetchTaskV;

    open spec fn view(&self) -> FetchTaskV {
        FetchTaskV { url: self.url@, kind: self.kind }
    }
}

/// Views of a task list.
pub open spec fn tasks_view(s: Seq<FetchTask>) -> Seq<FetchTaskV> {
    s.map_values(|t: FetchTask| t@)
}

/// One retrieved page: its plan entry's kind, the response status and body.
#[derive(Debug, Clone)]
pub struct FetchedPage {
    pub kind: PageKind,
    pub status: u16,
    pub body: String,
}

/// View of a [`FetchedPage`].
#[verifier::ext_equal]
pub ghost struct FetchedPageV {
    pub kind: PageKind,
    pub status: u16,
    pub body: Seq<char>,
}

impl View for FetchedPage {
    type V = FetchedPageV;

    open spec fn view(&self) -> FetchedPageV {
        FetchedPageV { kind: self.kind, status: self.status, body: self.body@ }
    }
}

/// Views of a page list.
pub open spec fn pages_view(s: Seq<FetchedPage>) -> Seq<FetchedPageV> {
    s.map_values(|p: FetchedPage| p@)
}

/// A success response status.
pub open spec fn is_success(status: u16) -> bool {
    200 <= status < 300
}

/// The standings URL for a month, calendar year and division.
pub open spec fn contest_url(month: Month, year: u16, division: Division) -> Seq<char> {
    "https://usaco.org/current/data/"@ + month_url_name(month) + dec_str((year % 100) as nat)
        + "_"@ + division_url_name(division) + "_results.html"@
}

/// The finalists URL for a season.
pub open spec fn finalists_url(season: u16) -> Seq<char> {
    "https://usaco.org/index.php?page=finalists"@ + dec_str((season % 100) as nat)
}

/// The history page URL.
pub open spec fn history_url() -> Seq<char> {
    "https://usaco.org/index.php?page=history"@
}

/// The months a season held contests in: six through 2014, four after.
pub open spec fn season_months(season: u16) -> Seq<Month> {
    if season <= 2014 {
        seq![
            Month::November,
            Month::December,
            Month::January,
            Month::February,
            Month::March,
            Month::Open,
        ]
    } else {
        seq![Month::December, Month::January, Month::February, Month::Open]
    }
}

/// The divisions a season ran: three through 2015, four after.
pub open spec fn season_divisions(season: u16) -> Seq<Division> {
    if season <= 2015 {
        seq![Division::Bronze, Division::Silver, Division::Gold]
    } else {
        seq![Division::Bronze, Division::Silver, Division::Gold, Division::Platinum]
    }
}

/// The calendar year of a season's contest: the season's opening year for
/// November and December, its closing year otherwise.
pub open spec fn contest_year(season: u16, month: Month) -> u16 {
    if month == Month::November || month == Month::December {
        (season - 1) as u16
    } else {
        season
    }
}

/// The schedule drift the plan models: 2015 and later seasons run four
/// contests, November and March gone; 2016 and later run four divisions.
pub proof fn lemma_schedule_drift(season: u16)
    ensures
        season >= 2015 ==> season_months(season) == seq![
            Month::December,
            Month::January,
            Month::February,
            Month::Open,
        ],
        season <= 2015 ==> season_divisions(season) == seq![
            Division::Bronze,
            Division::Silver,
            Division::Gold,
        ],
        season >= 2016 ==> season_divisions(season) == seq![
            Division::Bronze,
            Division::Silver,
            Division::Gold,
            Division::Platinum,
        ],
{
}

/// One contest task.
pub open spec fn contest_task(season: u16, month: Month, division: Division) -> FetchTaskV {
    FetchTaskV {
        url: contest_url(month, contest_year(season, month), division),
        kind: PageKind::Contest {
            time: MonthYear { year: contest_year(season, month), month },
            division,
        },
    }
}

/// One month's contest tasks, over the given divisions in order.
pub open spec fn division_tasks(season: u16, month: Month, divs: Seq<Division>) -> Seq<FetchTaskV>
    decreases divs.len(),
{
    if divs.len() == 0 {
        Seq::empty()
    } else {
        division_tasks(season, month, divs.drop_last()) + seq![
            contest_task(season, month, divs.last()),
        ]
    }
}

/// One season's contest tasks, over the given months in order.
pub open spec fn month_tasks(season: u16, months: Seq<Month>) -> Seq<FetchTaskV>
    decreases months.len(),
{
    if months.len() == 0 {
        Seq::empty()
    } else {
        month_tasks(season, months.drop_last()) + division_tasks(
            season,
            months.last(),
            season_divisions(season),
        )
    }
}

/// One season's tasks: its contest pages, then its finalists page.
pub open spec fn season_tasks(season: u16) -> Seq<FetchTaskV> {
    month_tasks(season, season_months(season)) + seq![
        FetchTaskV { url: finalists_url(season), kind: PageKind::Camp { season } },
    ]
}

/// All seasons' tasks from 2012 through the bound, in season order.
pub open spec fn seasons_tasks(max_year: u16) -> Seq<FetchTaskV>
    decreases max_year,
{
    if max_year < 2012 {
        Seq::empty()
    } else {
        seasons_tasks((max_year - 1) as u16) + season_tasks(max_year)
    }
}

/// The whole plan: every season's tasks, then the one history page.
pub open spec fn spec_fetch_plan(max_year: u16) -> Seq<FetchTaskV> {
    seasons_tasks(max_year) + seq![FetchTaskV { url: history_url(), kind: PageKind::History }]
}

/// Builds a standings URL.
fn contest_url_of(month: Month, year: u16, division: Division) -> (r: String)
    ensures
        r@ == contest_url(month, year, division),
{
    let mut u = String::from_str("https://usaco.org/current/data/");
    u.append(month.url_name());
    let yy = u32_to_string((year % 100) as u32);
    u.append(yy.as_str());
    u.append("_");
    u.append(division.url_name());
    u.append("_results.html");
    proof {
        assert(u@ =~= contest_url(month, year, division));
    }
    u
}

/// Builds a finalists URL.
fn finalists_url_of(season: u16) -> (r: String)
    ensures
        r@ == finalists_url(season),
{
    let mut u = String::from_str("https://usaco.org/index.php?page=finalists");
    let yy = u32_to_string((season % 100) as u32);
    u.append(yy.as_str());
    proof {
        assert(u@ =~= finalists_url(season));
    }
    u
}

/// Enumerates every page one run retrieves for seasons 2012 through
/// `max_year` inclusive: per season, one standings page per month and
/// division of that season's schedule and one finalists page; and one
/// history page for the whole run.
pub fn fetch_plan(max_year: u16) -> (r: Vec<FetchTask>)
    ensures
        tasks_view(r@) == spec_fetch_plan(max_year),
{
    let mut out: Vec<FetchTask> = Vec::new();
    let mut season: u32 = 2012;
    proof {
        assert(seasons_tasks(2011) =~= Seq::<FetchTaskV>::empty());
        assert(tasks_view(out@) =~= Seq::<FetchTaskV>::empty());
    }
    while season <= max_year as u32
        invariant
            2012 <= season <= max_year + 1 || (max_year < 2012 && season == 2012),
            tasks_view(out@) == seasons_tasks((season - 1) as u16),
        decreases max_year + 1 - season,
    {
        let s16 = season as u16;
        proof {
            assert(s16 == season);
            assert((s16 - 1) as u16 == (season - 1) as u16);
        }
        let months: Vec<Month> = if s16 <= 2014 {
            vec![
                Month::November,
                Month::December,
                Month::January,
                Month::February,
                Month::March,
                Month::Open,
            ]
        } else {
            vec![Month::December, Month::January, Month::February, Month::Open]
        };
        let divisions: Vec<Division> = if s16 <= 2015 {
            vec![Division::Bronze, Division::Silver, Division::Gold]
        } else {
            vec![Division::Bronze, Division::Silver, Division::Gold, Division::Platinum]
        };
        proof {
            assert(months@ =~= season_months(s16));
            assert(divisions@ =~= season_divisions(s16));
        }
        let ghost base = tasks_view(out@);
        let nm = months.len();
        let mut mi: usize = 0;
        while mi < nm
            invariant
                mi <= nm,
                nm == months@.len(),
                months@ == season_months(s16),
                divisions@ == season_divisions(s16),
                2012 <= s16,
                tasks_view(out@) == base + month_tasks(s16, months@.take(mi as int)),
            decreases nm - mi,
        {
            let month = months[mi];
            let year = if matches!(month, Month::November | Month::December) {
                s16 - 1
            } else {
                s16
            };
            proof {
                assert(year == contest_year(s16, month));
                assert(months@.take(mi + 1 as int).drop_last() =~= months@.take(mi as int));
                assert(months@.take(mi + 1 as int).last() == months@[mi as int]);
            }
            let ghost mbase = tasks_view(out@);
            let nd = divisions.len();
            let mut di: usize = 0;
            while di < nd
                invariant
                    di <= nd,
                    nd == divisions@.len(),
                    mi < months@.len(),
                    month == months@[mi as int],
                    year == contest_year(s16, month),
                    divisions@ == season_divisions(s16),
                    tasks_view(out@) == mbase + division_tasks(
                        s16,
                        month,
                        divisions@.take(di as int),
                    ),
                decreases nd - di,
            {
                let division = divisions[di];
                proof {
                    assert(divisions@.take(di + 1 as int).drop_last() =~= divisions@.take(
                        di as int,
                    ));
                    assert(divisions@.take(di + 1 as int).last() == divisions@[di as int]);
                }
                let url = contest_url_of(month, year, division);
                let t = FetchTask {
                    url,
                    kind: PageKind::Contest { time: MonthYear { year, month }, division },
                };
                let ghost prev = tasks_view(out@);
                let ghost tv = t@;
                out.push(t);
                proof {
                    assert(tasks_view(out@) =~= prev.push(tv));
                    assert(prev + seq![tv] =~= prev.push(tv));
                    assert(tv =~= contest_task(s16, month, division));
                }
                di += 1;
            }
            proof {
                assert(divisions@.take(nd as int) =~= divisions@);
            }
            mi += 1;
        }
        proof {
            assert(months@.take(nm as int) =~= months@);
        }
        let url = finalists_url_of(s16);
        let t = FetchTask { url, kind: PageKind::Camp { season: s16 } };
        let ghost prev = tasks_view(out@);
        let ghost tv = t@;
        out.push(t);
        proof {
            assert(tasks_view(out@) =~= prev.push(tv));
            assert(prev + seq![tv] =~= prev.push(tv));
            assert(tv =~= FetchTaskV { url: finalists_url(s16), kind: PageKind::Camp { season: s16 } });
            assert(seasons_tasks(s16) == seasons_tasks((s16 - 1) as u16) + season_tasks(s16));
            assert(tasks_view(out@) =~= seasons_tasks((s16 - 1) as u16) + season_tasks(s16));
        }
        season += 1;
    }
    let t = FetchTask { url: String::from_str("https://usaco.org/index.php?page=history"), kind: PageKind::History };
    let ghost prev = tasks_view(out@);
    let ghost tv = t@;
    out.push(t);
    proof {
        if max_year < 2012 {
            assert(seasons_tasks(max_year) =~= Seq::<FetchTaskV>::empty());
            assert(prev =~= seasons_tasks(max_year));
        } else {
            assert(season - 1 == max_year);
        }
        assert(tasks_view(out@) =~= prev.push(tv));
        assert(prev + seq![tv] =~= prev.push(tv));
        assert(tv =~= FetchTaskV { url: history_url(), kind: PageKind::History });
        assert(tasks_view(out@) =~= spec_fetch_plan(max_year));
    }
    out
}

/// Views of a contest list.
pub open spec fn contests_view(s: Seq<Contest>) -> Seq<ContestV> {
    s.map_values(|c: Contest| c@)
}

/// Views of a camp list.
pub open spec fn camps_view(s: Seq<Camp>) -> Seq<CampV> {
    s.map_values(|c: Camp| c@)
}

/// The contests parsed from the given pages, in page order: one per
/// successfully retrieved standings page.
pub open spec fn spec_contests_of(pages: Seq<FetchedPageV>) -> Seq<ContestV>
    decreases pages.len(),
{
    if pages.len() == 0 {
        Seq::empty()
    } else {
        spec_contests_of(pages.drop_last()) + (match pages.last().kind {
            PageKind::Contest { time, division } => if is_success(pages.last().status) {
                seq![spec_parse_contest(time, division, tables_of(pages.last().body))]
            } else {
                Seq::empty()
            },
            _ => Seq::empty(),
        })
    }
}

/// The camps parsed from the given pages, in page order: one per
/// successfully retrieved finalists page.
pub open spec fn spec_camps_of(pages: Seq<FetchedPageV>) -> Seq<CampV>
    decreases pages.len(),
{
    if pages.len() == 0 {
        Seq::empty()
    } else {
        spec_camps_of(pages.drop_last()) + (match pages.last().kind {
            PageKind::Camp { season } => if is_success(pages.last().status) {
                seq![spec_parse_camp(season, tables_of(pages.last().body))]
            } else {
                Seq::empty()
            },
            _ => Seq::empty(),
        })
    }
}

/// What the history parser reads: the last retrieved history page's body, or
/// empty input when none was retrieved.
pub open spec fn history_input(pages: Seq<FetchedPageV>) -> Seq<char>
    decreases pages.len(),
{
    if pages.len() == 0 {
        Seq::empty()
    } else {
        match pages.last().kind {
            PageKind::History => if is_success(pages.last().status) {
                pages.last().body
            } else {
                Seq::empty()
            },
            _ => history_input(pages.drop_last()),
        }
    }
}

/// A single number ordering contests by time then division.
pub open spec fn contest_key(c: ContestV) -> int {
    (c.time.year * 6 + month_rank(c.time.month)) * 4 + division_rank(c.division)
}

/// The contest key orders exactly by time, then by division.
pub proof fn lemma_contest_key_order(a: ContestV, b: ContestV)
    ensures
        contest_key(a) <= contest_key(b) <==> (month_year_lt(a.time, b.time) || (a.time == b.time
            && division_rank(a.division) <= division_rank(b.division))),
{
}

/// Contest keys never decrease along the list.
pub open spec fn sorted_contests(s: Seq<ContestV>) -> bool {
    forall|a: int, b: int|
        0 <= a < b < s.len() ==> #[trigger] contest_key(s[a]) <= #[trigger] contest_key(s[b])
}

/// The contests of one key, in list order.
pub open spec fn ckey_filter(s: Seq<ContestV>, k: int) -> Seq<ContestV>
    decreases s.len(),
{
    if s.len() == 0 {
        Seq::empty()
    } else if contest_key(s.last()) == k {
        ckey_filter(s.drop_last(), k).push(s.last())
    } else {
        ckey_filter(s.drop_last(), k)
    }
}

/// Key selection splits over concatenation.
proof fn lemma_ckey_filter_add(a: Seq<ContestV>, b: Seq<ContestV>, k: int)
    ensures
        ckey_filter(a + b, k) == ckey_filter(a, k) + ckey_filter(b, k),
    decreases b.len(),
{
    if b.len() == 0 {
        assert(a + b =~= a);
        assert(ckey_filter(a, k) + ckey_filter(b, k) =~= ckey_filter(a, k));
    } else {
        lemma_ckey_filter_add(a, b.drop_last(), k);
        assert((a + b).drop_last() =~= a + b.drop_last());
        assert((a + b).last() == b.last());
        if contest_key(b.last()) == k {
            assert(ckey_filter(a, k) + ckey_filter(b.drop_last(), k).push(b.last())
                =~= (ckey_filter(a, k) + ckey_filter(b.drop_last(), k)).push(b.last()));
        }
    }
}

/// A list with no contest of the key selects nothing.
proof fn lemma_ckey_filter_absent(s: Seq<ContestV>, k: int)
    requires
        forall|m: int| 0 <= m < s.len() ==> contest_key(#[trigger] s[m]) != k,
    ensures
        ckey_filter(s, k) == Seq::<ContestV>::empty(),
    decreases s.len(),
{
    if s.len() > 0 {
        assert forall|m: int|
            0 <= m < s.drop_last().len() implies contest_key(#[trigger] s.drop_last()[m])
            != k by {
            assert(s.drop_last()[m] == s[m]);
        }
        lemma_ckey_filter_absent(s.drop_last(), k);
        assert(s.last() == s[s.len() - 1]);
    }
}

/// Selecting from one contest keeps it exactly when its key matches.
proof fn lemma_ckey_filter_one(x: ContestV, k: int)
    ensures
        ckey_filter(seq![x], k) == (if contest_key(x) == k {
            seq![x]
        } else {
            Seq::<ContestV>::empty()
        }),
{
    let s = seq![x];
    assert(s.drop_last() =~= Seq::<ContestV>::empty());
    assert(s.last() == x);
    assert(ckey_filter(s.drop_last(), k) == Seq::<ContestV>::empty());
    if contest_key(x) == k {
        assert(ckey_filter(s, k) == ckey_filter(s.drop_last(), k).push(x));
        assert(ckey_filter(s.drop_last(), k).push(x) =~= seq![x]);
    }
}

/// Moving one contest leftward across contests of strictly greater keys
/// keeps every key's sublist.
proof fn lemma_cmove_filter(s: Seq<ContestV>, i: int, p: int, k: int)
    requires
        0 <= p <= i < s.len(),
        forall|m: int| p <= m < i ==> contest_key(#[trigger] s[m]) > contest_key(s[i]),
    ensures
        ckey_filter(s.remove(i).insert(p, s[i]), k) == ckey_filter(s, k),
{
    let x = s[i];
    let a = s.take(p);
    let b = s.subrange(p, i);
    let c = s.skip(i + 1);
    assert(s =~= (a + b + seq![x]) + c);
    assert(s.remove(i).insert(p, x) =~= (a + seq![x] + b) + c);
    lemma_ckey_filter_add((a + b + seq![x]), c, k);
    lemma_ckey_filter_add(a + b, seq![x], k);
    lemma_ckey_filter_add(a, b, k);
    lemma_ckey_filter_add((a + seq![x] + b), c, k);
    lemma_ckey_filter_add(a + seq![x], b, k);
    lemma_ckey_filter_add(a, seq![x], k);
    lemma_ckey_filter_one(x, k);
    if contest_key(x) == k {
        assert forall|m: int| 0 <= m < b.len() implies contest_key(#[trigger] b[m]) != k by {
            assert(b[m] == s[p + m]);
        }
        lemma_ckey_filter_absent(b, k);
    }
    assert(ckey_filter(a, k) + ckey_filter(b, k) + ckey_filter(seq![x], k) + ckey_filter(c, k)
        =~= ckey_filter(a, k) + ckey_filter(seq![x], k) + ckey_filter(b, k) + ckey_filter(c, k));
}

/// Inserting the moved contest where its key fits keeps the prefix sorted.
proof fn lemma_cmove_sorted(s: Seq<ContestV>, i: int, p: int)
    requires
        0 <= p <= i < s.len(),
        sorted_contests(s.take(i)),
        forall|m: int| p <= m < i ==> contest_key(#[trigger] s[m]) > contest_key(s[i]),
        p > 0 ==> contest_key(s[p - 1]) <= contest_key(s[i]),
    ensures
        sorted_contests(s.remove(i).insert(p, s[i]).take(i + 1)),
        s.remove(i).insert(p, s[i]).len() == s.len(),
{
    let t = s.remove(i).insert(p, s[i]);
    assert forall|m1: int, m2: int| 0 <= m1 < m2 < i implies #[trigger] contest_key(s[m1])
        <= #[trigger] contest_key(s[m2]) by {
        assert(s.take(i)[m1] == s[m1]);
        assert(s.take(i)[m2] == s[m2]);
        assert(contest_key(s.take(i)[m1]) <= contest_key(s.take(i)[m2]));
    }
    assert forall|a: int, b: int|
        0 <= a < b < t.take(i + 1).len() implies #[trigger] contest_key(t.take(i + 1)[a])
        <= #[trigger] contest_key(t.take(i + 1)[b]) by {
        let ta = t.take(i + 1)[a];
        let tb = t.take(i + 1)[b];
        if a < p {
            assert(ta == s[a]);
        } else if a == p {
            assert(ta == s[i]);
        } else {
            assert(ta == s[a - 1]);
        }
        if b < p {
            assert(tb == s[b]);
        } else if b == p {
            assert(tb == s[i]);
        } else {
            assert(tb == s[b - 1]);
        }
        if b == p {
            assert(a < p);
            assert(contest_key(s[a]) <= contest_key(s[p - 1]));
        }
        if a == p && b > p {
            assert(contest_key(s[b - 1]) > contest_key(s[i]));
        }
        if a < p && b > p {
            if p > 0 {
                assert(contest_key(s[a]) <= contest_key(s[p - 1]));
            }
            assert(contest_key(s[b - 1]) > contest_key(s[i]));
        }
    }
}

/// The contest key as an executable value.
fn contest_key_of(c: &Contest) -> (k: u32)
    ensures
        k as int == contest_key(c@),
{
    let m = crate::types::month_index(c.time.month);
    let d = crate::types::division_index(c.division);
    (c.time.year as u32 * 6 + m as u32) * 4 + d as u32
}

/// Sorts contests by time then division, keeping the existing order among
/// equal slots.
fn sort_contests(v: &mut Vec<Contest>)
    ensures
        final(v)@.len() == old(v)@.len(),
        sorted_contests(contests_view(final(v)@)),
        forall|k: int|
            #[trigger] ckey_filter(contests_view(final(v)@), k) == ckey_filter(
                contests_view(old(v)@),
                k,
            ),
{
    let ghost orig = contests_view(v@);
    let n = v.len();
    if n == 0 {
        return ;
    }
    let mut i: usize = 1;
    while i < n
        invariant
            1 <= i <= n,
            n == v@.len(),
            sorted_contests(contests_view(v@).take(i as int)),
            forall|k: int|
                #[trigger] ckey_filter(contests_view(v@), k) == ckey_filter(orig, k),
        decreases n - i,
    {
        let key = contest_key_of(&v[i]);
        let ghost sv = contests_view(v@);
        let mut p: usize = i;
        while p > 0 && contest_key_of(&v[p - 1]) > key
            invariant
                p <= i < n,
                n == v@.len(),
                sv == contests_view(v@),
                key as int == contest_key(sv[i as int]),
                forall|m: int| p <= m < i ==> contest_key(#[trigger] sv[m]) > key,
            decreases p,
        {
            proof {
                assert(sv[p - 1] == v@[p - 1]@);
            }
            p -= 1;
        }
        let x = v.remove(i);
        v.insert(p, x);
        proof {
            let moved = sv.remove(i as int).insert(p as int, sv[i as int]);
            assert(contests_view(v@) =~= moved);
            lemma_cmove_sorted(sv, i as int, p as int);
            assert(moved.take(i + 1 as int) =~= sv.remove(i as int).insert(
                p as int,
                sv[i as int],
            ).take(i + 1));
            assert forall|k: int|
                #[trigger] ckey_filter(contests_view(v@), k) == ckey_filter(orig, k) by {
                lemma_cmove_filter(sv, i as int, p as int, k);
            }
        }
        i += 1;
    }
    proof {
        assert(contests_view(v@).take(n as int) =~= contests_view(v@));
    }
}

/// Camp years never decrease along the list.
pub open spec fn sorted_camps(s: Seq<CampV>) -> bool {
    forall|a: int, b: int| 0 <= a < b < s.len() ==> #[trigger] s[a].year <= #[trigger] s[b].year
}

/// The camps of one year, in list order.
pub open spec fn camp_year_filter(s: Seq<CampV>, y: u16) -> Seq<CampV>
    decreases s.len(),
{
    if s.len() == 0 {
        Seq::empty()
    } else if s.last().year == y {
        camp_year_filter(s.drop_last(), y).push(s.last())
    } else {
        camp_year_filter(s.drop_last(), y)
    }
}

/// Year selection splits over concatenation.
proof fn lemma_camp_filter_add(a: Seq<CampV>, b: Seq<CampV>, y: u16)
    ensures
        camp_year_filter(a + b, y) == camp_year_filter(a, y) + camp_year_filter(b, y),
    decreases b.len(),
{
    if b.len() == 0 {
        assert(a + b =~= a);
        assert(camp_year_filter(a, y) + camp_year_filter(b, y) =~= camp_year_filter(a, y));
    } else {
        lemma_camp_filter_add(a, b.drop_last(), y);
        assert((a + b).drop_last() =~= a + b.drop_last());
        assert((a + b).last() == b.last());
        if b.last().year == y {
            assert(camp_year_filter(a, y) + camp_year_filter(b.drop_last(), y).push(b.last())
                =~= (camp_year_filter(a, y) + camp_year_filter(b.drop_last(), y)).push(b.last()));
        }
    }
}

/// A list with no camp of the year selects nothing.
proof fn lemma_camp_filter_absent(s: Seq<CampV>, y: u16)
    requires
        forall|m: int| 0 <= m < s.len() ==> #[trigger] s[m].year != y,
    ensures
        camp_year_filter(s, y) == Seq::<CampV>::empty(),
    decreases s.len(),
{
    if s.len() > 0 {
        assert forall|m: int| 0 <= m < s.drop_last().len() implies #[trigger] s.drop_last()[m].year
            != y by {
            assert(s.drop_last()[m] == s[m]);
        }
        lemma_camp_filter_absent(s.drop_last(), y);
        assert(s.last() == s[s.len() - 1]);
    }
}

/// Selecting from one camp keeps it exactly when its year matches.
proof fn lemma_camp_filter_one(x: CampV, y: u16)
    ensures
        camp_year_filter(seq![x], y) == (if x.year == y {
            seq![x]
        } else {
            Seq::<CampV>::empty()
        }),
{
    let s = seq![x];
    assert(s.drop_last() =~= Seq::<CampV>::empty());
    assert(s.last() == x);
    assert(camp_year_filter(s.drop_last(), y) == Seq::<CampV>::empty());
    if x.year == y {
        assert(camp_year_filter(s, y) == camp_year_filter(s.drop_last(), y).push(x));
        assert(camp_year_filter(s.drop_last(), y).push(x) =~= seq![x]);
    }
}

/// Moving one camp leftward across camps of strictly greater years keeps
/// every year's sublist.
proof fn lemma_camp_move_filter(s: Seq<CampV>, i: int, p: int, y: u16)
    requires
        0 <= p <= i < s.len(),
        forall|m: int| p <= m < i ==> #[trigger] s[m].year > s[i].year,
    ensures
        camp_year_filter(s.remove(i).insert(p, s[i]), y) == camp_year_filter(s, y),
{
    let x = s[i];
    let a = s.take(p);
    let b = s.subrange(p, i);
    let c = s.skip(i + 1);
    assert(s =~= (a + b + seq![x]) + c);
    assert(s.remove(i).insert(p, x) =~= (a + seq![x] + b) + c);
    lemma_camp_filter_add((a + b + seq![x]), c, y);
    lemma_camp_filter_add(a + b, seq![x], y);
    lemma_camp_filter_add(a, b, y);
    lemma_camp_filter_add((a + seq![x] + b), c, y);
    lemma_camp_filter_add(a + seq![x], b, y);
    lemma_camp_filter_add(a, seq![x], y);
    lemma_camp_filter_one(x, y);
    if x.year == y {
        assert forall|m: int| 0 <= m < b.len() implies #[trigger] b[m].year != y by {
            assert(b[m] == s[p + m]);
        }
        lemma_camp_filter_absent(b, y);
    }
    assert(camp_year_filter(a, y) + camp_year_filter(b, y) + camp_year_filter(seq![x], y)
        + camp_year_filter(c, y) =~= camp_year_filter(a, y) + camp_year_filter(seq![x], y)
        + camp_year_filter(b, y) + camp_year_filter(c, y));
}

/// Inserting the moved camp where its year fits keeps the prefix sorted.
proof fn lemma_camp_move_sorted(s: Seq<CampV>, i: int, p: int)
    requires
        0 <= p <= i < s.len(),
        sorted_camps(s.take(i)),
        forall|m: int| p <= m < i ==> #[trigger] s[m].year > s[i].year,
        p > 0 ==> s[p - 1].year <= s[i].year,
    ensures
        sorted_camps(s.remove(i).insert(p, s[i]).take(i + 1)),
        s.remove(i).insert(p, s[i]).len() == s.len(),
{
    let t = s.remove(i).insert(p, s[i]);
    assert forall|m1: int, m2: int| 0 <= m1 < m2 < i implies #[trigger] s[m1].year
        <= #[trigger] s[m2].year by {
        assert(s.take(i)[m1] == s[m1]);
        assert(s.take(i)[m2] == s[m2]);
        assert(s.take(i)[m1].year <= s.take(i)[m2].year);
    }
    assert forall|a: int, b: int|
        0 <= a < b < t.take(i + 1).len() implies #[trigger] t.take(i + 1)[a].year
        <= #[trigger] t.take(i + 1)[b].year by {
        let ta = t.take(i + 1)[a];
        let tb = t.take(i + 1)[b];
        if a < p {
            assert(ta == s[a]);
        } else if a == p {
            assert(ta == s[i]);
        } else {
            assert(ta == s[a - 1]);
        }
        if b < p {
            assert(tb == s[b]);
        } else if b == p {
            assert(tb == s[i]);
        } else {
            assert(tb == s[b - 1]);
        }
        if b == p {
            assert(a < p);
            assert(s[a].year <= s[p - 1].year);
        }
        if a == p && b > p {
            assert(s[b - 1].year > s[i].year);
        }
        if a < p && b > p {
            if p > 0 {
                assert(s[a].year <= s[p - 1].year);
            }
            assert(s[b - 1].year > s[i].year);
        }
    }
}

/// Sorts camps by year, keeping the existing order among equal years.
fn sort_camps(v: &mut Vec<Camp>)
    ensures
        final(v)@.len() == old(v)@.len(),
        sorted_camps(camps_view(final(v)@)),
        forall|y: u16|
            #[trigger] camp_year_filter(camps_view(final(v)@), y) == camp_year_filter(
                camps_view(old(v)@),
                y,
            ),
{
    let ghost orig = camps_view(v@);
    let n = v.len();
    if n == 0 {
        return ;
    }
    let mut i: usize = 1;
    while i < n
        invariant
            1 <= i <= n,
            n == v@.len(),
            sorted_camps(camps_view(v@).take(i as int)),
            forall|y: u16|
                #[trigger] camp_year_filter(camps_view(v@), y) == camp_year_filter(orig, y),
        decreases n - i,
    {
        let key = v[i].year;
        let ghost sv = camps_view(v@);
        let mut p: usize = i;
        while p > 0 && v[p - 1].year > key
            invariant
                p <= i < n,
                n == v@.len(),
                sv == camps_view(v@),
                key == sv[i as int].year,
                forall|m: int| p <= m < i ==> #[trigger] sv[m].year > key,
            decreases p,
        {
            proof {
                assert(sv[p - 1] == v@[p - 1]@);
            }
            p -= 1;
        }
        let x = v.remove(i);
        v.insert(p, x);
        proof {
            let moved = sv.remove(i as int).insert(p as int, sv[i as int]);
            assert(camps_view(v@) =~= moved);
            lemma_camp_move_sorted(sv, i as int, p as int);
            assert(moved.take(i + 1 as int) =~= sv.remove(i as int).insert(
                p as int,
                sv[i as int],
            ).take(i + 1));
            assert forall|y: u16|
                #[trigger] camp_year_filter(camps_view(v@), y) == camp_year_filter(orig, y) by {
                lemma_camp_move_filter(sv, i as int, p as int, y);
            }
        }
        i += 1;
    }
    proof {
        assert(camps_view(v@).take(n as int) =~= camps_view(v@));
    }
}

/// Assembles the dataset from every retrieved page: each successful
/// standings page becomes a contest and each successful finalists page a
/// camp, pages with other statuses count as absent, and the history parser
/// reads the retrieved history page or empty input. Contests come out sorted
/// by time then division and camps by year, both keeping page order among
/// equal keys; the olympiad lists are sorted by year.
pub fn parse_all(pages: &Vec<FetchedPage>) -> (r: UsacoData)
    ensures
        sorted_contests(r@.contests),
        forall|k: int|
            #[trigger] ckey_filter(r@.contests, k) == ckey_filter(
                spec_contests_of(pages_view(pages@)),
                k,
            ),
        sorted_camps(r@.camps),
        forall|y: u16|
            #[trigger] camp_year_filter(r@.camps, y) == camp_year_filter(
                spec_camps_of(pages_view(pages@)),
                y,
            ),
        sorted_by_year(r@.intl_history.ioi),
        sorted_by_year(r@.intl_history.egoi),
        forall|y: u16|
            #[trigger] year_filter(r@.intl_history.ioi, y) == year_filter(
                spec_hist(history_sections_of(history_input(pages_view(pages@)))).0,
                y,
            ),
        forall|y: u16|
            #[trigger] year_filter(r@.intl_history.egoi, y) == year_filter(
                spec_hist(history_sections_of(history_input(pages_view(pages@)))).1,
                y,
            ),
{
    let ghost pv = pages_view(pages@);
    let mut contests: Vec<Contest> = Vec::new();
    let mut camps: Vec<Camp> = Vec::new();
    let mut hist_html = String::new();
    let np = pages.len();
    let mut i: usize = 0;
    while i < np
        invariant
            i <= np,
            np == pages@.len(),
            pv == pages_view(pages@),
            contests_view(contests@) == spec_contests_of(pv.take(i as int)),
            camps_view(camps@) == spec_camps_of(pv.take(i as int)),
            hist_html@ == history_input(pv.take(i as int)),
        decreases np - i,
    {
        proof {
            assert(pv.take(i + 1 as int).drop_last() =~= pv.take(i as int));
            assert(pv.take(i + 1 as int).last() == pv[i as int]);
            assert(pv[i as int] == pages@[i as int]@);
        }
        let page = &pages[i];
        let ok = 200 <= page.status && page.status < 300;
        match page.kind {
            PageKind::Contest { time, division } => {
                if ok {
                    let c = crate::contest::parse_contest_page(time, division, page.body.as_str());
                    let ghost cv = c@;
                    let ghost prev = contests_view(contests@);
                    contests.push(c);
                    proof {
                        assert(contests_view(contests@) =~= prev.push(cv));
                        assert(prev + seq![cv] =~= prev.push(cv));
                    }
                } else {
                    proof {
                        assert(contests_view(contests@) + Seq::<ContestV>::empty()
                            =~= contests_view(contests@));
                    }
                }
                proof {
                    assert(camps_view(camps@) + Seq::<CampV>::empty() =~= camps_view(camps@));
                }
            },
            PageKind::Camp { season } => {
                if ok {
                    let c = crate::camp::parse_camp_page(season, page.body.as_str());
                    let ghost cv = c@;
                    let ghost prev = camps_view(camps@);
                    camps.push(c);
                    proof {
                        assert(camps_view(camps@) =~= prev.push(cv));
                        assert(prev + seq![cv] =~= prev.push(cv));
                    }
                } else {
                    proof {
                        assert(camps_view(camps@) + Seq::<CampV>::empty() =~= camps_view(camps@));
                    }
                }
                proof {
                    assert(contests_view(contests@) + Seq::<ContestV>::empty() =~= contests_view(
                        contests@,
                    ));
                }
            },
            PageKind::History => {
                if ok {
                    hist_html = page.body.clone();
                } else {
                    hist_html = String::new();
                }
                proof {
                    assert(contests_view(contests@) + Seq::<ContestV>::empty() =~= contests_view(
                        contests@,
                    ));
                    assert(camps_view(camps@) + Seq::<CampV>::empty() =~= camps_view(camps@));
                }
            },
        }
        i += 1;
    }
    proof {
        assert(pv.take(np as int) =~= pv);
    }
    sort_contests(&mut contests);
    sort_camps(&mut camps);
    let intl_history = crate::history::parse_history_page(hist_html.as_str());
    UsacoData { contests, camps, intl_history }
}

} // verus!
