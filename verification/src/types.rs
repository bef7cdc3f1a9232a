//! Core enumerations of the contest calendar and their total orders.
//!
//! The orders here are semantic, not alphabetical or calendar: downstream
//! chronological sorting relies on the declared variant order, so `Month`
//! deliberately places `Open` between `March` and `November`.

use vstd::prelude::*;

verus! {

use core::cmp::Ordering;
use vstd::std_specs::cmp::PartialOrdSpec;

/// Month a contest was held in, or `Open` for the season-ending open
/// contest. Six variants because the contest was once held six times a year.
#[derive(Debug, Copy, Clone, Eq, PartialEq, Structural, Hash)]
pub enum Month {
    January,
    February,
    /// The March contest from the years with six contests a season;
    /// distinct from the open contest.
    March,
    Open,
    November,
    December,
}

/// Position of a month in the declared (semantic) order.
pub open spec fn month_rank(m: Month) -> int {
    match m {
        Month::January => 0,
        Month::February => 1,
        Month::March => 2,
        Month::Open => 3,
        Month::November => 4,
        Month::December => 5,
    }
}

/// `a` comes strictly before `b` in the declared month order.
pub open spec fn month_lt(a: Month, b: Month) -> bool {
    month_rank(a) < month_rank(b)
}

/// Rank of a month as an executable value.
pub fn month_index(m: Month) -> (r: u8)
    ensures
        r as int == month_rank(m),
{
    match m {
        Month::January => 0,
        Month::February => 1,
        Month::March => 2,
        Month::Open => 3,
        Month::November => 4,
        Month::December => 5,
    }
}

impl PartialOrd for Month {
    fn partial_cmp(&self, other: &Month) -> (r: Option<Ordering>) {
        let a = month_index(*self);
        let b = month_index(*other);
        if a < b {
            Some(Ordering::Less)
        } else if a == b {
            Some(Ordering::Equal)
        } else {
            Some(Ordering::Greater)
        }
    }
}

impl vstd::std_specs::cmp::PartialOrdSpecImpl for Month {
    open spec fn obeys_partial_cmp_spec() -> bool {
        true
    }

    open spec fn partial_cmp_spec(&self, other: &Month) -> Option<Ordering> {
        if month_rank(*self) < month_rank(*other) {
            Some(Ordering::Less)
        } else if month_rank(*self) == month_rank(*other) {
            Some(Ordering::Equal)
        } else {
            Some(Ordering::Greater)
        }
    }
}

/// Months compare in their declared enumeration order, not calendar order:
/// January, February, March, Open, November, December.
pub proof fn lemma_month_declared_order()
    ensures
        month_lt(Month::January, Month::February),
        month_lt(Month::February, Month::March),
        month_lt(Month::March, Month::Open),
        month_lt(Month::Open, Month::November),
        month_lt(Month::November, Month::December),
        forall|a: Month, b: Month|
            a.partial_cmp_spec(&b) == Some(Ordering::Less) <==> month_lt(a, b),
{
}

impl Month {
    /// The short lowercase month name used in the result page URLs.
    pub fn url_name(self) -> (r: &'static str)
        ensures
            r@ == month_url_name(self),
    {
        match self {
            Month::January => "jan",
            Month::February => "feb",
            Month::March => "mar",
            Month::Open => "open",
            Month::November => "nov",
            Month::December => "dec",
        }
    }
}

/// The short lowercase month name used in the result page URLs.
pub open spec fn month_url_name(m: Month) -> Seq<char> {
    match m {
        Month::January => "jan"@,
        Month::February => "feb"@,
        Month::March => "mar"@,
        Month::Open => "open"@,
        Month::November => "nov"@,
        Month::December => "dec"@,
    }
}

/// The time slot of a contest: a calendar year and a month.
#[derive(Debug, Copy, Clone, Eq, PartialEq, Structural, Hash)]
pub struct MonthYear {
    pub year: u16,
    pub month: Month,
}

/// Lexicographic order on (year, declared month order).
pub open spec fn month_year_lt(a: MonthYear, b: MonthYear) -> bool {
    a.year < b.year || (a.year == b.year && month_lt(a.month, b.month))
}

/// Reflexive closure of [`month_year_lt`].
pub open spec fn month_year_le(a: MonthYear, b: MonthYear) -> bool {
    month_year_lt(a, b) || a == b
}

impl PartialOrd for MonthYear {
    fn partial_cmp(&self, other: &MonthYear) -> (r: Option<Ordering>) {
        if self.year < other.year {
            Some(Ordering::Less)
        } else if self.year > other.year {
            Some(Ordering::Greater)
        } else {
            self.month.partial_cmp(&other.month)
        }
    }
}

impl vstd::std_specs::cmp::PartialOrdSpecImpl for MonthYear {
    open spec fn obeys_partial_cmp_spec() -> bool {
        true
    }

    open spec fn partial_cmp_spec(&self, other: &MonthYear) -> Option<Ordering> {
        if month_year_lt(*self, *other) {
            Some(Ordering::Less)
        } else if month_year_lt(*other, *self) {
            Some(Ordering::Greater)
        } else {
            Some(Ordering::Equal)
        }
    }
}

/// Time slots order by year first; for equal years, by the declared month
/// order.
pub proof fn lemma_month_year_order(a: MonthYear, b: MonthYear)
    ensures
        a.year == b.year ==> (month_year_lt(a, b) <==> month_lt(a.month, b.month)),
        a.year < b.year ==> month_year_lt(a, b),
        a.partial_cmp_spec(&b) == Some(Ordering::Less) <==> month_year_lt(a, b),
{
}

/// Difficulty tier of a contest, ordered from Bronze up to Platinum.
#[derive(Debug, Copy, Clone, Eq, PartialEq, Structural, Hash)]
pub enum Division {
    Bronze,
    Silver,
    Gold,
    Platinum,
}

/// Position of a division in the declared order.
pub open spec fn division_rank(d: Division) -> int {
    match d {
        Division::Bronze => 0,
        Division::Silver => 1,
        Division::Gold => 2,
        Division::Platinum => 3,
    }
}

/// `a` is a strictly lower tier than `b`.
pub open spec fn division_lt(a: Division, b: Division) -> bool {
    division_rank(a) < division_rank(b)
}

/// Rank of a division as an executable value.
pub fn division_index(d: Division) -> (r: u8)
    ensures
        r as int == division_rank(d),
{
    match d {
        Division::Bronze => 0,
        Division::Silver => 1,
        Division::Gold => 2,
        Division::Platinum => 3,
    }
}

impl PartialOrd for Division {
    fn partial_cmp(&self, other: &Division) -> (r: Option<Ordering>) {
        let a = division_index(*self);
        let b = division_index(*other);
        if a < b {
            Some(Ordering::Less)
        } else if a == b {
            Some(Ordering::Equal)
        } else {
            Some(Ordering::Greater)
        }
    }
}

impl vstd::std_specs::cmp::PartialOrdSpecImpl for Division {
    open spec fn obeys_partial_cmp_spec() -> bool {
        true
    }

    open spec fn partial_cmp_spec(&self, other: &Division) -> Option<Ordering> {
        if division_rank(*self) < division_rank(*other) {
            Some(Ordering::Less)
        } else if division_rank(*self) == division_rank(*other) {
            Some(Ordering::Equal)
        } else {
            Some(Ordering::Greater)
        }
    }
}

/// Divisions order Bronze < Silver < Gold < Platinum.
pub proof fn lemma_division_order()
    ensures
        division_lt(Division::Bronze, Division::Silver),
        division_lt(Division::Silver, Division::Gold),
        division_lt(Division::Gold, Division::Platinum),
        forall|a: Division, b: Division|
            a.partial_cmp_spec(&b) == Some(Ordering::Less) <==> division_lt(a, b),
{
}

impl Division {
    /// The lowercase division name used in the result page URLs.
    pub fn url_name(self) -> (r: &'static str)
        ensures
            r@ == division_url_name(self),
    {
        match self {
            Division::Bronze => "bronze",
            Division::Silver => "silver",
            Division::Gold => "gold",
            Division::Platinum => "platinum",
        }
    }
}

/// The lowercase division name used in the result page URLs.
pub open spec fn division_url_name(d: Division) -> Seq<char> {
    match d {
        Division::Bronze => "bronze"@,
        Division::Silver => "silver"@,
        Division::Gold => "gold"@,
        Division::Platinum => "platinum"@,
    }
}

/// Graduation status of a contestant: a high-school class year, or an
/// observer (a non-student), who counts as beyond every graduating class.
#[derive(Debug, Copy, Clone, Eq, PartialEq, Structural, Hash)]
pub enum Graduation {
    HighSchool { year: u16 },
    Observer,
}

/// High-school years order by year; every high-school year comes before
/// `Observer`.
pub open spec fn graduation_lt(a: Graduation, b: Graduation) -> bool {
    match (a, b) {
        (Graduation::HighSchool { year: y1 }, Graduation::HighSchool { year: y2 }) => y1 < y2,
        (Graduation::HighSchool { .. }, Graduation::Observer) => true,
        (Graduation::Observer, _) => false,
    }
}

/// Reflexive closure of [`graduation_lt`].
pub open spec fn graduation_le(a: Graduation, b: Graduation) -> bool {
    graduation_lt(a, b) || a == b
}

impl PartialOrd for Graduation {
    fn partial_cmp(&self, other: &Graduation) -> (r: Option<Ordering>) {
        match (self, other) {
            (Graduation::HighSchool { year: y1 }, Graduation::HighSchool { year: y2 }) => {
                if y1 < y2 {
                    Some(Ordering::Less)
                } else if y1 == y2 {
                    Some(Ordering::Equal)
                } else {
                    Some(Ordering::Greater)
                }
            },
            (Graduation::HighSchool { .. }, Graduation::Observer) => Some(Ordering::Less),
            (Graduation::Observer, Graduation::HighSchool { .. }) => Some(Ordering::Greater),
            (Graduation::Observer, Graduation::Observer) => Some(Ordering::Equal),
        }
    }
}

impl vstd::std_specs::cmp::PartialOrdSpecImpl for Graduation {
    open spec fn obeys_partial_cmp_spec() -> bool {
        true
    }

    open spec fn partial_cmp_spec(&self, other: &Graduation) -> Option<Ordering> {
        if graduation_lt(*self, *other) {
            Some(Ordering::Less)
        } else if graduation_lt(*other, *self) {
            Some(Ordering::Greater)
        } else {
            Some(Ordering::Equal)
        }
    }
}

/// Graduation order: earlier class years come first, and observers come
/// after every class year; the order is reflexive on equal values.
pub proof fn lemma_graduation_order(y1: u16, y2: u16)
    ensures
        y1 < y2 ==> graduation_lt(
            Graduation::HighSchool { year: y1 },
            Graduation::HighSchool { year: y2 },
        ),
        graduation_lt(Graduation::HighSchool { year: y1 }, Graduation::Observer),
        graduation_le(Graduation::HighSchool { year: y1 }, Graduation::HighSchool { year: y1 }),
        forall|a: Graduation, b: Graduation|
            a.partial_cmp_spec(&b) == Some(Ordering::Less) <==> graduation_lt(a, b),
{
}

/// Outcome of one testcase of one problem on a standings page.
#[derive(Debug, Copy, Clone, Eq, PartialEq, Structural, Hash)]
pub enum TestcaseResult {
    Correct,
    WrongAnswer,
    Timeout,
    CompilationError,
    RunTimeError,
    Empty,
}

/// Medal (or absence) earned at one of the two international olympiads.
#[derive(Debug, Copy, Clone, Eq, PartialEq, Structural, Hash)]
pub enum IntlMedal {
    /// Qualified but could not attend for visa reasons.
    VisaIssue,
    NoMedal,
    Bronze,
    Silver,
    Gold,
}

} // verus!
