//! Typed records extracted from the result pages, with their mathematical
//! views.
//!
//! Every record type views as a ghost struct over `Seq<char>` and plain
//! values, so that parser and consolidator contracts can state exactly which
//! records come out of which input.

use vstd::prelude::*;

verus! {

use crate::types::{Division, Graduation, IntlMedal, MonthYear, TestcaseResult};

/// One row of a standings page: a contestant and their per-problem results.
#[derive(Debug, Clone, Hash)]
pub struct ContestParticipant {
    pub country: String,
    pub graduation: Graduation,
    pub name: String,
    pub score: u16,
    /// Results of the last submission per problem, in problem order; absent
    /// where the contestant never submitted to that problem.
    pub submission_results: Vec<Option<Vec<TestcaseResult>>>,
}

/// View of a [`ContestParticipant`].
#[verifier::ext_equal]
pub ghost struct ContestParticipantV {
    pub country: Seq<char>,
    pub graduation: Graduation,
    pub name: Seq<char>,
    pub score: u16,
    pub submission_results: Seq<Option<Seq<TestcaseResult>>>,
}

/// View of a submission-results vector.
pub open spec fn subs_view(v: Seq<Option<Vec<TestcaseResult>>>) -> Seq<Option<Seq<TestcaseResult>>> {
    v.map_values(
        |o: Option<Vec<TestcaseResult>>|
            match o {
                Some(t) => Some(t@),
                None => None,
            },
    )
}

impl View for ContestParticipant {
    type V = ContestParticipantV;

    open spec fn view(&self) -> ContestParticipantV {
        ContestParticipantV {
            country: self.country@,
            graduation: self.graduation,
            name: self.name@,
            score: self.score,
            submission_results: subs_view(self.submission_results@),
        }
    }
}

/// Equality of testcase-result vectors, by contents.
fn eq_tcr_vec(a: &Vec<TestcaseResult>, b: &Vec<TestcaseResult>) -> (r: bool)
    ensures
        r == (a@ == b@),
{
    if a.len() != b.len() {
        return false;
    }
    let n = a.len();
    let mut i: usize = 0;
    while i < n
        invariant
            i <= n,
            n == a@.len() == b@.len(),
            forall|k: int| 0 <= k < i ==> a@[k] == b@[k],
        decreases n - i,
    {
        if a[i] != b[i] {
            return false;
        }
        i += 1;
    }
    proof {
        assert(a@ =~= b@);
    }
    true
}

/// Equality of per-problem submission results, by contents.
fn eq_submissions(a: &Vec<Option<Vec<TestcaseResult>>>, b: &Vec<Option<Vec<TestcaseResult>>>) -> (r:
    bool)
    ensures
        r == (subs_view(a@) == subs_view(b@)),
{
    if a.len() != b.len() {
        assert(subs_view(a@).len() != subs_view(b@).len());
        return false;
    }
    let n = a.len();
    let mut i: usize = 0;
    while i < n
        invariant
            i <= n,
            n == a@.len() == b@.len(),
            forall|k: int| 0 <= k < i ==> subs_view(a@)[k] == subs_view(b@)[k],
        decreases n - i,
    {
        let same = match (&a[i], &b[i]) {
            (Some(x), Some(y)) => eq_tcr_vec(x, y),
            (None, None) => true,
            _ => false,
        };
        if !same {
            assert(subs_view(a@)[i as int] != subs_view(b@)[i as int]);
            return false;
        }
        i += 1;
    }
    proof {
        assert(subs_view(a@) =~= subs_view(b@));
    }
    true
}

impl PartialEq for ContestParticipant {
    /// Structural equality over every field; deduplication relies on it.
    fn eq(&self, other: &ContestParticipant) -> (r: bool) {
        self.country == other.country && self.graduation == other.graduation && self.name
            == other.name && self.score == other.score && eq_submissions(
            &self.submission_results,
            &other.submission_results,
        )
    }
}

impl vstd::std_specs::cmp::PartialEqSpecImpl for ContestParticipant {
    open spec fn obeys_eq_spec() -> bool {
        true
    }

    open spec fn eq_spec(&self, other: &ContestParticipant) -> bool {
        self@ == other@
    }
}

impl Eq for ContestParticipant {

}

/// Everything read from one standings page.
#[derive(Debug, Clone)]
pub struct Contest {
    pub time: MonthYear,
    pub division: Division,
    pub participants: Vec<ContestParticipant>,
}

/// View of a [`Contest`].
#[verifier::ext_equal]
pub ghost struct ContestV {
    pub time: MonthYear,
    pub division: Division,
    pub participants: Seq<ContestParticipantV>,
}

impl View for Contest {
    type V = ContestV;

    open spec fn view(&self) -> ContestV {
        ContestV {
            time: self.time,
            division: self.division,
            participants: self.participants@.map_values(|p: ContestParticipant| p@),
        }
    }
}

/// One invitee on a training-camp announcement page.
#[derive(Debug, Clone)]
pub struct CampParticipant {
    pub graduation_year: u16,
    pub name: String,
    pub school: String,
    pub state: String,
    /// Whether the invitation was for the all-girls olympiad squad.
    pub is_egoi: bool,
}

/// View of a [`CampParticipant`].
#[verifier::ext_equal]
pub ghost struct CampParticipantV {
    pub graduation_year: u16,
    pub name: Seq<char>,
    pub school: Seq<char>,
    pub state: Seq<char>,
    pub is_egoi: bool,
}

impl View for CampParticipant {
    type V = CampParticipantV;

    open spec fn view(&self) -> CampParticipantV {
        CampParticipantV {
            graduation_year: self.graduation_year,
            name: self.name@,
            school: self.school@,
            state: self.state@,
            is_egoi: self.is_egoi,
        }
    }
}

/// Everything read from one finalists page.
#[derive(Debug, Clone)]
pub struct Camp {
    /// Calendar year the camp was held in: the season's closing year, so
    /// the camp of the 2023-24 season carries 2024.
    pub year: u16,
    pub participants: Vec<CampParticipant>,
}

/// View of a [`Camp`].
#[verifier::ext_equal]
pub ghost struct CampV {
    pub year: u16,
    pub participants: Seq<CampParticipantV>,
}

impl View for Camp {
    type V = CampV;

    open spec fn view(&self) -> CampV {
        CampV {
            year: self.year,
            participants: self.participants@.map_values(|p: CampParticipant| p@),
        }
    }
}

/// One medal line of the international-history page.
#[derive(Debug, Clone)]
pub struct IntlParticipant {
    pub year: u16,
    pub result: IntlMedal,
    pub name: String,
}

/// View of an [`IntlParticipant`].
#[verifier::ext_equal]
pub ghost struct IntlParticipantV {
    pub year: u16,
    pub result: IntlMedal,
    pub name: Seq<char>,
}

impl View for IntlParticipant {
    type V = IntlParticipantV;

    open spec fn view(&self) -> IntlParticipantV {
        IntlParticipantV { year: self.year, result: self.result, name: self.name@ }
    }
}

impl IntlParticipant {
    /// A copy equal to this record.
    pub fn duplicate(&self) -> (r: IntlParticipant)
        ensures
            r == *self,
    {
        IntlParticipant { year: self.year, result: self.result, name: self.name.clone() }
    }
}

/// Medal histories of the two olympiads, each sorted by year with document
/// order kept among equal years.
#[derive(Debug, Clone)]
pub struct IntlHistory {
    pub ioi: Vec<IntlParticipant>,
    pub egoi: Vec<IntlParticipant>,
}

/// View of an [`IntlHistory`].
#[verifier::ext_equal]
pub ghost struct IntlHistoryV {
    pub ioi: Seq<IntlParticipantV>,
    pub egoi: Seq<IntlParticipantV>,
}

impl View for IntlHistory {
    type V = IntlHistoryV;

    open spec fn view(&self) -> IntlHistoryV {
        IntlHistoryV {
            ioi: self.ioi@.map_values(|p: IntlParticipant| p@),
            egoi: self.egoi@.map_values(|p: IntlParticipant| p@),
        }
    }
}

/// The whole extracted dataset: contests sorted by time then division, camps
/// sorted by year, and the olympiad histories.
#[derive(Debug, Clone)]
pub struct UsacoData {
    pub contests: Vec<Contest>,
    pub camps: Vec<Camp>,
    pub intl_history: IntlHistory,
}

/// View of the [`UsacoData`] aggregate.
#[verifier::ext_equal]
pub ghost struct UsacoDataV {
    pub contests: Seq<ContestV>,
    pub camps: Seq<CampV>,
    pub intl_history: IntlHistoryV,
}

impl View for UsacoData {
    type V = UsacoDataV;

    open spec fn view(&self) -> UsacoDataV {
        UsacoDataV {
            contests: self.contests@.map_values(|c: Contest| c@),
            camps: self.camps@.map_values(|c: Camp| c@),
            intl_history: self.intl_history@,
        }
    }
}

} // verus!
