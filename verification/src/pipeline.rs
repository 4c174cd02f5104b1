//! From a raw completion to labels.

use crate::extract::{candidates, extract_candidates};
use crate::locate::{locate_answer, located, marker};
use crate::normalize::{normalize, normalized};
use crate::taxonomy::Taxonomy;
use crate::text::contains;
use vstd::prelude::*;

verus! {

/// The labels that the raw completion `raw` gives under `taxonomy`: those of the candidates
/// in its answer, and none if it has no answer.
pub open spec fn labels_of(raw: Seq<char>, taxonomy: Seq<Seq<char>>) -> Seq<Seq<char>> {
    match located(raw) {
        Some(answer) => normalized(candidates(answer), taxonomy),
        None => Seq::empty(),
    }
}

/// Returns the labels that the raw completion `input` gives under `taxonomy`. The answer is
/// located in the completion, the candidates are taken out of the answer, and the candidates
/// are normalized. A completion without an answer gives no labels, as does an answer without
/// candidates.
///
/// Names are matched and labels are told apart ignoring the case of the ASCII letters only,
/// and a label that is no name of the taxonomy comes back with its ASCII letters in lower
/// case: letters outside ASCII are left as they are, so `ÉTÉ` gives `ÉtÉ` and is not taken
/// for `été`.
pub fn parse_labels_from_response(input: &str, taxonomy: &Taxonomy) -> (labels: Vec<String>)
    ensures
        labels.deep_view() == labels_of(input@, taxonomy@),
        !contains(input@, marker()) ==> labels@.len() == 0,
{
    match locate_answer(input) {
        Ok(answer) => {
            let found = extract_candidates(answer.as_str());
            normalize(&found, taxonomy)
        },
        Err(_) => {
            let none: Vec<String> = Vec::new();
            proof {
                assert(none.deep_view() =~= Seq::<Seq<char>>::empty());
            }
            none
        },
    }
}

/// How the labels of an issue are put on its report.
#[derive(Debug, PartialEq, Eq)]
pub struct ReportPlan {
    /// The label that the report is created with.
    pub first: String,
    /// The labels that are put on the report after that, one at a time.
    pub rest: Vec<String>,
    /// Whether the run ends with this report. It does: a run labels one issue at most.
    pub done: bool,
}

/// Plans the report of an issue with the labels `labels`. Without labels there is no plan:
/// nothing is put on any report, and the run goes on with the next issue. With labels, the
/// report is created with the last of them, the others follow in order, and the run ends
/// with this report, whether or not labels follow.
pub fn plan_report(labels: Vec<String>) -> (plan: Option<ReportPlan>)
    ensures
        match plan {
            None => labels@.len() == 0,
            Some(report) => {
                &&& labels@.len() > 0
                &&& report.first@ == labels@.last()@
                &&& report.rest@ == labels@.drop_last()
                &&& report.done
            },
        },
{
    let mut rest = labels;
    match rest.pop() {
        Some(first) => Some(ReportPlan { first, rest, done: true }),
        None => None,
    }
}

} // verus!
