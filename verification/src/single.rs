//! Matching one query against one target, without an index.

use crate::highlight::{close_marker, highlight, highlighted, open_marker};
use crate::matcher::{best_match, fuzzy_match, marks_query, Alignment, MatchResult};
use crate::subsequence::is_subsequence;
use vstd::prelude::*;

verus! {

/// What a single match hands back.
#[derive(Debug)]
pub enum SingleMatch {
    /// The target with its matched runs wrapped in the markers.
    Formatted(String),
    /// Score and positions, for the caller to interpret.
    Raw(MatchResult),
}

/// What a `SingleMatch` stands for in contracts.
pub ghost enum SingleModel {
    Formatted(Seq<char>),
    Raw(Alignment),
}

impl View for SingleMatch {
    type V = SingleModel;

    open spec fn view(&self) -> SingleModel {
        match self {
            SingleMatch::Formatted(text) => SingleModel::Formatted(text@),
            SingleMatch::Raw(found) => SingleModel::Raw(found@),
        }
    }
}

/// The model of an optional single match.
pub open spec fn single_model(answer: Option<SingleMatch>) -> Option<SingleModel> {
    match answer {
        Some(single) => Some(single@),
        None => None,
    }
}

/// The answer to a single match: nothing where `input` does not match
/// `target`; else the highlighted target or the raw match, as asked.
pub open spec fn single_outcome(input: Seq<char>, target: Seq<char>, should_format: bool) -> Option<
    SingleModel,
> {
    match best_match(input, target) {
        None => None,
        Some(found) => Some(
            if should_format {
                SingleModel::Formatted(
                    highlighted(target, found.positions, open_marker(), close_marker()),
                )
            } else {
                SingleModel::Raw(found)
            },
        ),
    }
}

/// Matches `input` against `target` once. Without a match the answer is
/// `None`. With one, it is the highlighted target where `should_format` is
/// set, and the raw match otherwise.
pub fn match_single(input: &str, target: &str, should_format: bool) -> (answer: Option<
    SingleMatch,
>)
    ensures
        answer is Some <==> is_subsequence(input@, target@),
        single_model(answer) == single_outcome(input@, target@, should_format),
        answer matches Some(SingleMatch::Raw(found)) ==> marks_query(
            found.positions@,
            input@,
            target@,
        ),
{
    match fuzzy_match(input, target) {
        None => None,
        Some(found) => {
            if should_format {
                Some(
                    SingleMatch::Formatted(
                        highlight(target, &found.positions, "<strong>", "</strong>"),
                    ),
                )
            } else {
                Some(SingleMatch::Raw(found))
            }
        },
    }
}

} // verus!
