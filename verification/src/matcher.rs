//! The matcher: decides whether a query occurs in a candidate as an ordered
//! subsequence and, if it does, attaches a relevance score and the positions
//! of the matched characters.

use crate::subsequence::{
    is_subsequence, lemma_empty_is_subsequence, lemma_subsequence_has_no_more_bytes,
    lemma_subsequence_is_no_longer, occurs_in_order,
};
use crate::text::chars_of;
use sublime_fuzzy::FuzzySearch;
use vstd::prelude::*;
use vstd::utf8::encode_utf8;

verus! {

/// The outcome of matching one query against one candidate.
#[derive(Debug)]
pub struct MatchResult {
    /// Relevance; higher is better.
    pub score: isize,
    /// Character positions of the candidate that carry the match.
    pub positions: Vec<usize>,
}

/// What a `MatchResult` stands for in contracts.
pub ghost struct Alignment {
    pub score: isize,
    pub positions: Seq<usize>,
}

impl View for MatchResult {
    type V = Alignment;

    open spec fn view(&self) -> Alignment {
        Alignment { score: self.score, positions: self.positions@ }
    }
}

/// The positions rise strictly and stay below `bound`.
pub open spec fn well_placed(positions: Seq<usize>, bound: nat) -> bool {
    &&& forall|k: int| 0 <= k < positions.len() ==> #[trigger] positions[k] < bound
    &&& forall|j: int, k: int| 0 <= j < k < positions.len() ==> positions[j] < positions[k]
}

/// The model of an optional match.
pub open spec fn model_of(found: Option<MatchResult>) -> Option<Alignment> {
    match found {
        Some(m) => Some(m@),
        None => None,
    }
}

/// The model of what the scorer hands back.
pub open spec fn scored_model(scored: Option<(isize, Vec<usize>)>) -> Option<(isize, Seq<usize>)> {
    match scored {
        Some((score, positions)) => Some((score, positions@)),
        None => None,
    }
}

/// The score and matched positions that the case-sensitive scorer of
/// `sublime_fuzzy` assigns to a query and a target, or `None` where it
/// reports no match.
pub uninterp spec fn best_alignment(query: Seq<char>, target: Seq<char>) -> Option<
    (isize, Seq<usize>),
>;

/// The match that prefers nothing: score 0, no position marked.
pub open spec fn neutral() -> Alignment {
    Alignment { score: 0, positions: Seq::empty() }
}

/// The characters that `positions` pick out of `candidate`, in the order of
/// the positions.
pub open spec fn picked(candidate: Seq<char>, positions: Seq<usize>) -> Seq<char> {
    Seq::new(positions.len(), |k: int| candidate[positions[k] as int])
}

/// `positions` mark characters of `query` in `candidate`: they rise strictly
/// inside the candidate, and the characters they pick, read in order, are
/// characters of the query in the query's order.
pub open spec fn marks_query(
    positions: Seq<usize>,
    query: Seq<char>,
    candidate: Seq<char>,
) -> bool {
    well_placed(positions, candidate.len()) && is_subsequence(picked(candidate, positions), query)
}

/// The alignment that a match carries, given what the scorer found: the
/// scorer's own where its positions mark characters of the query in the
/// candidate, the neutral one where they do not or where the scorer found
/// nothing.
pub open spec fn settled(
    query: Seq<char>,
    candidate: Seq<char>,
    scored: Option<(isize, Seq<usize>)>,
) -> Alignment {
    match scored {
        Some((score, positions)) => if marks_query(positions, query, candidate) {
            Alignment { score, positions }
        } else {
            neutral()
        },
        None => neutral(),
    }
}

/// The match of `query` in `candidate`, given what the scorer found.
///
/// Whether there is a match is settled by the subsequence relation alone. The
/// empty query matches neutrally; any other query gets its score and
/// positions from the scorer.
pub open spec fn match_of(
    query: Seq<char>,
    candidate: Seq<char>,
    scored: Option<(isize, Seq<usize>)>,
) -> Option<Alignment> {
    if !is_subsequence(query, candidate) {
        None
    } else if query.len() == 0 {
        Some(neutral())
    } else {
        Some(settled(query, candidate, scored))
    }
}

/// The match of `query` in `candidate`.
pub open spec fn best_match(query: Seq<char>, candidate: Seq<char>) -> Option<Alignment> {
    match_of(query, candidate, best_alignment(query, candidate))
}

/// There is a match exactly when the query is a subsequence of the candidate
/// and no longer than it.
pub proof fn lemma_match_iff_subsequence(query: Seq<char>, candidate: Seq<char>)
    ensures
        best_match(query, candidate) is Some <==> is_subsequence(query, candidate) && query.len()
            <= candidate.len(),
{
    if is_subsequence(query, candidate) {
        lemma_subsequence_is_no_longer(query, candidate);
    }
}

/// A query longer than the candidate has no match, whether the lengths are
/// counted in characters or in bytes.
pub proof fn lemma_longer_query_never_matches(query: Seq<char>, candidate: Seq<char>)
    requires
        query.len() > candidate.len() || encode_utf8(query).len() > encode_utf8(candidate).len(),
    ensures
        best_match(query, candidate) is None,
{
    if is_subsequence(query, candidate) {
        lemma_subsequence_is_no_longer(query, candidate);
        lemma_subsequence_has_no_more_bytes(query, candidate);
    }
}

/// The empty query matches every candidate, neutrally.
pub proof fn lemma_empty_query_matches(candidate: Seq<char>)
    ensures
        best_match(Seq::<char>::empty(), candidate) == Some(neutral()),
{
    lemma_empty_is_subsequence(candidate);
}

/// Every match marks characters of the query in the candidate.
pub proof fn lemma_match_marks_query(query: Seq<char>, candidate: Seq<char>)
    ensures
        best_match(query, candidate) matches Some(found) ==> marks_query(
            found.positions,
            query,
            candidate,
        ),
{
    assert(picked(candidate, Seq::<usize>::empty()) =~= Seq::<char>::empty());
    lemma_empty_is_subsequence(query);
}

/// Runs `sublime_fuzzy::FuzzySearch::new(query, target).case_sensitive().best_match()`
/// and copies the score (`Match::score`) and the matched character indices
/// (`Match::matched_indices`) out of the result.
///
/// Trusted, not proved: what the search hands back is settled by its two
/// arguments. It is named `best_alignment`; nothing else is claimed of it.
/// The search descends one call per character of the query.
#[verifier::external_body]
fn score_alignment(query: &str, target: &str) -> (scored: Option<(isize, Vec<usize>)>)
    ensures
        scored_model(scored) == best_alignment(query@, target@),
{
    match FuzzySearch::new(query, target).case_sensitive().best_match() {
        Some(m) => Some((m.score(), m.matched_indices().copied().collect())),
        None => None,
    }
}

/// Whether `positions` rise strictly inside a candidate of `bound`
/// characters.
fn rises_within(positions: &Vec<usize>, bound: usize) -> (fine: bool)
    ensures
        fine == well_placed(positions@, bound as nat),
{
    let mut k: usize = 0;
    while k < positions.len()
        invariant
            k <= positions.len(),
            well_placed(positions@.take(k as int), bound as nat),
        decreases positions.len() - k,
    {
        let here = positions[k];
        if here >= bound || (k > 0 && positions[k - 1] >= here) {
            proof {
                if well_placed(positions@, bound as nat) {
                    if k > 0 {
                        assert(positions@[k - 1] < positions@[k as int]);
                    }
                    assert(false);
                }
            }
            return false;
        }
        proof {
            let seen = positions@.take(k as int);
            let grown = positions@.take(k + 1);
            assert forall|i: int, j: int| 0 <= i < j < grown.len() implies grown[i] < grown[j] by {
                if j < k {
                    assert(seen[i] < seen[j]);
                } else if i < k - 1 {
                    assert(seen[i] < seen[k - 1]);
                }
            }
            assert forall|i: int| 0 <= i < grown.len() implies #[trigger] grown[i] < bound by {
                if i < k {
                    assert(seen[i] < bound);
                }
            }
        }
        k = k + 1;
    }
    proof {
        assert(positions@.take(k as int) == positions@);
    }
    true
}

/// Whether `positions` mark characters of `query` in `candidate`.
pub fn marks(positions: &Vec<usize>, query: &Vec<char>, candidate: &Vec<char>) -> (fine: bool)
    ensures
        fine == marks_query(positions@, query@, candidate@),
{
    if !rises_within(positions, candidate.len()) {
        return false;
    }
    let mut chosen: Vec<char> = Vec::new();
    let mut k: usize = 0;
    while k < positions.len()
        invariant
            k <= positions.len(),
            well_placed(positions@, candidate@.len()),
            chosen@ == picked(candidate@, positions@.take(k as int)),
        decreases positions.len() - k,
    {
        chosen.push(candidate[positions[k]]);
        proof {
            assert(chosen@ =~= picked(candidate@, positions@.take(k + 1)));
        }
        k = k + 1;
    }
    proof {
        assert(positions@.take(k as int) == positions@);
    }
    occurs_in_order(&chosen, query)
}

/// Turns what the scorer found for `query` in `candidate` into the result of
/// a match: the scorer's finding where it marks characters of the query in
/// the candidate, and the neutral result otherwise.
pub fn settle_match(
    query: &Vec<char>,
    candidate: &Vec<char>,
    scored: Option<(isize, Vec<usize>)>,
) -> (found: MatchResult)
    ensures
        found@ == settled(query@, candidate@, scored_model(scored)),
        marks_query(found.positions@, query@, candidate@),
{
    proof {
        assert(picked(candidate@, Seq::<usize>::empty()) =~= Seq::<char>::empty());
        lemma_empty_is_subsequence(query@);
    }
    match scored {
        Some((score, positions)) => {
            if marks(&positions, query, candidate) {
                MatchResult { score, positions }
            } else {
                MatchResult { score: 0, positions: Vec::new() }
            }
        },
        None => MatchResult { score: 0, positions: Vec::new() },
    }
}

/// Matches `query` against `candidate`.
///
/// There is a match exactly when the characters of `query` occur in
/// `candidate` in the same order, case-sensitively; a query longer than the
/// candidate therefore never matches, and the empty query always does. The
/// positions of a match rise strictly inside the candidate and pick
/// characters of the query in the query's order.
pub fn fuzzy_match(query: &str, candidate: &str) -> (found: Option<MatchResult>)
    ensures
        found is Some <==> is_subsequence(query@, candidate@),
        model_of(found) == best_match(query@, candidate@),
        found matches Some(m) ==> marks_query(m.positions@, query@, candidate@),
{
    if query.as_bytes().len() > candidate.as_bytes().len() {
        proof {
            lemma_longer_query_never_matches(query@, candidate@);
        }
        return None;
    }
    let wanted = chars_of(query);
    let given = chars_of(candidate);
    if !occurs_in_order(&wanted, &given) {
        return None;
    }
    if wanted.len() == 0 {
        proof {
            lemma_match_marks_query(query@, candidate@);
        }
        return Some(MatchResult { score: 0, positions: Vec::new() });
    }
    Some(settle_match(&wanted, &given, score_alignment(query, candidate)))
}

} // verus!
