//! The search index: an append-only sample space and the search over it.

use crate::highlight::{close_marker, highlight, highlighted, open_marker};
use crate::matcher::{
    best_match, fuzzy_match, lemma_empty_query_matches, marks_query, model_of, neutral, Alignment,
    MatchResult,
};
use crate::ranking::{lemma_ranked_keeps_hits, rank, ranked, ranks_above, RankedHit};
use vstd::prelude::*;

verus! {

/// The length of `text` in bytes.
pub open spec fn byte_length(text: Seq<char>) -> usize {
    vstd::utf8::encode_utf8(text).len() as usize
}

/// The texts that a list of strings holds.
pub open spec fn texts_of(strings: Seq<String>) -> Seq<Seq<char>> {
    Seq::new(strings.len(), |i: int| strings[i]@)
}

/// The models of a list of optional matches.
pub open spec fn models_of(found: Seq<Option<MatchResult>>) -> Seq<Option<Alignment>> {
    Seq::new(found.len(), |i: int| model_of(found[i]))
}

/// The match of `query` in each sample, in the order of the samples.
pub open spec fn matches_of(samples: Seq<Seq<char>>, query: Seq<char>) -> Seq<Option<Alignment>> {
    Seq::new(samples.len(), |i: int| best_match(query, samples[i]))
}

/// The hits among the first `upto` samples, in the order of the samples:
/// one for each sample with a match.
pub open spec fn hits_among(
    samples: Seq<Seq<char>>,
    found: Seq<Option<Alignment>>,
    upto: int,
) -> Seq<RankedHit>
    decreases upto,
{
    if upto <= 0 {
        Seq::empty()
    } else {
        let before = hits_among(samples, found, upto - 1);
        let at = upto - 1;
        if at < samples.len() && at < found.len() && found[at] is Some {
            before.push(
                RankedHit {
                    index: at as usize,
                    length: byte_length(samples[at]),
                    score: found[at]->0.score,
                },
            )
        } else {
            before
        }
    }
}

/// The hits among all samples.
pub open spec fn hits_of(samples: Seq<Seq<char>>, found: Seq<Option<Alignment>>) -> Seq<RankedHit> {
    hits_among(samples, found, samples.len() as int)
}

/// What is reported for a hit: the sample as it is, and the sample with its
/// matched runs wrapped in the markers.
pub open spec fn rendering(
    samples: Seq<Seq<char>>,
    found: Seq<Option<Alignment>>,
    hit: RankedHit,
) -> (Seq<char>, Seq<char>) {
    let sample = samples[hit.index as int];
    (sample, highlighted(sample, found[hit.index as int]->0.positions, open_marker(), close_marker()))
}

/// What a search reports.
pub ghost struct Outcome {
    /// How many samples matched.
    pub count: nat,
    /// The best hits, rendered, best first.
    pub results: Seq<(Seq<char>, Seq<char>)>,
}

/// The outcome of a search, given the match of each sample: all hits are
/// counted, put in rank order and cut to the first `limit`, and each hit that
/// is left is rendered.
pub open spec fn outcome_of(
    samples: Seq<Seq<char>>,
    found: Seq<Option<Alignment>>,
    limit: nat,
) -> Outcome {
    let hits = hits_of(samples, found);
    let order = ranked(hits);
    let kept = if limit < hits.len() {
        limit
    } else {
        hits.len()
    };
    Outcome {
        count: hits.len(),
        results: Seq::new(kept, |r: int| rendering(samples, found, order[r])),
    }
}

/// The outcome of searching `samples` for `query`, keeping `limit` results.
pub open spec fn search_outcome(samples: Seq<Seq<char>>, query: Seq<char>, limit: nat) -> Outcome {
    outcome_of(samples, matches_of(samples, query), limit)
}

/// The result of a search.
#[derive(Debug)]
pub struct SearchResults {
    /// How many samples matched, before the list was cut.
    pub count: usize,
    /// Pairs of a sample and its highlighted form, best first.
    pub results: Vec<(String, String)>,
}

impl View for SearchResults {
    type V = Outcome;

    open spec fn view(&self) -> Outcome {
        Outcome {
            count: self.count as nat,
            results: Seq::new(
                self.results@.len(),
                |r: int| (self.results@[r].0@, self.results@[r].1@),
            ),
        }
    }
}

/// An append-only collection of candidate strings that can be searched.
#[derive(Debug)]
pub struct SearchIndex {
    sample_space: Vec<String>,
}

impl View for SearchIndex {
    type V = Seq<Seq<char>>;

    closed spec fn view(&self) -> Seq<Seq<char>> {
        texts_of(self.sample_space@)
    }
}

/// Every hit names a sample that has a match, and carries that sample's
/// length and that match's score.
pub proof fn lemma_hits_name_matches(
    samples: Seq<Seq<char>>,
    found: Seq<Option<Alignment>>,
    upto: int,
)
    requires
        upto <= samples.len() <= usize::MAX,
    ensures
        hits_among(samples, found, upto).len() <= if upto < 0 { 0 } else { upto },
        forall|k: int|
            0 <= k < hits_among(samples, found, upto).len() ==> {
                let hit = #[trigger] hits_among(samples, found, upto)[k];
                &&& hit.index < upto
                &&& hit.index < found.len()
                &&& found[hit.index as int] is Some
                &&& hit.score == found[hit.index as int]->0.score
                &&& hit.length == byte_length(samples[hit.index as int])
            },
    decreases upto,
{
    if upto > 0 {
        lemma_hits_name_matches(samples, found, upto - 1);
    }
}

/// There are as many hits as samples with a match.
pub proof fn lemma_one_hit_per_match(
    samples: Seq<Seq<char>>,
    found: Seq<Option<Alignment>>,
    upto: int,
)
    requires
        0 <= upto <= samples.len(),
        found.len() == samples.len(),
    ensures
        hits_among(samples, found, upto).len() == found.take(upto).filter(
            |one: Option<Alignment>| one is Some,
        ).len(),
    decreases upto,
{
    let matched = |one: Option<Alignment>| one is Some;
    reveal(Seq::filter);
    if upto > 0 {
        lemma_one_hit_per_match(samples, found, upto - 1);
        assert(found.take(upto).drop_last() =~= found.take(upto - 1));
        assert(found.take(upto).last() == found[upto - 1]);
    } else {
        assert(found.take(0).len() == 0);
    }
}

/// The count of a search is the number of samples that match, whatever the
/// limit; the list of results is as long as the limit allows, and a smaller
/// limit cuts the same list shorter.
pub proof fn lemma_count_ignores_limit(
    samples: Seq<Seq<char>>,
    query: Seq<char>,
    small: nat,
    large: nat,
)
    requires
        small <= large,
    ensures
        search_outcome(samples, query, small).count == search_outcome(samples, query, large).count,
        search_outcome(samples, query, large).count == matches_of(samples, query).filter(
            |one: Option<Alignment>| one is Some,
        ).len(),
        search_outcome(samples, query, 0).results.len() == 0,
        search_outcome(samples, query, large).results.len() == if large < search_outcome(
            samples,
            query,
            large,
        ).count {
            large
        } else {
            search_outcome(samples, query, large).count
        },
        search_outcome(samples, query, small).results == search_outcome(
            samples,
            query,
            large,
        ).results.take(search_outcome(samples, query, small).results.len() as int),
{
    let short = search_outcome(samples, query, small).results;
    let long = search_outcome(samples, query, large).results;
    assert(short =~= long.take(short.len() as int));
    let found = matches_of(samples, query);
    lemma_one_hit_per_match(samples, found, samples.len() as int);
    assert(found.take(samples.len() as int) =~= found);
}

/// The outcome of a search is settled by the samples, the query and the
/// limit: whichever way and in whichever order the match of each sample was
/// computed, assembling those matches gives the outcome of the search.
pub proof fn lemma_outcome_from_any_evaluation(
    samples: Seq<Seq<char>>,
    query: Seq<char>,
    found: Seq<Option<Alignment>>,
    limit: nat,
)
    requires
        found.len() == samples.len(),
        forall|i: int| 0 <= i < samples.len() ==> found[i] == best_match(query, samples[i]),
    ensures
        outcome_of(samples, found, limit) == search_outcome(samples, query, limit),
{
    assert(found =~= matches_of(samples, query));
}

/// With matches for all of the first `upto` samples, each of them is a hit,
/// in the order of the samples.
proof fn lemma_all_hit(samples: Seq<Seq<char>>, found: Seq<Option<Alignment>>, upto: int)
    requires
        0 <= upto <= samples.len() <= usize::MAX,
        found.len() == samples.len(),
        forall|i: int| 0 <= i < upto ==> (#[trigger] found[i]) is Some,
    ensures
        hits_among(samples, found, upto).len() == upto,
        forall|i: int|
            0 <= i < upto ==> #[trigger] hits_among(samples, found, upto)[i] == (RankedHit {
                index: i as usize,
                length: byte_length(samples[i]),
                score: found[i]->0.score,
            }),
    decreases upto,
{
    if upto > 0 {
        lemma_all_hit(samples, found, upto - 1);
    }
}

/// The empty query matches every sample, each with the neutral score, so the
/// count is the number of samples and the order of the results is left to the
/// lengths alone: of two hits the shorter sample ranks above.
pub proof fn lemma_empty_query_matches_all(samples: Seq<Seq<char>>, limit: nat)
    requires
        samples.len() <= usize::MAX,
    ensures
        search_outcome(samples, Seq::empty(), limit).count == samples.len(),
        forall|i: int|
            0 <= i < samples.len() ==> #[trigger] hits_of(
                samples,
                matches_of(samples, Seq::empty()),
            )[i] == (RankedHit { index: i as usize, length: byte_length(samples[i]), score: 0 }),
        forall|i: int, j: int|
            0 <= i < samples.len() && 0 <= j < samples.len() ==> ranks_above(
                #[trigger] hits_of(samples, matches_of(samples, Seq::empty()))[i],
                #[trigger] hits_of(samples, matches_of(samples, Seq::empty()))[j],
            ) == (byte_length(samples[i]) < byte_length(samples[j])),
{
    let found = matches_of(samples, Seq::empty());
    assert forall|i: int| 0 <= i < samples.len() implies (#[trigger] found[i]) == Some(
        neutral(),
    ) by {
        lemma_empty_query_matches(samples[i]);
    }
    lemma_all_hit(samples, found, samples.len() as int);
}

impl SearchIndex {
    /// An index without samples.
    pub fn new() -> (index: Self)
        ensures
            index@ == Seq::<Seq<char>>::empty(),
    {
        let index = SearchIndex { sample_space: Vec::new() };
        proof {
            assert(index@ =~= Seq::<Seq<char>>::empty());
        }
        index
    }

    /// Appends `result` to the samples.
    pub fn load_result(&mut self, result: String)
        ensures
            final(self)@ == old(self)@.push(result@),
    {
        self.sample_space.push(result);
        proof {
            assert(final(self)@ =~= old(self)@.push(result@));
        }
    }

    /// The samples, in the order in which they were loaded.
    pub fn samples(&self) -> (samples: &Vec<String>)
        ensures
            texts_of(samples@) == self@,
    {
        &self.sample_space
    }

    /// Matches `query` against every sample, one after the other.
    pub fn evaluate(&self, query: &str) -> (found: Vec<Option<MatchResult>>)
        ensures
            models_of(found@) == matches_of(self@, query@),
            forall|i: int|
                0 <= i < found@.len() ==> (#[trigger] found@[i] matches Some(m) ==> marks_query(
                    m.positions@,
                    query@,
                    self@[i],
                )),
    {
        let mut found: Vec<Option<MatchResult>> = Vec::new();
        let mut at: usize = 0;
        while at < self.sample_space.len()
            invariant
                at <= self.sample_space@.len(),
                found@.len() == at,
                forall|i: int|
                    0 <= i < at ==> model_of(#[trigger] found@[i]) == best_match(
                        query@,
                        self.sample_space@[i]@,
                    ),
                forall|i: int|
                    0 <= i < at ==> (#[trigger] found@[i] matches Some(m) ==> marks_query(
                        m.positions@,
                        query@,
                        self.sample_space@[i]@,
                    )),
            decreases self.sample_space@.len() - at,
        {
            let one = fuzzy_match(query, self.sample_space[at].as_str());
            found.push(one);
            at = at + 1;
        }
        proof {
            assert(models_of(found@) =~= matches_of(self@, query@));
        }
        found
    }

    /// Turns the match of each sample into the result of a search: counts the
    /// hits, ranks them, keeps the first `results_length` and renders those.
    /// `found[i]` is the match of sample `i`; a sample without an entry counts
    /// as not matched.
    pub fn assemble(&self, found: &Vec<Option<MatchResult>>, results_length: usize) -> (outcome:
        SearchResults)
        ensures
            outcome@ == outcome_of(self@, models_of(found@), results_length as nat),
            outcome.count == hits_of(self@, models_of(found@)).len(),
            outcome.results@.len() == if results_length < outcome.count {
                results_length
            } else {
                outcome.count
            },
    {
        let ghost samples = self@;
        let ghost models = models_of(found@);
        let mut hits: Vec<RankedHit> = Vec::new();
        let mut at: usize = 0;
        while at < self.sample_space.len()
            invariant
                at <= self.sample_space@.len(),
                samples == texts_of(self.sample_space@),
                models == models_of(found@),
                hits@ == hits_among(samples, models, at as int),
            decreases self.sample_space@.len() - at,
        {
            proof {
                lemma_hits_name_matches(samples, models, at as int);
            }
            if at < found.len() {
                if let Some(m) = &found[at] {
                    hits.push(
                        RankedHit {
                            index: at,
                            length: self.sample_space[at].as_str().len(),
                            score: m.score,
                        },
                    );
                }
            }
            at = at + 1;
        }
        let order = rank(&hits);
        let count = hits.len();
        let kept = if results_length < count {
            results_length
        } else {
            count
        };
        proof {
            lemma_hits_name_matches(samples, models, samples.len() as int);
            lemma_ranked_keeps_hits(hits@);
        }
        let mut results: Vec<(String, String)> = Vec::new();
        let mut r: usize = 0;
        while r < kept
            invariant
                r <= kept <= order@.len(),
                order@ == ranked(hits@),
                hits@ == hits_of(samples, models),
                samples == texts_of(self.sample_space@),
                models == models_of(found@),
                forall|k: int| 0 <= k < order@.len() ==> hits@.contains(#[trigger] order@[k]),
                forall|k: int|
                    0 <= k < hits@.len() ==> {
                        let hit = #[trigger] hits@[k];
                        &&& hit.index < samples.len()
                        &&& hit.index < models.len()
                        &&& models[hit.index as int] is Some
                    },
                results@.len() == r,
                forall|k: int|
                    0 <= k < r ==> (#[trigger] results@[k].0@, results@[k].1@) == rendering(
                        samples,
                        models,
                        order@[k],
                    ),
            decreases kept - r,
        {
            let hit = order[r];
            proof {
                assert(hits@.contains(order@[r as int]));
            }
            let sample = &self.sample_space[hit.index];
            if let Some(m) = &found[hit.index] {
                let marked = highlight(sample.as_str(), &m.positions, "<strong>", "</strong>");
                results.push((sample.clone(), marked));
            } else {
                proof {
                    assert(models[hit.index as int] is Some);
                    assert(false);
                }
            }
            r = r + 1;
        }
        let outcome = SearchResults { count, results };
        proof {
            assert(outcome@.results =~= outcome_of(samples, models, results_length as nat).results);
        }
        outcome
    }

    /// Searches the samples for `input` and reports how many matched, along
    /// with the `results_length` best of them, each beside its highlighted
    /// form. The samples stay as they are.
    pub fn search(&mut self, input: String, results_length: usize) -> (outcome: SearchResults)
        ensures
            final(self)@ == old(self)@,
            outcome@ == search_outcome(old(self)@, input@, results_length as nat),
            outcome.count == hits_of(old(self)@, matches_of(old(self)@, input@)).len(),
            outcome.results@.len() == if results_length < outcome.count {
                results_length
            } else {
                outcome.count
            },
    {
        let found = self.evaluate(input.as_str());
        self.assemble(&found, results_length)
    }
}

} // verus!
