//! The ordered-subsequence relation between a query and a candidate.

use vstd::prelude::*;
use vstd::utf8::encode_utf8;

verus! {

/// `places` assigns to each character of `query` a position of `candidate`
/// holding the same character, and later characters get later positions.
pub open spec fn is_embedding(places: Seq<int>, query: Seq<char>, candidate: Seq<char>) -> bool {
    &&& places.len() == query.len()
    &&& forall|k: int|
        0 <= k < places.len() ==> 0 <= #[trigger] places[k] < candidate.len()
            && candidate[places[k]] == query[k]
    &&& forall|j: int, k: int| 0 <= j < k < places.len() ==> places[j] < places[k]
}

/// The characters of `query` occur in `candidate` in the same relative order,
/// not necessarily next to each other. Case matters.
pub open spec fn is_subsequence(query: Seq<char>, candidate: Seq<char>) -> bool {
    exists|places: Seq<int>| is_embedding(places, query, candidate)
}

/// An embedding never runs ahead of its own index: the `k`-th character sits
/// at position `k` or later.
pub proof fn lemma_embedding_advances(
    places: Seq<int>,
    query: Seq<char>,
    candidate: Seq<char>,
    k: int,
)
    requires
        is_embedding(places, query, candidate),
        0 <= k < places.len(),
    ensures
        k <= places[k],
    decreases k,
{
    if k > 0 {
        lemma_embedding_advances(places, query, candidate, k - 1);
    }
}

/// A query longer than the candidate is never a subsequence of it.
pub proof fn lemma_subsequence_is_no_longer(query: Seq<char>, candidate: Seq<char>)
    requires
        is_subsequence(query, candidate),
    ensures
        query.len() <= candidate.len(),
{
    let places = choose|places: Seq<int>| is_embedding(places, query, candidate);
    if query.len() > 0 {
        lemma_embedding_advances(places, query, candidate, query.len() - 1);
    }
}

/// A subsequence takes no more bytes than the candidate it lies in.
pub proof fn lemma_subsequence_has_no_more_bytes(query: Seq<char>, candidate: Seq<char>)
    requires
        is_subsequence(query, candidate),
    ensures
        encode_utf8(query).len() <= encode_utf8(candidate).len(),
    decreases candidate.len(),
{
    let places = choose|places: Seq<int>| is_embedding(places, query, candidate);
    if query.len() > 0 {
        assert(0 <= places[0] < candidate.len());
        let rest = candidate.drop_first();
        if places[0] == 0 {
            let shifted = Seq::new((query.len() - 1) as nat, |k: int| places[k + 1] - 1);
            assert forall|k: int| 0 <= k < shifted.len() implies 0 <= #[trigger] shifted[k]
                < rest.len() && rest[shifted[k]] == query.drop_first()[k] by {
                assert(places[0] < places[k + 1]);
                assert(candidate[places[k + 1]] == query[k + 1]);
            }
            assert forall|j: int, k: int| 0 <= j < k < shifted.len() implies shifted[j]
                < shifted[k] by {
                assert(places[j + 1] < places[k + 1]);
            }
            assert(is_embedding(shifted, query.drop_first(), rest));
            lemma_subsequence_has_no_more_bytes(query.drop_first(), rest);
            assert(candidate[places[0]] == query[0]);
        } else {
            let shifted = Seq::new(query.len(), |k: int| places[k] - 1);
            assert forall|k: int| 0 <= k < shifted.len() implies 0 <= #[trigger] shifted[k]
                < rest.len() && rest[shifted[k]] == query[k] by {
                if k > 0 {
                    assert(places[0] < places[k]);
                }
                assert(candidate[places[k]] == query[k]);
            }
            assert forall|j: int, k: int| 0 <= j < k < shifted.len() implies shifted[j]
                < shifted[k] by {
                assert(places[j] < places[k]);
            }
            assert(is_embedding(shifted, query, rest));
            lemma_subsequence_has_no_more_bytes(query, rest);
        }
    }
}

/// The empty query is a subsequence of every candidate.
pub proof fn lemma_empty_is_subsequence(candidate: Seq<char>)
    ensures
        is_subsequence(Seq::<char>::empty(), candidate),
{
    assert(is_embedding(Seq::<int>::empty(), Seq::<char>::empty(), candidate));
}

/// No more than `limit` characters of `query` can be placed, in order, inside
/// the first `upto` characters of `candidate`.
spec fn places_at_most(query: Seq<char>, candidate: Seq<char>, upto: int, limit: int) -> bool {
    forall|n: int, places: Seq<int>|
        0 <= n <= query.len() && #[trigger] is_embedding(
            places,
            query.take(n),
            candidate.take(upto),
        ) ==> n <= limit
}

/// Extending the scanned part of the candidate by one character keeps the
/// greedy count maximal.
proof fn lemma_greedy_step(
    query: Seq<char>,
    candidate: Seq<char>,
    upto: int,
    taken: int,
    greedy: Seq<int>,
)
    requires
        0 <= upto < candidate.len(),
        0 <= taken <= query.len(),
        is_embedding(greedy, query.take(taken), candidate.take(upto)),
        places_at_most(query, candidate, upto, taken),
    ensures
        taken < query.len() && query[taken] == candidate[upto] ==> is_embedding(
            greedy.push(upto),
            query.take(taken + 1),
            candidate.take(upto + 1),
        ) && places_at_most(query, candidate, upto + 1, taken + 1),
        !(taken < query.len() && query[taken] == candidate[upto]) ==> is_embedding(
            greedy,
            query.take(taken),
            candidate.take(upto + 1),
        ) && places_at_most(query, candidate, upto + 1, taken),
{
    let hit = taken < query.len() && query[taken] == candidate[upto];
    let bound = if hit { taken + 1 } else { taken };
    assert forall|n: int, places: Seq<int>|
        0 <= n <= query.len() && #[trigger] is_embedding(
            places,
            query.take(n),
            candidate.take(upto + 1),
        ) implies n <= bound by {
        if n > 0 {
            let last = places[n - 1];
            if last < upto {
                // the embedding already fits into the shorter prefix
                assert forall|k: int| 0 <= k < places.len() implies #[trigger] places[k] < upto by {
                    if k < n - 1 {
                        assert(places[k] < places[n - 1]);
                    }
                }
                assert(is_embedding(places, query.take(n), candidate.take(upto)));
            } else {
                // its last character sits on the new position
                let front = places.drop_last();
                assert forall|k: int| 0 <= k < front.len() implies 0 <= #[trigger] front[k] < upto
                    && candidate.take(upto)[front[k]] == query.take(n - 1)[k] by {
                    assert(places[k] < places[n - 1]);
                    assert(candidate.take(upto + 1)[places[k]] == query.take(n)[k]);
                }
                assert(is_embedding(front, query.take(n - 1), candidate.take(upto)));
                assert(n - 1 <= taken);
                if n - 1 == taken {
                    assert(candidate.take(upto + 1)[places[n - 1]] == query.take(n)[n - 1]);
                }
            }
        }
    }
    if hit {
        let grown = greedy.push(upto);
        assert forall|k: int| 0 <= k < grown.len() implies 0 <= #[trigger] grown[k] < upto + 1
            && candidate.take(upto + 1)[grown[k]] == query.take(taken + 1)[k] by {
            if k < taken {
                assert(grown[k] == greedy[k]);
                assert(candidate.take(upto)[greedy[k]] == query.take(taken)[k]);
            }
        }
        assert forall|j: int, k: int| 0 <= j < k < grown.len() implies grown[j] < grown[k] by {
            assert(grown[j] == greedy[j]);
            if k < taken {
                assert(grown[k] == greedy[k]);
            }
        }
    } else {
        assert forall|k: int| 0 <= k < greedy.len() implies 0 <= #[trigger] greedy[k] < upto + 1
            && candidate.take(upto + 1)[greedy[k]] == query.take(taken)[k] by {
            assert(candidate.take(upto)[greedy[k]] == query.take(taken)[k]);
        }
    }
}

/// Decides whether `query` is a subsequence of `candidate`, in one pass over
/// the candidate.
pub fn occurs_in_order(query: &Vec<char>, candidate: &Vec<char>) -> (found: bool)
    ensures
        found == is_subsequence(query@, candidate@),
{
    let mut taken: usize = 0;
    let mut upto: usize = 0;
    let ghost mut greedy: Seq<int> = Seq::empty();
    proof {
        assert(is_embedding(greedy, query@.take(0), candidate@.take(0)));
        assert forall|n: int, places: Seq<int>|
            0 <= n <= query@.len() && #[trigger] is_embedding(
                places,
                query@.take(n),
                candidate@.take(0),
            ) implies n <= 0 by {
            if n > 0 {
                assert(0 <= places[0] < candidate@.take(0).len());
            }
        }
    }
    while upto < candidate.len() && taken < query.len()
        invariant
            0 <= upto <= candidate.len(),
            0 <= taken <= query.len(),
            is_embedding(greedy, query@.take(taken as int), candidate@.take(upto as int)),
            places_at_most(query@, candidate@, upto as int, taken as int),
        decreases candidate.len() - upto,
    {
        proof {
            lemma_greedy_step(query@, candidate@, upto as int, taken as int, greedy);
        }
        if query[taken] == candidate[upto] {
            proof {
                greedy = greedy.push(upto as int);
            }
            taken = taken + 1;
        }
        upto = upto + 1;
    }
    proof {
        if taken == query.len() {
            assert(query@.take(taken as int) == query@);
            assert forall|k: int| 0 <= k < greedy.len() implies 0 <= #[trigger] greedy[k]
                < candidate@.len() && candidate@[greedy[k]] == query@[k] by {
                assert(candidate@.take(upto as int)[greedy[k]] == query@.take(taken as int)[k]);
            }
            assert(is_embedding(greedy, query@, candidate@));
        } else {
            assert(upto == candidate.len());
            assert(candidate@.take(upto as int) == candidate@);
            assert(query@.take(query@.len() as int) == query@);
            if is_subsequence(query@, candidate@) {
                let places = choose|places: Seq<int>| is_embedding(places, query@, candidate@);
                assert(is_embedding(
                    places,
                    query@.take(query@.len() as int),
                    candidate@.take(upto as int),
                ));
                assert(false);
            }
        }
    }
    taken == query.len()
}

} // verus!
