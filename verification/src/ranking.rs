//! The ranking policy: hits are ordered by a pairwise rule that weighs each
//! hit's score against the other candidate's length, and hits that the rule
//! does not tell apart keep the order in which they were found.

use vstd::multiset::Multiset;
use vstd::prelude::*;

verus! {

/// A candidate that matched, as far as ranking is concerned.
#[derive(Clone, Copy, Debug, PartialEq, Eq, Structural)]
pub struct RankedHit {
    /// Position of the candidate in the sample space.
    pub index: usize,
    /// Length of the candidate in bytes.
    pub length: usize,
    /// Score of its match.
    pub score: isize,
}

/// Hit `a` goes strictly before hit `b`: the score of `a` together with the
/// length of `b` exceeds the score of `b` together with the length of `a`.
pub open spec fn ranks_above(a: RankedHit, b: RankedHit) -> bool {
    b.score + a.length < a.score + b.length
}

/// Two rank-ordered lists woven into one. Where the heads are not told apart
/// by the rule, the head of `first` goes first.
pub open spec fn merged(first: Seq<RankedHit>, second: Seq<RankedHit>) -> Seq<RankedHit>
    decreases first.len() + second.len(),
{
    if first.len() == 0 {
        second
    } else if second.len() == 0 {
        first
    } else if ranks_above(second[0], first[0]) {
        seq![second[0]] + merged(first, second.drop_first())
    } else {
        seq![first[0]] + merged(first.drop_first(), second)
    }
}

/// The hits in rank order. A hit goes before every hit found later that does
/// not rank strictly above it, so hits that the rule does not tell apart stay
/// in the order in which they were found.
pub open spec fn ranked(hits: Seq<RankedHit>) -> Seq<RankedHit>
    decreases hits.len(),
{
    if hits.len() == 0 {
        Seq::empty()
    } else {
        merged(seq![hits[0]], ranked(hits.drop_first()))
    }
}

/// Weaving keeps every hit of both lists.
pub proof fn lemma_merged_len(first: Seq<RankedHit>, second: Seq<RankedHit>)
    ensures
        merged(first, second).len() == first.len() + second.len(),
    decreases first.len() + second.len(),
{
    if first.len() == 0 || second.len() == 0 {
    } else if ranks_above(second[0], first[0]) {
        lemma_merged_len(first, second.drop_first());
    } else {
        lemma_merged_len(first.drop_first(), second);
    }
}

/// Ranking keeps the number of hits.
pub proof fn lemma_ranked_len(hits: Seq<RankedHit>)
    ensures
        ranked(hits).len() == hits.len(),
    decreases hits.len(),
{
    if hits.len() > 0 {
        lemma_ranked_len(hits.drop_first());
        lemma_merged_len(seq![hits[0]], ranked(hits.drop_first()));
    }
}

/// Weaving keeps exactly the hits of both lists, each as often as it was
/// there.
pub proof fn lemma_merged_keeps_hits(first: Seq<RankedHit>, second: Seq<RankedHit>)
    ensures
        merged(first, second).to_multiset() == first.to_multiset().add(second.to_multiset()),
    decreases first.len() + second.len(),
{
    broadcast use vstd::seq_lib::group_to_multiset_ensures;

    if first.len() == 0 {
        assert(first.to_multiset() =~= Multiset::<RankedHit>::empty());
        assert(first.to_multiset().add(second.to_multiset()) =~= second.to_multiset());
    } else if second.len() == 0 {
        assert(second.to_multiset() =~= Multiset::<RankedHit>::empty());
        assert(first.to_multiset().add(second.to_multiset()) =~= first.to_multiset());
    } else if ranks_above(second[0], first[0]) {
        let rest = second.drop_first();
        lemma_merged_keeps_hits(first, rest);
        vstd::seq_lib::lemma_multiset_commutative(seq![second[0]], merged(first, rest));
        vstd::seq_lib::lemma_multiset_commutative(seq![second[0]], rest);
        assert(second == seq![second[0]] + rest);
        assert(merged(first, second).to_multiset() =~= first.to_multiset().add(
            second.to_multiset(),
        ));
    } else {
        let rest = first.drop_first();
        lemma_merged_keeps_hits(rest, second);
        vstd::seq_lib::lemma_multiset_commutative(seq![first[0]], merged(rest, second));
        vstd::seq_lib::lemma_multiset_commutative(seq![first[0]], rest);
        assert(first == seq![first[0]] + rest);
        assert(merged(first, second).to_multiset() =~= first.to_multiset().add(
            second.to_multiset(),
        ));
    }
}

/// Ranking rearranges the hits: it drops none, adds none and repeats none.
pub proof fn lemma_ranked_keeps_hits(hits: Seq<RankedHit>)
    ensures
        ranked(hits).to_multiset() == hits.to_multiset(),
        forall|k: int| 0 <= k < ranked(hits).len() ==> hits.contains(#[trigger] ranked(hits)[k]),
    decreases hits.len(),
{
    broadcast use vstd::seq_lib::group_to_multiset_ensures;

    if hits.len() > 0 {
        let rest = hits.drop_first();
        lemma_ranked_keeps_hits(rest);
        lemma_merged_keeps_hits(seq![hits[0]], ranked(rest));
        vstd::seq_lib::lemma_multiset_commutative(seq![hits[0]], rest);
        assert(hits == seq![hits[0]] + rest);
        assert(ranked(hits).to_multiset() =~= hits.to_multiset());
    }
    assert forall|k: int| 0 <= k < ranked(hits).len() implies hits.contains(
        #[trigger] ranked(hits)[k],
    ) by {
        assert(ranked(hits).contains(ranked(hits)[k]));
        assert(ranked(hits).to_multiset().count(ranked(hits)[k]) > 0);
    }
}

/// Weaving three lists gives the same result whichever two are woven first.
pub proof fn lemma_merged_associative(
    a: Seq<RankedHit>,
    b: Seq<RankedHit>,
    c: Seq<RankedHit>,
)
    ensures
        merged(merged(a, b), c) == merged(a, merged(b, c)),
    decreases a.len() + b.len() + c.len(),
{
    if a.len() == 0 || b.len() == 0 || c.len() == 0 {
    } else {
        let ab = merged(a, b);
        let bc = merged(b, c);
        lemma_merged_len(a, b);
        lemma_merged_len(b, c);
        if ranks_above(b[0], a[0]) {
            let rest = merged(a, b.drop_first());
            assert(ab == seq![b[0]] + rest);
            assert(ab.drop_first() == rest);
            if ranks_above(c[0], b[0]) {
                lemma_merged_associative(a, b, c.drop_first());
                let tail = merged(b, c.drop_first());
                assert(bc == seq![c[0]] + tail);
                assert(bc.drop_first() == tail);
            } else {
                lemma_merged_associative(a, b.drop_first(), c);
                let tail = merged(b.drop_first(), c);
                assert(bc == seq![b[0]] + tail);
                assert(bc.drop_first() == tail);
            }
        } else {
            let rest = merged(a.drop_first(), b);
            assert(ab == seq![a[0]] + rest);
            assert(ab.drop_first() == rest);
            if ranks_above(c[0], a[0]) {
                lemma_merged_associative(a, b, c.drop_first());
                let tail = merged(b, c.drop_first());
                assert(bc == seq![c[0]] + tail);
                assert(bc.drop_first() == tail);
            } else {
                lemma_merged_associative(a.drop_first(), b, c);
                if ranks_above(c[0], b[0]) {
                    assert(bc[0] == c[0]);
                } else {
                    assert(bc[0] == b[0]);
                }
            }
        }
    }
}

/// Ranking a list that was cut in two is weaving the two ranked parts.
pub proof fn lemma_ranked_concat(front: Seq<RankedHit>, back: Seq<RankedHit>)
    ensures
        ranked(front + back) == merged(ranked(front), ranked(back)),
    decreases front.len(),
{
    if front.len() == 0 {
        assert(front + back == back);
    } else {
        let whole = front + back;
        assert(whole[0] == front[0]);
        assert(whole.drop_first() == front.drop_first() + back);
        lemma_ranked_concat(front.drop_first(), back);
        lemma_merged_associative(
            seq![front[0]],
            ranked(front.drop_first()),
            ranked(back),
        );
    }
}

/// No hit of the list ranks above a hit that stands before it.
pub open spec fn in_rank_order(hits: Seq<RankedHit>) -> bool {
    forall|i: int, j: int| 0 <= i < j < hits.len() ==> !ranks_above(hits[j], hits[i])
}

/// The rule does not tell `a` and `b` apart.
pub open spec fn tied(a: RankedHit, b: RankedHit) -> bool {
    !ranks_above(a, b) && !ranks_above(b, a)
}

/// Weaving two lists in rank order gives a list in rank order.
pub proof fn lemma_merged_in_rank_order(first: Seq<RankedHit>, second: Seq<RankedHit>)
    requires
        in_rank_order(first),
        in_rank_order(second),
    ensures
        in_rank_order(merged(first, second)),
    decreases first.len() + second.len(),
{
    if first.len() == 0 || second.len() == 0 {
    } else {
        let woven = merged(first, second);
        let head = woven[0];
        let rest = woven.drop_first();
        let (left, right) = if ranks_above(second[0], first[0]) {
            (first, second.drop_first())
        } else {
            (first.drop_first(), second)
        };
        assert(rest == merged(left, right));
        lemma_merged_in_rank_order(left, right);
        lemma_merged_keeps_hits(left, right);
        assert forall|i: int, j: int| 0 <= i < j < woven.len() implies !ranks_above(
            woven[j],
            woven[i],
        ) by {
            if i == 0 {
                let hit = rest[j - 1];
                assert(woven[j] == hit);
                broadcast use vstd::seq_lib::group_to_multiset_ensures;

                assert(rest.contains(hit));
                assert(rest.to_multiset().count(hit) > 0);
                assert(left.to_multiset().count(hit) > 0 || right.to_multiset().count(hit) > 0);
                if left.to_multiset().count(hit) > 0 {
                    assert(left.contains(hit));
                    let k = choose|k: int| 0 <= k < left.len() && left[k] == hit;
                    if ranks_above(second[0], first[0]) {
                        assert(first[k] == hit);
                        if k > 0 {
                            assert(!ranks_above(first[k], first[0]));
                        }
                    } else {
                        assert(first[k + 1] == hit);
                    }
                } else {
                    assert(right.contains(hit));
                    let k = choose|k: int| 0 <= k < right.len() && right[k] == hit;
                    if ranks_above(second[0], first[0]) {
                        assert(second[k + 1] == hit);
                    } else {
                        assert(second[k] == hit);
                        if k > 0 {
                            assert(!ranks_above(second[k], second[0]));
                        }
                    }
                }
            } else {
                assert(woven[i] == rest[i - 1]);
                assert(woven[j] == rest[j - 1]);
            }
        }
    }
}

/// The ranked hits are in rank order: the score of an earlier hit together
/// with the length of a later one is never the smaller sum.
pub proof fn lemma_ranked_in_rank_order(hits: Seq<RankedHit>)
    ensures
        in_rank_order(ranked(hits)),
    decreases hits.len(),
{
    if hits.len() > 0 {
        lemma_ranked_in_rank_order(hits.drop_first());
        lemma_merged_in_rank_order(seq![hits[0]], ranked(hits.drop_first()));
    }
}

/// Putting one hit into a list leaves the hits tied with `pivot` in the order
/// they had, the new hit before those of the list.
proof fn lemma_placed_keeps_ties(hit: RankedHit, list: Seq<RankedHit>, pivot: RankedHit)
    ensures
        merged(seq![hit], list).filter(|h: RankedHit| tied(h, pivot)) == seq![hit].filter(
            |h: RankedHit| tied(h, pivot),
        ) + list.filter(|h: RankedHit| tied(h, pivot)),
    decreases list.len(),
{
    broadcast use vstd::seq_lib::group_filter_ensures;

    let same = |h: RankedHit| tied(h, pivot);
    let one = seq![hit];
    assert(one.drop_last() == Seq::<RankedHit>::empty());
    assert(one.filter(same) == if tied(hit, pivot) {
        one
    } else {
        Seq::<RankedHit>::empty()
    }) by {
        reveal(Seq::filter);
        assert(Seq::<RankedHit>::empty().filter(same) == Seq::<RankedHit>::empty());
    }
    if list.len() == 0 {
        assert(list.filter(same) == Seq::<RankedHit>::empty()) by {
            reveal(Seq::filter);
        }
        assert(one.filter(same) + list.filter(same) == one.filter(same));
    } else if ranks_above(list[0], hit) {
        let head = seq![list[0]];
        let rest = list.drop_first();
        lemma_placed_keeps_ties(hit, rest, pivot);
        assert(head.drop_last() == Seq::<RankedHit>::empty());
        assert(head.filter(same) == if tied(list[0], pivot) {
            head
        } else {
            Seq::<RankedHit>::empty()
        }) by {
            reveal(Seq::filter);
            assert(Seq::<RankedHit>::empty().filter(same) == Seq::<RankedHit>::empty());
        }
        assert(list == head + rest);
        assert(merged(one, list) == head + merged(one, rest));
        assert(!(tied(hit, pivot) && tied(list[0], pivot)));
        assert(merged(one, list).filter(same) == head.filter(same) + merged(one, rest).filter(
            same,
        ));
        assert(list.filter(same) == head.filter(same) + rest.filter(same));
        assert(merged(one, list).filter(same) =~= one.filter(same) + list.filter(same));
    } else {
        assert(merged(one.drop_first(), list) == list);
        assert(merged(one, list) == one + list);
    }
}

/// Ranking is stable: the hits that the rule does not tell apart from `pivot`
/// stand in the ranked list in the order in which they were found.
pub proof fn lemma_ranked_is_stable(hits: Seq<RankedHit>, pivot: RankedHit)
    ensures
        ranked(hits).filter(|h: RankedHit| tied(h, pivot)) == hits.filter(
            |h: RankedHit| tied(h, pivot),
        ),
    decreases hits.len(),
{
    broadcast use vstd::seq_lib::group_filter_ensures;

    let same = |h: RankedHit| tied(h, pivot);
    if hits.len() > 0 {
        let rest = hits.drop_first();
        lemma_ranked_is_stable(rest, pivot);
        lemma_placed_keeps_ties(hits[0], ranked(rest), pivot);
        assert(hits == seq![hits[0]] + rest);
        assert(hits.filter(same) == seq![hits[0]].filter(same) + rest.filter(same));
    }
}

/// Whether `a` goes strictly before `b`.
pub fn outranks(a: &RankedHit, b: &RankedHit) -> (above: bool)
    ensures
        above == ranks_above(*a, *b),
{
    (b.score as i128) + (a.length as i128) < (a.score as i128) + (b.length as i128)
}

/// Weaves two lists into one.
fn merge(first: &Vec<RankedHit>, second: &Vec<RankedHit>) -> (woven: Vec<RankedHit>)
    ensures
        woven@ == merged(first@, second@),
{
    let mut woven: Vec<RankedHit> = Vec::new();
    let mut i: usize = 0;
    let mut j: usize = 0;
    proof {
        assert(first@.skip(0) == first@);
        assert(second@.skip(0) == second@);
    }
    while i < first.len() && j < second.len()
        invariant
            i <= first.len(),
            j <= second.len(),
            merged(first@, second@) == woven@ + merged(first@.skip(i as int), second@.skip(j as int)),
        decreases first.len() - i + second.len() - j,
    {
        let ghost left = first@.skip(i as int);
        let ghost right = second@.skip(j as int);
        proof {
            assert(left[0] == first@[i as int]);
            assert(right[0] == second@[j as int]);
            assert(left.drop_first() == first@.skip(i + 1));
            assert(right.drop_first() == second@.skip(j + 1));
        }
        if outranks(&second[j], &first[i]) {
            woven.push(second[j]);
            j = j + 1;
        } else {
            woven.push(first[i]);
            i = i + 1;
        }
        proof {
            assert(merged(first@, second@) == woven@ + merged(
                first@.skip(i as int),
                second@.skip(j as int),
            ));
        }
    }
    while i < first.len()
        invariant
            i <= first.len(),
            i < first.len() ==> j == second.len(),
            j <= second.len(),
            merged(first@, second@) == woven@ + merged(first@.skip(i as int), second@.skip(j as int)),
        decreases first.len() - i,
    {
        proof {
            let left = first@.skip(i as int);
            assert(second@.skip(j as int).len() == 0);
            assert(left == seq![first@[i as int]] + first@.skip(i + 1));
            assert(merged(first@.skip(i + 1), second@.skip(j as int)) == first@.skip(i + 1));
        }
        woven.push(first[i]);
        i = i + 1;
    }
    while j < second.len()
        invariant
            i == first.len(),
            j <= second.len(),
            merged(first@, second@) == woven@ + merged(first@.skip(i as int), second@.skip(j as int)),
        decreases second.len() - j,
    {
        proof {
            let right = second@.skip(j as int);
            assert(first@.skip(i as int).len() == 0);
            assert(right == seq![second@[j as int]] + second@.skip(j + 1));
        }
        woven.push(second[j]);
        j = j + 1;
    }
    proof {
        assert(first@.skip(i as int).len() == 0);
        assert(second@.skip(j as int).len() == 0);
        assert(merged(first@.skip(i as int), second@.skip(j as int)) == Seq::<RankedHit>::empty());
        assert(woven@ + Seq::<RankedHit>::empty() == woven@);
    }
    woven
}

/// Ranks the hits `hits[from..to]`.
fn rank_range(hits: &Vec<RankedHit>, from: usize, to: usize) -> (sorted: Vec<RankedHit>)
    requires
        from <= to <= hits.len(),
    ensures
        sorted@ == ranked(hits@.subrange(from as int, to as int)),
    decreases to - from,
{
    let ghost part = hits@.subrange(from as int, to as int);
    if to - from == 0 {
        Vec::new()
    } else if to - from == 1 {
        let mut sorted: Vec<RankedHit> = Vec::new();
        sorted.push(hits[from]);
        proof {
            assert(part.drop_first().len() == 0);
            assert(ranked(part.drop_first()) == Seq::<RankedHit>::empty());
            assert(sorted@ == seq![part[0]]);
        }
        sorted
    } else {
        let middle = from + (to - from) / 2;
        let front = rank_range(hits, from, middle);
        let back = rank_range(hits, middle, to);
        proof {
            assert(part == hits@.subrange(from as int, middle as int) + hits@.subrange(
                middle as int,
                to as int,
            ));
            lemma_ranked_concat(
                hits@.subrange(from as int, middle as int),
                hits@.subrange(middle as int, to as int),
            );
        }
        merge(&front, &back)
    }
}

/// Puts the hits in rank order.
pub fn rank(hits: &Vec<RankedHit>) -> (sorted: Vec<RankedHit>)
    ensures
        sorted@ == ranked(hits@),
        sorted@.len() == hits@.len(),
{
    proof {
        assert(hits@.subrange(0, hits@.len() as int) == hits@);
        lemma_ranked_len(hits@);
    }
    rank_range(hits, 0, hits.len())
}

} // verus!
