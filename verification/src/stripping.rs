//! Taking the markers out of a highlighted text again.

use crate::highlight::{
    close_marker, highlighted, is_marked, open_marker, piece, rendered, run_ends, run_starts,
};
use vstd::prelude::*;

verus! {

/// `text` with every `open` and every `close` taken out, reading from the
/// left; where both begin at the same place, `open` is taken out.
pub open spec fn stripped(text: Seq<char>, open: Seq<char>, close: Seq<char>) -> Seq<char>
    decreases text.len(),
{
    if text.len() == 0 {
        text
    } else if open.len() > 0 && open.is_prefix_of(text) {
        stripped(text.skip(open.len() as int), open, close)
    } else if close.len() > 0 && close.is_prefix_of(text) {
        stripped(text.skip(close.len() as int), open, close)
    } else {
        seq![text[0]] + stripped(text.skip(1), open, close)
    }
}

/// `pattern` stands in `text` at position `at`.
pub open spec fn occurs_at(text: Seq<char>, pattern: Seq<char>, at: int) -> bool {
    0 <= at && at + pattern.len() <= text.len() && text.subrange(at, at + pattern.len())
        == pattern
}

/// `pattern` stands in `candidate` at position `at`, and no run of marked
/// characters begins or ends inside it: its characters are all marked or all
/// unmarked, so that the highlighted text shows it in one piece.
pub open spec fn stands_unbroken(
    candidate: Seq<char>,
    positions: Seq<usize>,
    pattern: Seq<char>,
    at: int,
) -> bool {
    &&& occurs_at(candidate, pattern, at)
    &&& forall|k: int|
        at <= k < at + pattern.len() - 1 ==> #[trigger] is_marked(positions, k) == is_marked(
            positions,
            k + 1,
        )
}

/// The highlighted text shows `pattern` in one piece somewhere in the
/// candidate's own characters.
pub open spec fn shows_unbroken(
    candidate: Seq<char>,
    positions: Seq<usize>,
    pattern: Seq<char>,
) -> bool {
    exists|at: int| stands_unbroken(candidate, positions, pattern, at)
}

/// The two markers can be told from each other and from their own insides:
/// neither is empty or begins the other, and the character that a marker
/// begins with stands nowhere else in either of them.
pub open spec fn markers_are_distinct(open: Seq<char>, close: Seq<char>) -> bool {
    &&& open.len() > 0
    &&& close.len() > 0
    &&& !open.is_prefix_of(close)
    &&& !close.is_prefix_of(open)
    &&& forall|j: int|
        #![trigger open[j]]
        1 <= j < open.len() ==> open[j] != open[0] && open[j] != close[0]
    &&& forall|j: int|
        #![trigger close[j]]
        1 <= j < close.len() ==> close[j] != open[0] && close[j] != close[0]
}

/// The marker that goes in front of the character at `at`, if any.
spec fn lead(positions: Seq<usize>, open: Seq<char>, at: int) -> Seq<char> {
    if run_starts(positions, at) {
        open
    } else {
        Seq::empty()
    }
}

/// The marker that goes behind the character at `at`, if any.
spec fn trail(candidate: Seq<char>, positions: Seq<usize>, close: Seq<char>, at: int) -> Seq<char> {
    if run_ends(candidate, positions, at) {
        close
    } else {
        Seq::empty()
    }
}

/// The pieces of the characters from `from` on, one after the other.
spec fn rest_from(
    candidate: Seq<char>,
    positions: Seq<usize>,
    open: Seq<char>,
    close: Seq<char>,
    from: int,
) -> Seq<char>
    decreases candidate.len() - from,
{
    if from < 0 || from >= candidate.len() {
        Seq::empty()
    } else {
        piece(candidate, positions, open, close, from) + rest_from(
            candidate,
            positions,
            open,
            close,
            from + 1,
        )
    }
}

/// The highlighted text from the character at `at` on, without the marker in
/// front of that character.
spec fn body_from(
    candidate: Seq<char>,
    positions: Seq<usize>,
    open: Seq<char>,
    close: Seq<char>,
    at: int,
) -> Seq<char> {
    seq![candidate[at]] + trail(candidate, positions, close, at) + rest_from(
        candidate,
        positions,
        open,
        close,
        at + 1,
    )
}

/// The highlighted text is what was rendered up to any place, followed by the
/// pieces from there on.
proof fn lemma_rendered_splits(
    candidate: Seq<char>,
    positions: Seq<usize>,
    open: Seq<char>,
    close: Seq<char>,
    at: int,
)
    requires
        0 <= at <= candidate.len(),
    ensures
        highlighted(candidate, positions, open, close) == rendered(
            candidate,
            positions,
            open,
            close,
            at,
        ) + rest_from(candidate, positions, open, close, at),
    decreases candidate.len() - at,
{
    let here = rendered(candidate, positions, open, close, at);
    if at == candidate.len() {
        assert(here + Seq::<char>::empty() == here);
    } else {
        lemma_rendered_splits(candidate, positions, open, close, at + 1);
        let one = piece(candidate, positions, open, close, at);
        let after = rest_from(candidate, positions, open, close, at + 1);
        assert((here + one) + after == here + (one + after));
    }
}

/// Where the text from a character on begins like a marker for `count`
/// characters, those characters are characters of the candidate with no
/// marker between them.
proof fn lemma_marker_start_is_candidate_text(
    candidate: Seq<char>,
    positions: Seq<usize>,
    open: Seq<char>,
    close: Seq<char>,
    at: int,
    marker: Seq<char>,
    count: int,
)
    requires
        markers_are_distinct(open, close),
        0 <= at < candidate.len(),
        marker == open || marker == close,
        1 <= count <= marker.len(),
        body_from(candidate, positions, open, close, at).len() >= count,
        body_from(candidate, positions, open, close, at).take(count) == marker.take(count),
    ensures
        at + count <= candidate.len(),
        candidate.subrange(at, at + count) == marker.take(count),
        forall|k: int|
            at <= k < at + count - 1 ==> #[trigger] is_marked(positions, k) == is_marked(
                positions,
                k + 1,
            ),
        body_from(candidate, positions, open, close, at) == candidate.subrange(at, at + count - 1)
            + body_from(candidate, positions, open, close, at + count - 1),
    decreases count,
{
    let body = body_from(candidate, positions, open, close, at);
    if count == 1 {
        assert(body.take(1)[0] == marker.take(1)[0]);
        assert(candidate.subrange(at, at + 1) =~= marker.take(1));
        assert(candidate.subrange(at, at) + body =~= body);
    } else {
        assert(body.take(count - 1) =~= body.take(count).take(count - 1));
        assert(marker.take(count - 1) =~= marker.take(count).take(count - 1));
        lemma_marker_start_is_candidate_text(
            candidate,
            positions,
            open,
            close,
            at,
            marker,
            count - 1,
        );
        let last = at + count - 2;
        let seen = candidate.subrange(at, last);
        let inner = body_from(candidate, positions, open, close, last);
        assert(body == seen + inner);
        assert(body[count - 1] == inner[1]);
        assert(body.take(count)[count - 1] == marker.take(count)[count - 1]);
        assert(inner[1] == marker[count - 1]);
        let behind = trail(candidate, positions, close, last);
        let after = rest_from(candidate, positions, open, close, last + 1);
        assert(inner == seq![candidate[last]] + behind + after);
        if behind.len() > 0 {
            assert(inner[1] == close[0]);
            assert(false);
        }
        assert(inner =~= seq![candidate[last]] + after);
        assert(last + 1 < candidate.len());
        let before = lead(positions, open, last + 1);
        let next = body_from(candidate, positions, open, close, last + 1);
        assert(piece(candidate, positions, open, close, last + 1) + rest_from(
            candidate,
            positions,
            open,
            close,
            last + 2,
        ) =~= before + next);
        assert(after == before + next);
        if before.len() > 0 {
            assert(inner[1] == open[0]);
            assert(false);
        }
        assert(after =~= next);
        assert(is_marked(positions, last) == is_marked(positions, last + 1));
        assert(inner[1] == candidate[last + 1]);
        assert(candidate.subrange(at, at + count) =~= candidate.subrange(at, at + count - 1).push(
            candidate[last + 1],
        ));
        assert(marker.take(count) =~= marker.take(count - 1).push(marker[count - 1]));
        assert(candidate.subrange(at, at + count - 1) =~= seen.push(candidate[last]));
        assert(body =~= candidate.subrange(at, at + count - 1) + next);
    }
}

/// The text from a candidate character on never begins with a marker, unless
/// the candidate itself holds that marker.
proof fn lemma_no_marker_starts_in_text(
    candidate: Seq<char>,
    positions: Seq<usize>,
    open: Seq<char>,
    close: Seq<char>,
    at: int,
    marker: Seq<char>,
)
    requires
        markers_are_distinct(open, close),
        0 <= at < candidate.len(),
        marker == open || marker == close,
        !shows_unbroken(candidate, positions, marker),
    ensures
        !marker.is_prefix_of(body_from(candidate, positions, open, close, at)),
{
    let body = body_from(candidate, positions, open, close, at);
    if marker.is_prefix_of(body) {
        assert(body.take(marker.len() as int) =~= marker);
        assert(marker.take(marker.len() as int) =~= marker);
        lemma_marker_start_is_candidate_text(
            candidate,
            positions,
            open,
            close,
            at,
            marker,
            marker.len() as int,
        );
        assert(stands_unbroken(candidate, positions, marker, at));
    }
}

/// Stripping passes over the markers around a character: what is left of the
/// pieces from `from` on is what is left of the text from that character on,
/// and what is left behind that character is what is left of the later pieces.
proof fn lemma_markers_go(
    candidate: Seq<char>,
    positions: Seq<usize>,
    open: Seq<char>,
    close: Seq<char>,
    from: int,
)
    requires
        markers_are_distinct(open, close),
        0 <= from < candidate.len(),
    ensures
        stripped(rest_from(candidate, positions, open, close, from), open, close) == stripped(
            body_from(candidate, positions, open, close, from),
            open,
            close,
        ),
        stripped(body_from(candidate, positions, open, close, from).skip(1), open, close)
            == stripped(rest_from(candidate, positions, open, close, from + 1), open, close),
{
    let after = rest_from(candidate, positions, open, close, from + 1);
    let behind = trail(candidate, positions, close, from);
    let tail = behind + after;
    let body = body_from(candidate, positions, open, close, from);
    assert(body =~= seq![candidate[from]] + tail);
    assert(body.skip(1) =~= tail);
    if behind.len() > 0 {
        assert(close.is_prefix_of(tail));
        if open.is_prefix_of(tail) {
            if open.len() <= close.len() {
                assert(open =~= close.subrange(0, open.len() as int));
            } else {
                assert(close =~= open.subrange(0, close.len() as int));
            }
            assert(false);
        }
        assert(tail.skip(close.len() as int) =~= after);
    } else {
        assert(tail =~= after);
    }
    let before = lead(positions, open, from);
    let whole = rest_from(candidate, positions, open, close, from);
    assert(whole =~= before + body);
    if before.len() > 0 {
        assert(open.is_prefix_of(whole));
        assert(whole.skip(open.len() as int) =~= body);
    } else {
        assert(whole =~= body);
    }
}

/// Stripping the pieces from `from` on leaves the candidate's characters from
/// `from` on.
proof fn lemma_stripped_rest(
    candidate: Seq<char>,
    positions: Seq<usize>,
    open: Seq<char>,
    close: Seq<char>,
    from: int,
)
    requires
        markers_are_distinct(open, close),
        !shows_unbroken(candidate, positions, open),
        !shows_unbroken(candidate, positions, close),
        0 <= from <= candidate.len(),
    ensures
        stripped(rest_from(candidate, positions, open, close, from), open, close)
            == candidate.skip(from),
    decreases candidate.len() - from,
{
    if from == candidate.len() {
        assert(candidate.skip(from) =~= Seq::<char>::empty());
    } else {
        lemma_stripped_rest(candidate, positions, open, close, from + 1);
        lemma_markers_go(candidate, positions, open, close, from);
        lemma_no_marker_starts_in_text(candidate, positions, open, close, from, open);
        lemma_no_marker_starts_in_text(candidate, positions, open, close, from, close);
        let body = body_from(candidate, positions, open, close, from);
        assert(stripped(body, open, close) == seq![body[0]] + stripped(
            body.skip(1),
            open,
            close,
        ));
        assert(seq![candidate[from]] + candidate.skip(from + 1) =~= candidate.skip(from));
    }
}

/// Where the text from a character on begins with a marker, stripping takes
/// as many characters of the candidate away as the marker has.
proof fn lemma_marker_start_is_stripped(
    candidate: Seq<char>,
    positions: Seq<usize>,
    open: Seq<char>,
    close: Seq<char>,
    from: int,
)
    requires
        markers_are_distinct(open, close),
        0 <= from < candidate.len(),
        open.is_prefix_of(body_from(candidate, positions, open, close, from))
            || close.is_prefix_of(body_from(candidate, positions, open, close, from)),
    ensures
        exists|next: int|
            from < next <= candidate.len() && stripped(
                rest_from(candidate, positions, open, close, from),
                open,
                close,
            ) == stripped(rest_from(candidate, positions, open, close, next), open, close),
{
    let body = body_from(candidate, positions, open, close, from);
    let marker = if open.is_prefix_of(body) {
        open
    } else {
        close
    };
    let width = marker.len() as int;
    assert(body.take(width) =~= marker);
    assert(marker.take(width) =~= marker);
    lemma_marker_start_is_candidate_text(candidate, positions, open, close, from, marker, width);
    let last = from + width - 1;
    let inner = body_from(candidate, positions, open, close, last);
    assert(body == candidate.subrange(from, last) + inner);
    assert(body.skip(width) =~= inner.skip(1));
    assert(stripped(body, open, close) == stripped(body.skip(width), open, close));
    lemma_markers_go(candidate, positions, open, close, from);
    lemma_markers_go(candidate, positions, open, close, last);
    assert(stripped(rest_from(candidate, positions, open, close, from), open, close) == stripped(
        rest_from(candidate, positions, open, close, last + 1),
        open,
        close,
    ));
}

/// One of the two markers stands unbroken at `at`.
spec fn marker_stands(
    candidate: Seq<char>,
    positions: Seq<usize>,
    open: Seq<char>,
    close: Seq<char>,
    at: int,
) -> bool {
    stands_unbroken(candidate, positions, open, at) || stands_unbroken(
        candidate,
        positions,
        close,
        at,
    )
}

/// What stripping leaves of the pieces from `from` on is no longer than the
/// candidate from there on, and shorter where the highlighted text shows a
/// marker in one piece at `from` or later.
proof fn lemma_stripped_rest_is_short(
    candidate: Seq<char>,
    positions: Seq<usize>,
    open: Seq<char>,
    close: Seq<char>,
    from: int,
)
    requires
        markers_are_distinct(open, close),
        0 <= from <= candidate.len(),
    ensures
        stripped(rest_from(candidate, positions, open, close, from), open, close).len()
            <= candidate.len() - from,
        (exists|at: int| from <= at && #[trigger] marker_stands(candidate, positions, open, close, at))
            ==> stripped(rest_from(candidate, positions, open, close, from), open, close).len()
            < candidate.len() - from,
    decreases candidate.len() - from,
{
    if from == candidate.len() {
        if exists|at: int|
            from <= at && #[trigger] marker_stands(candidate, positions, open, close, at) {
            let at = choose|at: int|
                from <= at && #[trigger] marker_stands(candidate, positions, open, close, at);
            assert(open.len() > 0 && close.len() > 0);
            assert(false);
        }
    } else {
        let body = body_from(candidate, positions, open, close, from);
        if open.is_prefix_of(body) || close.is_prefix_of(body) {
            lemma_marker_start_is_stripped(candidate, positions, open, close, from);
            let next = choose|next: int|
                from < next <= candidate.len() && stripped(
                    rest_from(candidate, positions, open, close, from),
                    open,
                    close,
                ) == stripped(rest_from(candidate, positions, open, close, next), open, close);
            lemma_stripped_rest_is_short(candidate, positions, open, close, next);
        } else {
            lemma_markers_go(candidate, positions, open, close, from);
            lemma_stripped_rest_is_short(candidate, positions, open, close, from + 1);
            assert(stripped(body, open, close) == seq![body[0]] + stripped(
                body.skip(1),
                open,
                close,
            ));
            if exists|at: int|
                from <= at && #[trigger] marker_stands(candidate, positions, open, close, at) {
                let at = choose|at: int|
                    from <= at && #[trigger] marker_stands(candidate, positions, open, close, at);
                if at == from {
                    let marker = if stands_unbroken(candidate, positions, open, at) {
                        open
                    } else {
                        close
                    };
                    lemma_unbroken_marker_is_shown(
                        candidate,
                        positions,
                        open,
                        close,
                        from,
                        marker,
                        marker.len() as int,
                    );
                    assert(body.subrange(0, marker.len() as int) =~= marker);
                    assert(false);
                }
                assert(from + 1 <= at && marker_stands(candidate, positions, open, close, at));
            }
        }
    }
}

/// Where a marker stands in the candidate without a run beginning or ending
/// inside it, the text from its first character on begins with it.
proof fn lemma_unbroken_marker_is_shown(
    candidate: Seq<char>,
    positions: Seq<usize>,
    open: Seq<char>,
    close: Seq<char>,
    at: int,
    marker: Seq<char>,
    count: int,
)
    requires
        stands_unbroken(candidate, positions, marker, at),
        1 <= count <= marker.len(),
    ensures
        body_from(candidate, positions, open, close, at).len() >= count,
        body_from(candidate, positions, open, close, at).take(count) == marker.take(count),
        body_from(candidate, positions, open, close, at) == candidate.subrange(at, at + count - 1)
            + body_from(candidate, positions, open, close, at + count - 1),
    decreases count,
{
    let body = body_from(candidate, positions, open, close, at);
    assert(candidate.subrange(at, at + marker.len())[count - 1] == marker[count - 1]);
    if count == 1 {
        assert(body.take(1) =~= marker.take(1));
        assert(candidate.subrange(at, at) + body =~= body);
    } else {
        lemma_unbroken_marker_is_shown(candidate, positions, open, close, at, marker, count - 1);
        let last = at + count - 2;
        let inner = body_from(candidate, positions, open, close, last);
        let next = body_from(candidate, positions, open, close, last + 1);
        assert(is_marked(positions, last) == is_marked(positions, last + 1));
        assert(trail(candidate, positions, close, last) =~= Seq::<char>::empty());
        assert(lead(positions, open, last + 1) =~= Seq::<char>::empty());
        assert(rest_from(candidate, positions, open, close, last + 1) =~= next);
        assert(inner =~= seq![candidate[last]] + next);
        assert(body =~= candidate.subrange(at, at + count - 1) + next);
        assert(body.take(count) =~= body.take(count - 1).push(candidate[last + 1]));
        assert(marker.take(count) =~= marker.take(count - 1).push(marker[count - 1]));
    }
}

/// Where the highlighted text shows a marker that the candidate holds
/// itself, stripping does not give the candidate back: it takes that part of
/// the candidate away with the markers.
pub proof fn lemma_stripping_loses_shown_marker(
    candidate: Seq<char>,
    positions: Seq<usize>,
    open: Seq<char>,
    close: Seq<char>,
)
    requires
        markers_are_distinct(open, close),
        shows_unbroken(candidate, positions, open) || shows_unbroken(candidate, positions, close),
    ensures
        stripped(highlighted(candidate, positions, open, close), open, close) != candidate,
{
    lemma_rendered_splits(candidate, positions, open, close, 0);
    let all = rest_from(candidate, positions, open, close, 0);
    assert(Seq::<char>::empty() + all =~= all);
    let marker = if shows_unbroken(candidate, positions, open) {
        open
    } else {
        close
    };
    let at = choose|at: int| stands_unbroken(candidate, positions, marker, at);
    assert(0 <= at && marker_stands(candidate, positions, open, close, at));
    lemma_stripped_rest_is_short(candidate, positions, open, close, 0);
}

/// Stripping the markers from a highlighted text gives the candidate back,
/// for any pair of distinct markers, unless the highlighted text shows a
/// marker that the candidate holds itself.
pub proof fn lemma_stripping_undoes_highlighting(
    candidate: Seq<char>,
    positions: Seq<usize>,
    open: Seq<char>,
    close: Seq<char>,
)
    requires
        markers_are_distinct(open, close),
        !shows_unbroken(candidate, positions, open),
        !shows_unbroken(candidate, positions, close),
    ensures
        stripped(highlighted(candidate, positions, open, close), open, close) == candidate,
{
    lemma_rendered_splits(candidate, positions, open, close, 0);
    lemma_stripped_rest(candidate, positions, open, close, 0);
    let all = rest_from(candidate, positions, open, close, 0);
    assert(Seq::<char>::empty() + all =~= all);
    assert(candidate.skip(0) =~= candidate);
}

/// The markers of a search are distinct.
pub proof fn lemma_search_markers_are_distinct()
    ensures
        markers_are_distinct(open_marker(), close_marker()),
{
    reveal_strlit("<strong>");
    reveal_strlit("</strong>");
    let open = open_marker();
    let close = close_marker();
    assert(open.len() == 8);
    assert(close.len() == 9);
    assert(open[1] != close[1]);
    if open.is_prefix_of(close) {
        assert(open[1] == close.subrange(0, 8)[1]);
    }
}

/// Stripping the markers of a search from a highlighted candidate gives the
/// candidate back. Left out are the candidates that hold a marker themselves
/// in a place where the highlighted text shows it in one piece: there the
/// candidate's own text is stripped too.
pub proof fn lemma_stripping_restores_candidate(candidate: Seq<char>, positions: Seq<usize>)
    requires
        !shows_unbroken(candidate, positions, open_marker()),
        !shows_unbroken(candidate, positions, close_marker()),
    ensures
        stripped(
            highlighted(candidate, positions, open_marker(), close_marker()),
            open_marker(),
            close_marker(),
        ) == candidate,
{
    lemma_search_markers_are_distinct();
    lemma_stripping_undoes_highlighting(candidate, positions, open_marker(), close_marker());
}

} // verus!
