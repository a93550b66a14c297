//! The highlighter: wraps every maximal run of matched characters of a
//! candidate in a pair of markers.

use crate::text::chars_of;
use vstd::prelude::*;
use vstd::string::StringExecFns;

verus! {

/// `String::push` of the standard library appends the character to the end of
/// the string and leaves the rest as it was.
pub assume_specification[ String::push ](text: &mut String, ch: char)
    ensures
        final(text)@ == old(text)@.push(ch),
;

/// The marker put before a run of matched characters.
pub open spec fn open_marker() -> Seq<char> {
    "<strong>"@
}

/// The marker put behind a run of matched characters.
pub open spec fn close_marker() -> Seq<char> {
    "</strong>"@
}

/// Position `at` is one of `positions`.
pub open spec fn is_marked(positions: Seq<usize>, at: int) -> bool {
    exists|k: int| 0 <= k < positions.len() && #[trigger] positions[k] == at
}

/// A run of marked characters begins at `at`.
pub open spec fn run_starts(positions: Seq<usize>, at: int) -> bool {
    is_marked(positions, at) && !is_marked(positions, at - 1)
}

/// A run of marked characters ends at `at`.
pub open spec fn run_ends(candidate: Seq<char>, positions: Seq<usize>, at: int) -> bool {
    is_marked(positions, at) && (at + 1 == candidate.len() || !is_marked(positions, at + 1))
}

/// What the character at `at` contributes to the highlighted text: itself,
/// behind `open` where a run begins with it and before `close` where a run
/// ends with it.
pub open spec fn piece(
    candidate: Seq<char>,
    positions: Seq<usize>,
    open: Seq<char>,
    close: Seq<char>,
    at: int,
) -> Seq<char> {
    let before = if run_starts(positions, at) {
        open
    } else {
        Seq::empty()
    };
    let after = if run_ends(candidate, positions, at) {
        close
    } else {
        Seq::empty()
    };
    before + seq![candidate[at]] + after
}

/// The pieces of the first `upto` characters, one after the other.
pub open spec fn rendered(
    candidate: Seq<char>,
    positions: Seq<usize>,
    open: Seq<char>,
    close: Seq<char>,
    upto: int,
) -> Seq<char>
    decreases upto,
{
    if upto <= 0 {
        Seq::empty()
    } else {
        rendered(candidate, positions, open, close, upto - 1) + piece(
            candidate,
            positions,
            open,
            close,
            upto - 1,
        )
    }
}

/// The candidate with each maximal run of marked characters wrapped in `open`
/// and `close`. Positions outside the candidate mark nothing.
pub open spec fn highlighted(
    candidate: Seq<char>,
    positions: Seq<usize>,
    open: Seq<char>,
    close: Seq<char>,
) -> Seq<char> {
    rendered(candidate, positions, open, close, candidate.len() as int)
}

/// One flag per character of a candidate of length `len`: whether `positions`
/// names it.
fn mark_table(positions: &Vec<usize>, len: usize) -> (marks: Vec<bool>)
    ensures
        marks@.len() == len,
        forall|at: int| 0 <= at < len ==> #[trigger] marks@[at] == is_marked(positions@, at),
{
    let mut marks: Vec<bool> = Vec::new();
    let mut at: usize = 0;
    while at < len
        invariant
            at <= len,
            marks@.len() == at,
            forall|i: int| 0 <= i < at ==> !#[trigger] marks@[i],
        decreases len - at,
    {
        marks.push(false);
        at = at + 1;
    }
    let mut k: usize = 0;
    while k < positions.len()
        invariant
            k <= positions.len(),
            marks@.len() == len,
            forall|i: int|
                0 <= i < len ==> #[trigger] marks@[i] == is_marked(positions@.take(k as int), i),
        decreases positions.len() - k,
    {
        let p: usize = positions[k];
        let ghost before = marks@;
        if p < len {
            marks.set(p, true);
        }
        proof {
            let seen = positions@.take(k as int);
            let grown = positions@.take(k + 1);
            assert forall|i: int| 0 <= i < len implies #[trigger] marks@[i] == is_marked(
                grown,
                i,
            ) by {
                assert(before[i] == is_marked(seen, i));
                if is_marked(seen, i) {
                    let j = choose|j: int| 0 <= j < seen.len() && seen[j] == i;
                    assert(grown[j] == i);
                }
                if i == p {
                    assert(grown[k as int] == i);
                }
                if is_marked(grown, i) && i != p {
                    let j = choose|j: int| 0 <= j < grown.len() && grown[j] == i;
                    assert(j < k);
                    assert(seen[j] == i);
                }
            }
        }
        k = k + 1;
    }
    proof {
        assert(positions@.take(k as int) == positions@);
    }
    marks
}

/// Renders `candidate` with every maximal run of characters named by
/// `positions` wrapped in `open` and `close`; all other characters are copied
/// unchanged.
pub fn highlight(candidate: &str, positions: &Vec<usize>, open: &str, close: &str) -> (text:
    String)
    ensures
        text@ == highlighted(candidate@, positions@, open@, close@),
{
    let chars = chars_of(candidate);
    let len = chars.len();
    let marks = mark_table(positions, len);
    let mut text = String::new();
    let mut at: usize = 0;
    while at < len
        invariant
            at <= len,
            len == candidate@.len(),
            chars@ == candidate@,
            marks@.len() == len,
            forall|i: int| 0 <= i < len ==> #[trigger] marks@[i] == is_marked(positions@, i),
            text@ == rendered(candidate@, positions@, open@, close@, at as int),
        decreases len - at,
    {
        let marked = marks[at];
        let ghost so_far = text@;
        proof {
            // no position is negative, and none is named beyond the table
            if is_marked(positions@, at as int - 1) && at == 0 {
                let k = choose|k: int| 0 <= k < positions@.len() && positions@[k] == -1;
                assert(false);
            }
        }
        if marked && (at == 0 || !marks[at - 1]) {
            text.append(open);
        }
        text.push(chars[at]);
        if marked && (at + 1 == len || !marks[at + 1]) {
            text.append(close);
        }
        proof {
            assert(text@ =~= so_far + piece(candidate@, positions@, open@, close@, at as int));
        }
        at = at + 1;
    }
    text
}

} // verus!
