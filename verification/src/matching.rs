//! The mathematical model of pattern search, shared by every alphabet.
//!
//! A text and a pattern are sequences of symbols of any type `T`; symbols are
//! only ever compared for equality. Offsets are mathematical integers.

use vstd::math::max;
use vstd::prelude::*;

verus! {

/// The pattern occurs in the text at offset `o`.
pub open spec fn is_match<T>(text: Seq<T>, pattern: Seq<T>, o: int) -> bool {
    &&& 0 <= o
    &&& o + pattern.len() <= text.len()
    &&& text.subrange(o, o + pattern.len()) == pattern
}

/// The offsets in `[lo, hi)` at which the pattern occurs, in ascending order.
pub open spec fn matches_in<T>(text: Seq<T>, pattern: Seq<T>, lo: int, hi: int) -> Seq<int>
    decreases hi - lo,
{
    if lo >= hi {
        Seq::empty()
    } else if is_match(text, pattern, lo) {
        seq![lo] + matches_in(text, pattern, lo + 1, hi)
    } else {
        matches_in(text, pattern, lo + 1, hi)
    }
}

/// The offsets in `[lo, hi)` at which the pattern occurs, in descending order.
pub open spec fn matches_down<T>(text: Seq<T>, pattern: Seq<T>, lo: int, hi: int) -> Seq<int>
    decreases hi - lo,
{
    if lo >= hi {
        Seq::empty()
    } else if is_match(text, pattern, hi - 1) {
        seq![hi - 1] + matches_down(text, pattern, lo, hi - 1)
    } else {
        matches_down(text, pattern, lo, hi - 1)
    }
}

/// Every occurrence of a non-empty pattern in the text, in ascending order.
/// An empty pattern has no occurrences.
pub open spec fn full_matches<T>(text: Seq<T>, pattern: Seq<T>) -> Seq<int> {
    if pattern.len() == 0 {
        Seq::empty()
    } else {
        matches_in(text, pattern, 0, text.len() - pattern.len() + 1)
    }
}

/// Every occurrence of a non-empty pattern in the text, in descending order.
pub open spec fn full_matches_rev<T>(text: Seq<T>, pattern: Seq<T>) -> Seq<int> {
    full_matches(text, pattern).reverse()
}

/// Greedy filter over ascending offsets: an offset is kept when it is at
/// least `floor`; once an offset is kept, the floor moves `width` past it.
pub open spec fn keep_disjoint_ascending(offsets: Seq<int>, width: int, floor: int) -> Seq<int>
    decreases offsets.len(),
{
    if offsets.len() == 0 {
        Seq::empty()
    } else if offsets[0] >= floor {
        seq![offsets[0]] + keep_disjoint_ascending(
            offsets.drop_first(),
            width,
            offsets[0] + width,
        )
    } else {
        keep_disjoint_ascending(offsets.drop_first(), width, floor)
    }
}

/// Greedy filter over descending offsets: an offset is kept when the window
/// of `width` symbols that starts there ends at or before `ceiling`; once an
/// offset is kept, it becomes the ceiling.
pub open spec fn keep_disjoint_descending(offsets: Seq<int>, width: int, ceiling: int) -> Seq<int>
    decreases offsets.len(),
{
    if offsets.len() == 0 {
        Seq::empty()
    } else if offsets[0] + width <= ceiling {
        seq![offsets[0]] + keep_disjoint_descending(offsets.drop_first(), width, offsets[0])
    } else {
        keep_disjoint_descending(offsets.drop_first(), width, ceiling)
    }
}

/// The occurrences that a left-to-right scan reports when an occurrence that
/// overlaps the one reported before it is passed over.
pub open spec fn disjoint_matches<T>(text: Seq<T>, pattern: Seq<T>) -> Seq<int> {
    keep_disjoint_ascending(full_matches(text, pattern), pattern.len() as int, 0)
}

/// The occurrences that a right-to-left scan reports when an occurrence that
/// overlaps the one reported before it is passed over.
pub open spec fn disjoint_matches_rev<T>(text: Seq<T>, pattern: Seq<T>) -> Seq<int> {
    keep_disjoint_descending(
        full_matches_rev(text, pattern),
        pattern.len() as int,
        text.len() as int,
    )
}

/// The first `limit` offsets of a result; a limit of zero keeps them all.
pub open spec fn limited(offsets: Seq<int>, limit: int) -> Seq<int> {
    if limit == 0 || offsets.len() <= limit {
        offsets
    } else {
        offsets.take(limit)
    }
}

/// The offsets held by a vector of machine integers.
pub open spec fn offsets_of(v: Seq<usize>) -> Seq<int> {
    v.map_values(|o: usize| o as int)
}

/// The first offset of a result, if it has one.
pub open spec fn first_of(offsets: Seq<int>) -> Option<int> {
    if offsets.len() == 0 {
        None
    } else {
        Some(offsets[0])
    }
}

/// Strictly ascending offsets.
pub open spec fn is_ascending(offsets: Seq<int>) -> bool {
    forall|i: int, j: int| 0 <= i < j < offsets.len() ==> offsets[i] < offsets[j]
}

/// Strictly descending offsets.
pub open spec fn is_descending(offsets: Seq<int>) -> bool {
    forall|i: int, j: int| 0 <= i < j < offsets.len() ==> offsets[i] > offsets[j]
}

/// `x` lies in the window of `width` places that starts at one of the
/// `kept` offsets.
pub open spec fn in_window_after(kept: Seq<int>, width: int, x: int) -> bool {
    exists|i: int| 0 <= i < kept.len() && (#[trigger] kept[i]) <= x < kept[i] + width
}

/// `x` lies in the `width` places that end at one of the `kept` offsets.
pub open spec fn in_window_before(kept: Seq<int>, width: int, x: int) -> bool {
    exists|i: int| 0 <= i < kept.len() && (#[trigger] kept[i]) - width < x <= kept[i]
}

/// The greatest index at which `c` occurs in `s`, or -1 if it does not occur.
pub open spec fn last_index_of<T>(s: Seq<T>, c: T) -> int
    decreases s.len(),
{
    if s.len() == 0 {
        -1
    } else if s.last() == c {
        s.len() - 1
    } else {
        last_index_of(s.drop_last(), c)
    }
}

/// The least index at which `c` occurs in `s`, or `s.len()` if it does not
/// occur.
pub open spec fn first_index_of<T>(s: Seq<T>, c: T) -> int
    decreases s.len(),
{
    if s.len() == 0 {
        0
    } else if s[0] == c {
        0
    } else {
        1 + first_index_of(s.drop_first(), c)
    }
}

/// The forward bad-symbol shift of `c`: the distance from the last position
/// of the pattern back to the last occurrence of `c` before that position, or
/// the pattern's length if `c` does not occur before the last position.
pub open spec fn forward_shift<T>(pattern: Seq<T>, c: T) -> int
    recommends
        pattern.len() > 0,
{
    let body = pattern.drop_last();
    if body.contains(c) {
        pattern.len() - 1 - last_index_of(body, c)
    } else {
        pattern.len() as int
    }
}

/// The backward bad-symbol shift of `c`: the index of the first occurrence of
/// `c` after the first position of the pattern, or the pattern's length if `c`
/// does not occur after the first position.
pub open spec fn backward_shift<T>(pattern: Seq<T>, c: T) -> int
    recommends
        pattern.len() > 0,
{
    let body = pattern.drop_first();
    if body.contains(c) {
        1 + first_index_of(body, c)
    } else {
        pattern.len() as int
    }
}

/// The forward lookahead shift of `c`, the symbol just past the window.
pub open spec fn forward_lookahead<T>(pattern: Seq<T>, c: T) -> int
    recommends
        pattern.len() > 0,
{
    if c == pattern.last() {
        1
    } else {
        forward_shift(pattern, c) + 1
    }
}

/// The backward lookahead shift of `c`, the symbol just before the window.
pub open spec fn backward_lookahead<T>(pattern: Seq<T>, c: T) -> int
    recommends
        pattern.len() > 0,
{
    if c == pattern[0] {
        1
    } else {
        backward_shift(pattern, c) + 1
    }
}

/// How far a forward scan moves a window that starts at `start` and has a
/// symbol after it: the greater of the bad-symbol shift of the window's last
/// symbol and the lookahead shift of the symbol after the window.
pub open spec fn forward_advance<T>(text: Seq<T>, pattern: Seq<T>, start: int) -> int
    recommends
        pattern.len() > 0,
        0 <= start,
        start + pattern.len() < text.len(),
{
    max(
        forward_shift(pattern, text[start + pattern.len() - 1]),
        forward_lookahead(pattern, text[start + pattern.len()]),
    )
}

/// How far a backward scan moves a window that starts at `start` and has a
/// symbol before it: the greater of the bad-symbol shift of the window's
/// first symbol and the lookahead shift of the symbol before the window.
pub open spec fn backward_advance<T>(text: Seq<T>, pattern: Seq<T>, start: int) -> int
    recommends
        pattern.len() > 0,
        1 <= start,
        start + pattern.len() <= text.len(),
{
    max(
        backward_shift(pattern, text[start]),
        backward_lookahead(pattern, text[start - 1]),
    )
}

} // verus!
