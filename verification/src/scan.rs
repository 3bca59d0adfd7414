//! The scan engine: the match-and-shift loop of the search, written once for
//! every alphabet.
//!
//! A scan reads its text and its pattern through [`Symbols`] and its
//! bad-symbol shifts through [`ShiftTable`]. It holds a window of the
//! pattern's length against the text, reports the window's offset where the
//! window equals the pattern, and moves the window on by the greater of two
//! shifts: that of the symbol at the window's far end, and that of the symbol
//! just beyond the window.

use crate::laws::{
    lemma_backward_advance_safe, lemma_backward_shift, lemma_forward_advance_safe,
    lemma_forward_shift,
};
use crate::lemmas::{
    lemma_disjoint_rev_step_match, lemma_disjoint_rev_step_skip, lemma_disjoint_step_match,
    lemma_disjoint_step_skip, lemma_limited_prefix, lemma_limited_whole, lemma_match_pointwise,
    lemma_matches_down_is_reverse, lemma_matches_down_skip, lemma_matches_in_skip,
    lemma_offsets_push,
};
use crate::matching::{
    backward_advance, backward_shift, disjoint_matches, disjoint_matches_rev, forward_advance,
    forward_shift, full_matches, full_matches_rev, is_match, keep_disjoint_ascending,
    keep_disjoint_descending, limited, matches_down, matches_in, offsets_of,
};
use vstd::prelude::*;

verus! {

/// A symbol of an alphabet: a value that is copied and compared for
/// equality, and nothing else.
pub trait Symbol: Copy {
    /// Says whether two symbols are equal.
    fn same(self, other: Self) -> (r: bool)
        ensures
            r == (self == other),
    ;
}

impl Symbol for u8 {
    fn same(self, other: u8) -> (r: bool) {
        self == other
    }
}

impl Symbol for char {
    fn same(self, other: char) -> (r: bool) {
        self == other
    }
}

/// A text or a pattern as a scan reads it: by its length and by the symbol at
/// an index.
pub trait Symbols {
    type Item: Symbol;

    /// The symbols of the sequence.
    spec fn symbols(&self) -> Seq<Self::Item>;

    /// The number of symbols.
    fn len(&self) -> (n: usize)
        ensures
            n == self.symbols().len(),
    ;

    /// The symbol at `index`, which lies within the sequence.
    fn value_at(&self, index: usize) -> (c: Self::Item)
        requires
            index < self.symbols().len(),
        ensures
            c == self.symbols()[index as int],
    ;
}

/// A bad-symbol shift table as a scan reads it. A table need not hold a
/// shift for every symbol: `absent` is the shift of a symbol that it holds
/// none for.
pub trait ShiftTable {
    type Item: Symbol;

    /// The shift that the table gives a symbol.
    spec fn shift_of(&self, c: Self::Item, absent: int) -> int;

    /// Looks up the shift of a symbol.
    fn shift(&self, c: Self::Item, absent: usize) -> (s: usize)
        ensures
            s == self.shift_of(c, absent as int),
    ;
}

/// The table gives every symbol its forward shift for the pattern.
pub open spec fn holds_forward_shifts<M: ShiftTable>(
    table: &M,
    pattern: Seq<M::Item>,
) -> bool {
    forall|c: M::Item| #[trigger]
        table.shift_of(c, pattern.len() as int) == forward_shift(pattern, c)
}

/// The table gives every symbol its backward shift for the pattern.
pub open spec fn holds_backward_shifts<M: ShiftTable>(
    table: &M,
    pattern: Seq<M::Item>,
) -> bool {
    forall|c: M::Item| #[trigger]
        table.shift_of(c, pattern.len() as int) == backward_shift(pattern, c)
}

/// Says whether the pattern occurs in the text at `start`. The window is
/// compared from its last symbol toward its first, so that a forward scan
/// meets a mismatch at the window's far end at once.
pub fn window_matches_from_end<TT, TP>(text: &TT, pattern: &TP, pattern_len: usize, start: usize) -> (r:
    bool)
    where
        TT: Symbols + ?Sized,
        TP: Symbols<Item = TT::Item> + ?Sized,
    requires
        pattern_len == pattern.symbols().len(),
        start + pattern_len <= text.symbols().len() <= usize::MAX,
    ensures
        r == is_match(text.symbols(), pattern.symbols(), start as int),
{
    proof {
        lemma_match_pointwise(text.symbols(), pattern.symbols(), start as int);
    }
    let mut i: usize = pattern_len;
    while i > 0
        invariant
            i <= pattern_len,
            pattern_len == pattern.symbols().len(),
            start + pattern_len <= text.symbols().len() <= usize::MAX,
            forall|j: int|
                i <= j < pattern_len ==> text.symbols()[start + j]
                    == #[trigger] pattern.symbols()[j],
        decreases i,
    {
        i -= 1;
        if !text.value_at(start + i).same(pattern.value_at(i)) {
            return false;
        }
    }
    true
}

/// Says whether the pattern occurs in the text at `start`. The window is
/// compared from its first symbol toward its last, so that a backward scan
/// meets a mismatch at the window's far end at once.
pub fn window_matches_from_start<TT, TP>(
    text: &TT,
    pattern: &TP,
    pattern_len: usize,
    start: usize,
) -> (r: bool)
    where
        TT: Symbols + ?Sized,
        TP: Symbols<Item = TT::Item> + ?Sized,
    requires
        pattern_len == pattern.symbols().len(),
        start + pattern_len <= text.symbols().len() <= usize::MAX,
    ensures
        r == is_match(text.symbols(), pattern.symbols(), start as int),
{
    proof {
        lemma_match_pointwise(text.symbols(), pattern.symbols(), start as int);
    }
    let mut i: usize = 0;
    while i < pattern_len
        invariant
            i <= pattern_len,
            pattern_len == pattern.symbols().len(),
            start + pattern_len <= text.symbols().len() <= usize::MAX,
            forall|j: int|
                0 <= j < i ==> text.symbols()[start + j] == #[trigger] pattern.symbols()[j],
        decreases pattern_len - i,
    {
        if !text.value_at(start + i).same(pattern.value_at(i)) {
            return false;
        }
        i += 1;
    }
    true
}

/// How far a forward scan moves on from the window at `start`: the greater of
/// the table's shift for the window's last symbol and the lookahead shift of
/// the symbol after the window, which is one if that symbol is the pattern's
/// last, and one more than its table shift otherwise. No occurrence lies
/// between the window and the place the scan moves to.
pub fn forward_skip<TT, TP, M>(
    text: &TT,
    pattern: &TP,
    pattern_len: usize,
    bad_char_shift_map: &M,
    start: usize,
) -> (step: usize)
    where
        TT: Symbols + ?Sized,
        TP: Symbols<Item = TT::Item> + ?Sized,
        M: ShiftTable<Item = TT::Item>,
    requires
        pattern_len == pattern.symbols().len(),
        pattern_len > 0,
        holds_forward_shifts(bad_char_shift_map, pattern.symbols()),
        start + pattern_len < text.symbols().len() <= usize::MAX,
    ensures
        step == forward_advance(text.symbols(), pattern.symbols(), start as int),
        1 <= step <= pattern_len + 1,
        forall|o: int|
            start < o < start + step ==> !is_match(text.symbols(), pattern.symbols(), o),
{
    let last_pattern_char = pattern.value_at(pattern_len - 1);
    let window_last = text.value_at(start + pattern_len - 1);
    let c = text.value_at(start + pattern_len);
    proof {
        lemma_forward_advance_safe(text.symbols(), pattern.symbols(), start as int);
        lemma_forward_shift(pattern.symbols(), window_last);
        lemma_forward_shift(pattern.symbols(), c);
    }
    let by_table: usize = bad_char_shift_map.shift(window_last, pattern_len);
    let by_lookahead: usize = if c.same(last_pattern_char) {
        1
    } else {
        bad_char_shift_map.shift(c, pattern_len) + 1
    };
    if by_table >= by_lookahead {
        by_table
    } else {
        by_lookahead
    }
}

/// How far a backward scan moves on from the window at `start`: the greater
/// of the table's shift for the window's first symbol and the lookahead shift
/// of the symbol before the window, which is one if that symbol is the
/// pattern's first, and one more than its table shift otherwise. No
/// occurrence lies between the place the scan moves to and the window.
pub fn backward_skip<TT, TP, M>(
    text: &TT,
    pattern: &TP,
    pattern_len: usize,
    bad_char_shift_map: &M,
    start: usize,
) -> (step: usize)
    where
        TT: Symbols + ?Sized,
        TP: Symbols<Item = TT::Item> + ?Sized,
        M: ShiftTable<Item = TT::Item>,
    requires
        pattern_len == pattern.symbols().len(),
        pattern_len > 0,
        holds_backward_shifts(bad_char_shift_map, pattern.symbols()),
        1 <= start,
        start + pattern_len <= text.symbols().len() <= usize::MAX,
    ensures
        step == backward_advance(text.symbols(), pattern.symbols(), start as int),
        1 <= step <= pattern_len + 1,
        forall|o: int|
            start - step < o < start ==> !is_match(text.symbols(), pattern.symbols(), o),
{
    let first_pattern_char = pattern.value_at(0);
    let window_first = text.value_at(start);
    let c = text.value_at(start - 1);
    proof {
        lemma_backward_advance_safe(text.symbols(), pattern.symbols(), start as int);
        lemma_backward_shift(pattern.symbols(), window_first);
        lemma_backward_shift(pattern.symbols(), c);
    }
    let by_table: usize = bad_char_shift_map.shift(window_first, pattern_len);
    let by_lookahead: usize = if c.same(first_pattern_char) {
        1
    } else {
        bad_char_shift_map.shift(c, pattern_len) + 1
    };
    if by_table >= by_lookahead {
        by_table
    } else {
        by_lookahead
    }
}

/// Finds the occurrences of the pattern in the text, overlapping ones
/// among them, from the head of the text on; a `limit` other than zero bounds
/// their number.
pub fn find_full<TT, TP, M>(
    text: &TT,
    pattern: &TP,
    bad_char_shift_map: &M,
    limit: usize,
) -> (result: Vec<usize>)
    where
        TT: Symbols + ?Sized,
        TP: Symbols<Item = TT::Item> + ?Sized,
        M: ShiftTable<Item = TT::Item>,
    requires
        0 < pattern.symbols().len() <= usize::MAX ==> holds_forward_shifts(
            bad_char_shift_map,
            pattern.symbols(),
        ),
    ensures
        offsets_of(result@) == limited(
            full_matches(text.symbols(), pattern.symbols()),
            limit as int,
        ),
        limit > 0 ==> result@.len() <= limit,
{
    let text_len: usize = text.len();
    let pattern_len: usize = pattern.len();

    if text_len == 0 || pattern_len == 0 || text_len < pattern_len {
        let result: Vec<usize> = Vec::new();
        assert(offsets_of(result@) =~= full_matches(text.symbols(), pattern.symbols()));
        return result;
    }
    let end_index: usize = text_len - pattern_len;
    let ghost t = text.symbols();
    let ghost p = pattern.symbols();
    let ghost total = full_matches(t, p);

    let mut shift: usize = 0;
    let mut result: Vec<usize> = Vec::new();

    assert(offsets_of(result@) + total =~= total);
    loop
        invariant_except_break
            shift <= end_index,
            offsets_of(result@) + matches_in(t, p, shift as int, end_index + 1) == total,
            limit == 0 || result@.len() < limit,
        invariant
            t == text.symbols(),
            p == pattern.symbols(),
            pattern_len == p.len(),
            pattern_len > 0,
            text_len == t.len(),
            end_index == text_len - pattern_len,
            holds_forward_shifts(bad_char_shift_map, p),
        ensures
            offsets_of(result@) == limited(total, limit as int),
            limit > 0 ==> result@.len() <= limit,
        decreases end_index - shift,
    {
        let ghost rest = matches_in(t, p, shift + 1, end_index + 1);
        if window_matches_from_end(text, pattern, pattern_len, shift) {
            proof {
                lemma_offsets_push(result@, shift);
                assert((offsets_of(result@) + seq![shift as int]) + rest =~= offsets_of(result@)
                    + (seq![shift as int] + rest));
            }
            result.push(shift);

            if shift == end_index {
                proof {
                    lemma_limited_whole(offsets_of(result@), rest, limit as int);
                }
                break ;
            }
            if result.len() == limit {
                proof {
                    lemma_limited_prefix(offsets_of(result@), rest, limit as int);
                }
                break ;
            }
        } else if shift == end_index {
            proof {
                lemma_limited_whole(offsets_of(result@), rest, limit as int);
            }
            break ;
        }
        let step: usize = forward_skip(text, pattern, pattern_len, bad_char_shift_map, shift);
        proof {
            lemma_matches_in_skip(t, p, shift + 1, shift + step, end_index + 1);
        }
        shift += step;
        if shift > end_index {
            proof {
                let none = matches_in(t, p, shift as int, end_index + 1);
                lemma_limited_whole(offsets_of(result@), none, limit as int);
            }
            break ;
        }
    }

    result
}

/// Finds the occurrences of the pattern in the text, overlapping ones
/// among them, from the tail of the text on; a `limit` other than zero bounds
/// their number. `shift` is the index of the window's last symbol, so that
/// it stays a machine integer when the window would pass the head of the
/// text: a move that would take it below the pattern's last index ends the
/// scan.
pub fn rfind_full<TT, TP, M>(
    text: &TT,
    pattern: &TP,
    bad_char_shift_map: &M,
    limit: usize,
) -> (result: Vec<usize>)
    where
        TT: Symbols + ?Sized,
        TP: Symbols<Item = TT::Item> + ?Sized,
        M: ShiftTable<Item = TT::Item>,
    requires
        0 < pattern.symbols().len() <= usize::MAX ==> holds_backward_shifts(
            bad_char_shift_map,
            pattern.symbols(),
        ),
    ensures
        offsets_of(result@) == limited(
            full_matches_rev(text.symbols(), pattern.symbols()),
            limit as int,
        ),
        limit > 0 ==> result@.len() <= limit,
{
    let text_len: usize = text.len();
    let pattern_len: usize = pattern.len();

    if text_len == 0 || pattern_len == 0 || text_len < pattern_len {
        let result: Vec<usize> = Vec::new();
        assert(offsets_of(result@) =~= full_matches_rev(text.symbols(), pattern.symbols()));
        return result;
    }
    let pattern_len_dec: usize = pattern_len - 1;
    let start_index: usize = pattern_len_dec;
    let ghost t = text.symbols();
    let ghost p = pattern.symbols();
    let ghost total = full_matches_rev(t, p);

    let mut shift: usize = text_len - 1;
    let mut result: Vec<usize> = Vec::new();

    proof {
        lemma_matches_down_is_reverse(t, p, 0, text_len - pattern_len + 1);
        assert(offsets_of(result@) + total =~= total);
    }
    loop
        invariant_except_break
            start_index <= shift < text_len,
            offsets_of(result@) + matches_down(t, p, 0, shift - pattern_len_dec + 1) == total,
            limit == 0 || result@.len() < limit,
        invariant
            t == text.symbols(),
            p == pattern.symbols(),
            pattern_len == p.len(),
            pattern_len > 0,
            pattern_len_dec == pattern_len - 1,
            start_index == pattern_len_dec,
            text_len == t.len(),
            holds_backward_shifts(bad_char_shift_map, p),
        ensures
            offsets_of(result@) == limited(total, limit as int),
            limit > 0 ==> result@.len() <= limit,
        decreases shift,
    {
        let start: usize = shift - pattern_len_dec;
        let ghost rest = matches_down(t, p, 0, start as int);
        if window_matches_from_start(text, pattern, pattern_len, start) {
            proof {
                lemma_offsets_push(result@, start);
                assert((offsets_of(result@) + seq![start as int]) + rest =~= offsets_of(result@)
                    + (seq![start as int] + rest));
            }
            result.push(start);

            if shift == start_index {
                proof {
                    lemma_limited_whole(offsets_of(result@), rest, limit as int);
                }
                break ;
            }
            if result.len() == limit {
                proof {
                    lemma_limited_prefix(offsets_of(result@), rest, limit as int);
                }
                break ;
            }
        } else if shift < pattern_len {
            proof {
                lemma_limited_whole(offsets_of(result@), rest, limit as int);
            }
            break ;
        }
        let step: usize = backward_skip(text, pattern, pattern_len, bad_char_shift_map, start);
        let ghost none = matches_down(t, p, 0, start - step + 1);
        proof {
            lemma_matches_down_skip(t, p, 0, start - step + 1, start as int);
        }
        if shift < step {
            proof {
                lemma_limited_whole(offsets_of(result@), none, limit as int);
            }
            break ;
        }
        shift -= step;
        if shift < start_index {
            proof {
                lemma_limited_whole(offsets_of(result@), none, limit as int);
            }
            break ;
        }
    }

    result
}

/// Finds the occurrences of the pattern in the text from the head of the
/// text on, passing over those that overlap the one found before; a `limit`
/// other than zero bounds their number. After an occurrence the window moves
/// on by the pattern's length.
pub fn find<TT, TP, M>(
    text: &TT,
    pattern: &TP,
    bad_char_shift_map: &M,
    limit: usize,
) -> (result: Vec<usize>)
    where
        TT: Symbols + ?Sized,
        TP: Symbols<Item = TT::Item> + ?Sized,
        M: ShiftTable<Item = TT::Item>,
    requires
        0 < pattern.symbols().len() <= usize::MAX ==> holds_forward_shifts(
            bad_char_shift_map,
            pattern.symbols(),
        ),
    ensures
        offsets_of(result@) == limited(
            disjoint_matches(text.symbols(), pattern.symbols()),
            limit as int,
        ),
        limit > 0 ==> result@.len() <= limit,
{
    let text_len: usize = text.len();
    let pattern_len: usize = pattern.len();

    if text_len == 0 || pattern_len == 0 || text_len < pattern_len {
        let result: Vec<usize> = Vec::new();
        assert(offsets_of(result@) =~= disjoint_matches(text.symbols(), pattern.symbols()));
        return result;
    }
    let end_index: usize = text_len - pattern_len;
    let ghost t = text.symbols();
    let ghost p = pattern.symbols();
    let ghost total = disjoint_matches(t, p);

    let mut shift: usize = 0;
    let mut result: Vec<usize> = Vec::new();

    assert(offsets_of(result@) + total =~= total);
    loop
        invariant_except_break
            shift <= end_index,
            offsets_of(result@) + keep_disjoint_ascending(
                matches_in(t, p, shift as int, end_index + 1),
                pattern_len as int,
                shift as int,
            ) == total,
            limit == 0 || result@.len() < limit,
        invariant
            t == text.symbols(),
            p == pattern.symbols(),
            pattern_len == p.len(),
            pattern_len > 0,
            text_len == t.len(),
            end_index == text_len - pattern_len,
            holds_forward_shifts(bad_char_shift_map, p),
        ensures
            offsets_of(result@) == limited(total, limit as int),
            limit > 0 ==> result@.len() <= limit,
        decreases end_index - shift,
    {
        if window_matches_from_end(text, pattern, pattern_len, shift) {
            let ghost rest = keep_disjoint_ascending(
                matches_in(t, p, shift + pattern_len, end_index + 1),
                pattern_len as int,
                shift + pattern_len,
            );
            proof {
                lemma_disjoint_step_match(t, p, shift as int, end_index + 1);
                lemma_offsets_push(result@, shift);
                assert((offsets_of(result@) + seq![shift as int]) + rest =~= offsets_of(result@)
                    + (seq![shift as int] + rest));
            }
            result.push(shift);

            if shift == end_index {
                proof {
                    lemma_limited_whole(offsets_of(result@), rest, limit as int);
                }
                break ;
            }
            if result.len() == limit {
                proof {
                    lemma_limited_prefix(offsets_of(result@), rest, limit as int);
                }
                break ;
            }
            shift += pattern_len;
        } else {
            if shift == end_index {
                proof {
                    let none = keep_disjoint_ascending(
                        matches_in(t, p, shift as int, end_index + 1),
                        pattern_len as int,
                        shift as int,
                    );
                    assert(matches_in(t, p, shift + 1, end_index + 1).len() == 0);
                    lemma_limited_whole(offsets_of(result@), none, limit as int);
                }
                break ;
            }
            let step: usize = forward_skip(text, pattern, pattern_len, bad_char_shift_map, shift);
            proof {
                lemma_disjoint_step_skip(t, p, shift as int, shift + step, end_index + 1);
            }
            shift += step;
        }
        if shift > end_index {
            proof {
                let none = keep_disjoint_ascending(
                    matches_in(t, p, shift as int, end_index + 1),
                    pattern_len as int,
                    shift as int,
                );
                lemma_limited_whole(offsets_of(result@), none, limit as int);
            }
            break ;
        }
    }

    result
}

/// Finds the occurrences of the pattern in the text from the tail of the
/// text on, passing over those that overlap the one found before; a `limit`
/// other than zero bounds their number. After an occurrence the window moves
/// back by the pattern's length.
pub fn rfind<TT, TP, M>(
    text: &TT,
    pattern: &TP,
    bad_char_shift_map: &M,
    limit: usize,
) -> (result: Vec<usize>)
    where
        TT: Symbols + ?Sized,
        TP: Symbols<Item = TT::Item> + ?Sized,
        M: ShiftTable<Item = TT::Item>,
    requires
        0 < pattern.symbols().len() <= usize::MAX ==> holds_backward_shifts(
            bad_char_shift_map,
            pattern.symbols(),
        ),
    ensures
        offsets_of(result@) == limited(
            disjoint_matches_rev(text.symbols(), pattern.symbols()),
            limit as int,
        ),
        limit > 0 ==> result@.len() <= limit,
{
    let text_len: usize = text.len();
    let pattern_len: usize = pattern.len();

    if text_len == 0 || pattern_len == 0 || text_len < pattern_len {
        let result: Vec<usize> = Vec::new();
        assert(full_matches_rev(text.symbols(), pattern.symbols()) =~= Seq::<int>::empty());
        assert(offsets_of(result@) =~= disjoint_matches_rev(text.symbols(), pattern.symbols()));
        return result;
    }
    let pattern_len_dec: usize = pattern_len - 1;
    let start_index: usize = pattern_len_dec;
    let ghost t = text.symbols();
    let ghost p = pattern.symbols();
    let ghost total = disjoint_matches_rev(t, p);

    let mut shift: usize = text_len - 1;
    let mut result: Vec<usize> = Vec::new();

    proof {
        lemma_matches_down_is_reverse(t, p, 0, text_len - pattern_len + 1);
        assert(offsets_of(result@) + total =~= total);
    }
    loop
        invariant_except_break
            start_index <= shift < text_len,
            offsets_of(result@) + keep_disjoint_descending(
                matches_down(t, p, 0, shift - pattern_len_dec + 1),
                pattern_len as int,
                shift + 1,
            ) == total,
            limit == 0 || result@.len() < limit,
        invariant
            t == text.symbols(),
            p == pattern.symbols(),
            pattern_len == p.len(),
            pattern_len > 0,
            pattern_len_dec == pattern_len - 1,
            start_index == pattern_len_dec,
            text_len == t.len(),
            holds_backward_shifts(bad_char_shift_map, p),
        ensures
            offsets_of(result@) == limited(total, limit as int),
            limit > 0 ==> result@.len() <= limit,
        decreases shift,
    {
        let start: usize = shift - pattern_len_dec;
        if window_matches_from_start(text, pattern, pattern_len, start) {
            let ghost rest = keep_disjoint_descending(
                matches_down(t, p, 0, start - pattern_len + 1),
                pattern_len as int,
                start as int,
            );
            proof {
                lemma_disjoint_rev_step_match(t, p, start as int);
                lemma_offsets_push(result@, start);
                assert((offsets_of(result@) + seq![start as int]) + rest =~= offsets_of(result@)
                    + (seq![start as int] + rest));
            }
            result.push(start);

            if shift == start_index {
                proof {
                    lemma_limited_whole(offsets_of(result@), rest, limit as int);
                }
                break ;
            }
            if result.len() == limit {
                proof {
                    lemma_limited_prefix(offsets_of(result@), rest, limit as int);
                }
                break ;
            }
            shift -= pattern_len;
            if shift < start_index {
                proof {
                    lemma_limited_whole(offsets_of(result@), rest, limit as int);
                }
                break ;
            }
        } else {
            if shift < pattern_len {
                proof {
                    let none = keep_disjoint_descending(
                        matches_down(t, p, 0, start + 1),
                        pattern_len as int,
                        shift + 1,
                    );
                    assert(matches_down(t, p, 0, start as int).len() == 0);
                    lemma_limited_whole(offsets_of(result@), none, limit as int);
                }
                break ;
            }
            let step: usize = backward_skip(text, pattern, pattern_len, bad_char_shift_map, start);
            let ghost rest = keep_disjoint_descending(
                matches_down(t, p, 0, start - step + 1),
                pattern_len as int,
                start - step + pattern_len,
            );
            proof {
                lemma_disjoint_rev_step_skip(t, p, start as int, start - step);
            }
            if shift < step {
                proof {
                    lemma_limited_whole(offsets_of(result@), rest, limit as int);
                }
                break ;
            }
            shift -= step;
            if shift < start_index {
                proof {
                    lemma_limited_whole(offsets_of(result@), rest, limit as int);
                }
                break ;
            }
        }
    }

    result
}

} // verus!
