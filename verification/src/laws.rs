//! What holds of every search, stated over the model: which offsets are
//! reported, in which order, and what the shift tables and the advance of a
//! scan guarantee.

use crate::lemmas::{
    lemma_first_index_of, lemma_keep_ascending_covers, lemma_keep_ascending_spaced,
    lemma_keep_descending_covers, lemma_keep_descending_spaced, lemma_last_index_of,
    lemma_match_pointwise, lemma_matches_in_exact, lemma_matches_in_first,
};
use crate::matching::{
    backward_advance, backward_lookahead, backward_shift, disjoint_matches,
    disjoint_matches_rev, first_index_of, first_of, forward_advance, forward_lookahead,
    forward_shift, full_matches, full_matches_rev, in_window_after, in_window_before,
    is_ascending, is_descending, is_match, keep_disjoint_ascending, keep_disjoint_descending,
    last_index_of, limited, matches_in,
};
use vstd::prelude::*;

verus! {

/// The occurrences of a non-empty pattern listed for a text are exactly the
/// offsets at which the pattern occurs, each listed once, in ascending order.
pub proof fn lemma_full_matches_exact<T>(text: Seq<T>, pattern: Seq<T>)
    requires
        pattern.len() > 0,
    ensures
        forall|o: int| full_matches(text, pattern).contains(o) <==> is_match(text, pattern, o),
        is_ascending(full_matches(text, pattern)),
{
    let hi = text.len() - pattern.len() + 1;
    let s = full_matches(text, pattern);
    lemma_matches_in_exact(text, pattern, 0, hi);
    assert forall|o: int| s.contains(o) implies is_match(text, pattern, o) by {
        let i = choose|i: int| 0 <= i < s.len() && s[i] == o;
        assert(is_match(text, pattern, s[i]));
    }
}

/// The descending list of occurrences is the ascending list read backward:
/// it holds the same offsets, and reversing it gives the ascending list.
pub proof fn lemma_full_matches_rev_mirrors<T>(text: Seq<T>, pattern: Seq<T>)
    ensures
        full_matches_rev(text, pattern) == full_matches(text, pattern).reverse(),
        full_matches_rev(text, pattern).reverse() == full_matches(text, pattern),
        full_matches_rev(text, pattern).len() == full_matches(text, pattern).len(),
        forall|o: int|
            full_matches_rev(text, pattern).contains(o) <==> full_matches(text, pattern).contains(
                o,
            ),
        pattern.len() > 0 ==> is_descending(full_matches_rev(text, pattern)),
{
    let full = full_matches(text, pattern);
    let rev = full_matches_rev(text, pattern);
    assert(rev.reverse() =~= full);
    assert forall|x: int| rev.contains(x) <==> full.contains(x) by {
        if rev.contains(x) {
            let i = choose|i: int| 0 <= i < rev.len() && rev[i] == x;
            assert(full[full.len() - 1 - i] == x);
        }
        if full.contains(x) {
            let i = choose|i: int| 0 <= i < full.len() && full[i] == x;
            assert(rev[rev.len() - 1 - i] == x);
        }
    }
    if pattern.len() > 0 {
        lemma_full_matches_exact(text, pattern);
        assert forall|i: int, j: int| 0 <= i < j < rev.len() implies rev[i] > rev[j] by {
            assert(rev[i] == full[full.len() - 1 - i]);
            assert(rev[j] == full[full.len() - 1 - j]);
        }
    }
}

/// A forward shift lies between one and the pattern's length, and the symbol
/// does not occur in the last `forward_shift - 1` places before the last one.
pub proof fn lemma_forward_shift<T>(pattern: Seq<T>, c: T)
    requires
        pattern.len() > 0,
    ensures
        1 <= forward_shift(pattern, c) <= pattern.len(),
        forall|j: int|
            pattern.len() - 1 - forward_shift(pattern, c) < j < pattern.len() - 1
                ==> pattern[j] != c,
        forward_shift(pattern, c) < pattern.len() ==> pattern[pattern.len() - 1 - forward_shift(
            pattern,
            c,
        )] == c,
{
    let body = pattern.drop_last();
    lemma_last_index_of(body, c);
    assert forall|j: int|
        pattern.len() - 1 - forward_shift(pattern, c) < j < pattern.len() - 1 implies pattern[j]
        != c by {
        assert(body[j] == pattern[j]);
    }
    if body.contains(c) {
        assert(body[last_index_of(body, c)] == pattern[last_index_of(body, c)]);
    }
}

/// A backward shift lies between one and the pattern's length, and the symbol
/// does not occur in the first `backward_shift - 1` places after the first
/// one.
pub proof fn lemma_backward_shift<T>(pattern: Seq<T>, c: T)
    requires
        pattern.len() > 0,
    ensures
        1 <= backward_shift(pattern, c) <= pattern.len(),
        forall|j: int| 1 <= j < backward_shift(pattern, c) ==> pattern[j] != c,
        backward_shift(pattern, c) < pattern.len() ==> pattern[backward_shift(pattern, c)] == c,
{
    let body = pattern.drop_first();
    lemma_first_index_of(body, c);
    assert forall|j: int| 1 <= j < backward_shift(pattern, c) implies pattern[j] != c by {
        assert(body[j - 1] == pattern[j]);
    }
    if body.contains(c) {
        assert(body[first_index_of(body, c)] == pattern[first_index_of(body, c) + 1]);
    }
}

/// The backward shift is the mirror image of the forward shift: the
/// backward shift of a symbol for a pattern is its forward shift for the
/// pattern read backward.
pub proof fn lemma_backward_shift_mirrors<T>(pattern: Seq<T>, c: T)
    requires
        pattern.len() > 0,
    ensures
        backward_shift(pattern, c) == forward_shift(pattern.reverse(), c),
{
    let body = pattern.drop_first();
    let mirrored = pattern.reverse().drop_last();
    let len = body.len() as int;
    assert(mirrored =~= body.reverse());
    lemma_first_index_of(body, c);
    lemma_last_index_of(mirrored, c);
    let first = first_index_of(body, c);
    let last = last_index_of(mirrored, c);
    if body.contains(c) {
        assert(mirrored[len - 1 - first] == body[first]);
        if last >= 0 {
            assert(mirrored[last] == body[len - 1 - last]);
        }
        assert(last == len - 1 - first);
    } else if last >= 0 {
        assert(mirrored[last] == body[len - 1 - last]);
    }
}

/// An occurrence in a text is an occurrence of the pattern read backward in
/// the text read backward, as far from the tail as it was from the head.
pub proof fn lemma_match_mirrors<T>(text: Seq<T>, pattern: Seq<T>, o: int)
    ensures
        is_match(text, pattern, o) <==> is_match(
            text.reverse(),
            pattern.reverse(),
            text.len() - pattern.len() - o,
        ),
{
    let n = text.len() as int;
    let m = pattern.len() as int;
    let t = text.reverse();
    let p = pattern.reverse();
    let at = n - m - o;
    lemma_match_pointwise(text, pattern, o);
    lemma_match_pointwise(t, p, at);
    if 0 <= o && o + m <= n {
        if is_match(text, pattern, o) {
            assert forall|i: int| 0 <= i < m implies t[at + i] == #[trigger] p[i] by {
                assert(text[o + (m - 1 - i)] == pattern[m - 1 - i]);
            }
        }
        if is_match(t, p, at) {
            assert forall|i: int| 0 <= i < m implies text[o + i] == #[trigger] pattern[i] by {
                assert(t[at + (m - 1 - i)] == p[m - 1 - i]);
            }
        }
    }
}

/// A forward advance passes over no occurrence: between the window and the
/// place the scan moves to, the pattern does not occur.
pub proof fn lemma_forward_advance_safe<T>(text: Seq<T>, pattern: Seq<T>, start: int)
    requires
        pattern.len() > 0,
        0 <= start,
        start + pattern.len() < text.len(),
    ensures
        1 <= forward_advance(text, pattern, start) <= pattern.len() + 1,
        forall|o: int|
            start < o < start + forward_advance(text, pattern, start) ==> !is_match(
                text,
                pattern,
                o,
            ),
{
    let m = pattern.len() as int;
    let c1 = text[start + m - 1];
    let c2 = text[start + m];
    lemma_forward_shift(pattern, c1);
    lemma_forward_shift(pattern, c2);
    let adv = forward_advance(text, pattern, start);
    assert forall|o: int| start < o < start + adv implies !is_match(text, pattern, o) by {
        if is_match(text, pattern, o) {
            lemma_match_pointwise(text, pattern, o);
            let d = o - start;
            assert(text[o + (m - d)] == pattern[m - d]);
            if d < forward_shift(pattern, c1) {
                assert(text[o + (m - 1 - d)] == pattern[m - 1 - d]);
                assert(false);
            } else {
                assert(d < forward_lookahead(pattern, c2));
                assert(false);
            }
        }
    }
}

/// A backward advance passes over no occurrence.
pub proof fn lemma_backward_advance_safe<T>(text: Seq<T>, pattern: Seq<T>, start: int)
    requires
        pattern.len() > 0,
        1 <= start,
        start + pattern.len() <= text.len(),
    ensures
        1 <= backward_advance(text, pattern, start) <= pattern.len() + 1,
        forall|o: int|
            start - backward_advance(text, pattern, start) < o < start ==> !is_match(
                text,
                pattern,
                o,
            ),
{
    let m = pattern.len() as int;
    let c1 = text[start];
    let c2 = text[start - 1];
    lemma_backward_shift(pattern, c1);
    lemma_backward_shift(pattern, c2);
    let adv = backward_advance(text, pattern, start);
    assert forall|o: int| start - adv < o < start implies !is_match(text, pattern, o) by {
        if is_match(text, pattern, o) {
            lemma_match_pointwise(text, pattern, o);
            let d = start - o;
            assert(text[o + (d - 1)] == pattern[d - 1]);
            if d < backward_shift(pattern, c1) {
                assert(text[o + d] == pattern[d]);
                assert(false);
            } else {
                assert(d < backward_lookahead(pattern, c2));
                assert(false);
            }
        }
    }
}

/// What a forward scan for disjoint occurrences reports: occurrences whose
/// windows do not overlap, such that every occurrence of the pattern starts
/// in the window of a reported one. So the leftmost occurrence is kept, and
/// an occurrence is passed over only if it starts before the end of a window
/// kept before it.
pub proof fn lemma_disjoint_matches_greedy<T>(text: Seq<T>, pattern: Seq<T>)
    requires
        pattern.len() > 0,
    ensures
        forall|i: int|
            0 <= i < disjoint_matches(text, pattern).len() ==> is_match(
                text,
                pattern,
                #[trigger] disjoint_matches(text, pattern)[i],
            ),
        forall|i: int, j: int|
            0 <= i < j < disjoint_matches(text, pattern).len() ==> disjoint_matches(
                text,
                pattern,
            )[i] + pattern.len() <= disjoint_matches(text, pattern)[j],
        forall|o: int|
            is_match(text, pattern, o) ==> in_window_after(
                disjoint_matches(text, pattern),
                pattern.len() as int,
                o,
            ),
{
    let full = full_matches(text, pattern);
    let kept = disjoint_matches(text, pattern);
    let m = pattern.len() as int;
    lemma_full_matches_exact(text, pattern);
    lemma_keep_ascending_spaced(full, m, 0);
    assert forall|i: int| 0 <= i < kept.len() implies is_match(
        text,
        pattern,
        #[trigger] kept[i],
    ) by {
        assert(full.contains(kept[i]));
    }
    assert forall|o: int| is_match(text, pattern, o) implies in_window_after(kept, m, o) by {
        assert(full.contains(o));
        lemma_keep_ascending_covers(full, m, 0, o);
    }
}

/// What a backward scan for disjoint occurrences reports: occurrences whose
/// windows do not overlap, such that every occurrence of the pattern starts
/// less than a pattern's length before a reported one, or at it. So the
/// rightmost occurrence is kept, and an occurrence is passed over only if its
/// window ends after the start of a window kept before it.
pub proof fn lemma_disjoint_matches_rev_greedy<T>(text: Seq<T>, pattern: Seq<T>)
    requires
        pattern.len() > 0,
    ensures
        forall|i: int|
            0 <= i < disjoint_matches_rev(text, pattern).len() ==> is_match(
                text,
                pattern,
                #[trigger] disjoint_matches_rev(text, pattern)[i],
            ),
        forall|i: int, j: int|
            0 <= i < j < disjoint_matches_rev(text, pattern).len() ==> disjoint_matches_rev(
                text,
                pattern,
            )[j] + pattern.len() <= disjoint_matches_rev(text, pattern)[i],
        forall|o: int|
            is_match(text, pattern, o) ==> in_window_before(
                disjoint_matches_rev(text, pattern),
                pattern.len() as int,
                o,
            ),
{
    let full = full_matches(text, pattern);
    let rev = full_matches_rev(text, pattern);
    let kept = disjoint_matches_rev(text, pattern);
    let m = pattern.len() as int;
    lemma_full_matches_exact(text, pattern);
    lemma_full_matches_rev_mirrors(text, pattern);
    lemma_keep_descending_spaced(rev, m, text.len() as int);
    assert forall|i: int| 0 <= i < kept.len() implies is_match(
        text,
        pattern,
        #[trigger] kept[i],
    ) by {
        assert(rev.contains(kept[i]));
    }
    assert forall|o: int| is_match(text, pattern, o) implies in_window_before(kept, m, o) by {
        assert(full.contains(o));
        lemma_keep_descending_covers(rev, m, text.len() as int, o);
    }
}

/// A scan for disjoint occurrences reports something exactly when the
/// pattern occurs, and then it reports the first occurrence first.
pub proof fn lemma_disjoint_first<T>(text: Seq<T>, pattern: Seq<T>)
    ensures
        first_of(disjoint_matches(text, pattern)) == first_of(full_matches(text, pattern)),
{
    let full = full_matches(text, pattern);
    if full.len() > 0 {
        lemma_matches_in_first(text, pattern, 0, text.len() - pattern.len() + 1);
    }
}

/// A backward scan for disjoint occurrences reports something exactly when
/// the pattern occurs, and then it reports the last occurrence first.
pub proof fn lemma_disjoint_rev_first<T>(text: Seq<T>, pattern: Seq<T>)
    ensures
        first_of(disjoint_matches_rev(text, pattern)) == first_of(full_matches_rev(text, pattern)),
{
    let full = full_matches(text, pattern);
    let rev = full_matches_rev(text, pattern);
    if full.len() > 0 {
        lemma_matches_in_exact(text, pattern, 0, text.len() - pattern.len() + 1);
        assert(rev[0] == full[full.len() - 1]);
        assert(is_match(text, pattern, rev[0]));
    }
}

/// A limit of zero keeps the whole result; any other limit keeps at most
/// that many offsets, taken from the front of the result in their order.
pub proof fn lemma_limited(offsets: Seq<int>, limit: int)
    requires
        limit >= 0,
    ensures
        limited(offsets, 0) == offsets,
        limit > 0 ==> limited(offsets, limit).len() <= limit,
        limit >= offsets.len() ==> limited(offsets, limit) == offsets,
        limited(offsets, limit) == offsets.take(limited(offsets, limit).len() as int),
{
    assert(offsets.take(offsets.len() as int) =~= offsets);
}

/// Limiting a result does not change what comes first in it.
pub proof fn lemma_limited_first(offsets: Seq<int>, limit: int)
    requires
        limit >= 0,
    ensures
        first_of(limited(offsets, limit)) == first_of(offsets),
{
}

/// A text shorter than the pattern holds no occurrence, whatever the scan.
pub proof fn lemma_short_text_has_no_matches<T>(text: Seq<T>, pattern: Seq<T>)
    requires
        text.len() < pattern.len(),
    ensures
        full_matches(text, pattern) == Seq::<int>::empty(),
        full_matches_rev(text, pattern) == Seq::<int>::empty(),
        disjoint_matches(text, pattern) == Seq::<int>::empty(),
        disjoint_matches_rev(text, pattern) == Seq::<int>::empty(),
{
    assert(full_matches(text, pattern) =~= Seq::<int>::empty());
    assert(full_matches_rev(text, pattern) =~= Seq::<int>::empty());
}

/// A non-empty pattern occurs in itself at offset zero and nowhere else,
/// whatever the scan.
pub proof fn lemma_pattern_matches_itself<T>(pattern: Seq<T>)
    requires
        pattern.len() > 0,
    ensures
        full_matches(pattern, pattern) == seq![0int],
        full_matches_rev(pattern, pattern) == seq![0int],
        disjoint_matches(pattern, pattern) == seq![0int],
        disjoint_matches_rev(pattern, pattern) == seq![0int],
{
    let full = full_matches(pattern, pattern);
    assert(pattern.subrange(0, pattern.len() as int) =~= pattern);
    assert(is_match(pattern, pattern, 0));
    assert(matches_in(pattern, pattern, 1, 1) == Seq::<int>::empty());
    assert(full =~= seq![0int]);
    assert(full.reverse() =~= seq![0int]);
    assert(full.drop_first() =~= Seq::<int>::empty());
    assert(keep_disjoint_ascending(full.drop_first(), pattern.len() as int, pattern.len() as int)
        == Seq::<int>::empty());
    assert(keep_disjoint_descending(full.drop_first(), pattern.len() as int, 0)
        == Seq::<int>::empty());
    assert(disjoint_matches(pattern, pattern) =~= seq![0int]);
    assert(disjoint_matches_rev(pattern, pattern) =~= seq![0int]);
}

} // verus!
