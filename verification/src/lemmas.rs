//! What the scans rest on: how the lists of occurrences of the model behave
//! when a scan moves its window, reports an occurrence or reaches its limit.

use crate::matching::{
    first_index_of, in_window_after, in_window_before, is_ascending, is_descending, is_match,
    keep_disjoint_ascending, keep_disjoint_descending, last_index_of, limited, matches_down,
    matches_in, offsets_of,
};
use vstd::prelude::*;

verus! {

/// An occurrence is a window that agrees with the pattern symbol by symbol.
pub proof fn lemma_match_pointwise<T>(text: Seq<T>, pattern: Seq<T>, o: int)
    ensures
        is_match(text, pattern, o) <==> (0 <= o && o + pattern.len() <= text.len() && forall|
            i: int,
        |
            0 <= i < pattern.len() ==> text[o + i] == #[trigger] pattern[i]),
{
    if 0 <= o && o + pattern.len() <= text.len() {
        let w = text.subrange(o, o + pattern.len());
        if w == pattern {
            assert forall|i: int| 0 <= i < pattern.len() implies text[o + i]
                == #[trigger] pattern[i] by {
                assert(w[i] == text[o + i]);
            }
        }
        if forall|i: int| 0 <= i < pattern.len() ==> text[o + i] == #[trigger] pattern[i] {
            assert(w =~= pattern);
        }
    }
}

/// What `last_index_of` returns: the place of the last occurrence.
pub proof fn lemma_last_index_of<T>(s: Seq<T>, c: T)
    ensures
        -1 <= last_index_of(s, c) < s.len(),
        last_index_of(s, c) >= 0 <==> s.contains(c),
        last_index_of(s, c) >= 0 ==> s[last_index_of(s, c)] == c,
        forall|j: int| last_index_of(s, c) < j < s.len() ==> s[j] != c,
    decreases s.len(),
{
    if s.len() == 0 {
    } else if s.last() == c {
        assert(s[s.len() - 1] == c);
    } else {
        let t = s.drop_last();
        lemma_last_index_of(t, c);
        let k = last_index_of(t, c);
        assert forall|j: int| k < j < s.len() implies s[j] != c by {
            if j < t.len() {
                assert(t[j] == s[j]);
            }
        }
        if k >= 0 {
            assert(s[k] == t[k]);
        }
        if s.contains(c) {
            let j = choose|j: int| 0 <= j < s.len() && s[j] == c;
            assert(t[j] == c);
        }
    }
}

/// What `first_index_of` returns: the place of the first occurrence.
pub proof fn lemma_first_index_of<T>(s: Seq<T>, c: T)
    ensures
        0 <= first_index_of(s, c) <= s.len(),
        first_index_of(s, c) < s.len() <==> s.contains(c),
        first_index_of(s, c) < s.len() ==> s[first_index_of(s, c)] == c,
        forall|j: int| 0 <= j < first_index_of(s, c) ==> s[j] != c,
    decreases s.len(),
{
    if s.len() == 0 {
    } else if s[0] == c {
    } else {
        let t = s.drop_first();
        lemma_first_index_of(t, c);
        let k = first_index_of(t, c);
        assert forall|j: int| 0 <= j < 1 + k implies s[j] != c by {
            if j > 0 {
                assert(t[j - 1] == s[j]);
            }
        }
        if k < t.len() {
            assert(s[k + 1] == t[k]);
        }
        if s.contains(c) {
            let j = choose|j: int| 0 <= j < s.len() && s[j] == c;
            assert(t[j - 1] == c);
        }
    }
}

/// Where the pattern does not occur in `[lo, mid)`, the occurrences from `lo`
/// on are those from `mid` on.
pub proof fn lemma_matches_in_skip<T>(text: Seq<T>, pattern: Seq<T>, lo: int, mid: int, hi: int)
    requires
        lo <= mid,
        forall|o: int| lo <= o < mid ==> !is_match(text, pattern, o),
    ensures
        matches_in(text, pattern, lo, hi) == matches_in(text, pattern, mid, hi),
    decreases mid - lo,
{
    if lo < mid {
        lemma_matches_in_skip(text, pattern, lo + 1, mid, hi);
        if lo >= hi {
            assert(matches_in(text, pattern, mid, hi) == Seq::<int>::empty());
        }
    }
}

/// Where the pattern does not occur in `[mid, hi)`, the occurrences below
/// `hi` are those below `mid`.
pub proof fn lemma_matches_down_skip<T>(
    text: Seq<T>,
    pattern: Seq<T>,
    lo: int,
    mid: int,
    hi: int,
)
    requires
        mid <= hi,
        forall|o: int| mid <= o < hi ==> !is_match(text, pattern, o),
    ensures
        matches_down(text, pattern, lo, hi) == matches_down(text, pattern, lo, mid),
    decreases hi - mid,
{
    if mid < hi {
        lemma_matches_down_skip(text, pattern, lo, mid, hi - 1);
        if lo >= hi {
            assert(matches_down(text, pattern, lo, mid) == Seq::<int>::empty());
        }
    }
}

/// The occurrences in a range are those of its lower part followed by those
/// of its upper part.
pub proof fn lemma_matches_in_split<T>(text: Seq<T>, pattern: Seq<T>, lo: int, mid: int, hi: int)
    requires
        lo <= mid <= hi,
    ensures
        matches_in(text, pattern, lo, hi) == matches_in(text, pattern, lo, mid) + matches_in(
            text,
            pattern,
            mid,
            hi,
        ),
    decreases mid - lo,
{
    let right = matches_in(text, pattern, mid, hi);
    if lo < mid {
        lemma_matches_in_split(text, pattern, lo + 1, mid, hi);
        let rest = matches_in(text, pattern, lo + 1, mid);
        if is_match(text, pattern, lo) {
            assert(seq![lo] + (rest + right) =~= (seq![lo] + rest) + right);
        }
    } else {
        assert(Seq::<int>::empty() + right =~= right);
    }
}

/// The descending list of occurrences is the ascending one reversed.
pub proof fn lemma_matches_down_is_reverse<T>(text: Seq<T>, pattern: Seq<T>, lo: int, hi: int)
    ensures
        matches_down(text, pattern, lo, hi) == matches_in(text, pattern, lo, hi).reverse(),
    decreases hi - lo,
{
    if lo >= hi {
        assert(Seq::<int>::empty().reverse() =~= Seq::<int>::empty());
    } else {
        lemma_matches_down_is_reverse(text, pattern, lo, hi - 1);
        lemma_matches_in_split(text, pattern, lo, hi - 1, hi);
        let below = matches_in(text, pattern, lo, hi - 1);
        let top = matches_in(text, pattern, hi - 1, hi);
        assert(matches_in(text, pattern, hi, hi) == Seq::<int>::empty());
        if is_match(text, pattern, hi - 1) {
            assert(top =~= seq![hi - 1]);
            assert((below + top).reverse() =~= seq![hi - 1] + below.reverse());
        } else {
            assert(top =~= Seq::<int>::empty());
            assert(below + top =~= below);
        }
    }
}

/// The occurrences listed for a range are exactly the occurrences in that
/// range, each listed once, in ascending order.
pub proof fn lemma_matches_in_exact<T>(text: Seq<T>, pattern: Seq<T>, lo: int, hi: int)
    ensures
        forall|i: int|
            0 <= i < matches_in(text, pattern, lo, hi).len() ==> {
                let o = #[trigger] matches_in(text, pattern, lo, hi)[i];
                lo <= o < hi && is_match(text, pattern, o)
            },
        is_ascending(matches_in(text, pattern, lo, hi)),
        forall|o: int|
            lo <= o < hi && is_match(text, pattern, o) ==> matches_in(
                text,
                pattern,
                lo,
                hi,
            ).contains(o),
    decreases hi - lo,
{
    if lo < hi {
        lemma_matches_in_exact(text, pattern, lo + 1, hi);
        let s = matches_in(text, pattern, lo, hi);
        let rest = matches_in(text, pattern, lo + 1, hi);
        if is_match(text, pattern, lo) {
            assert(s[0] == lo);
            assert forall|i: int| 1 <= i < s.len() implies s[i] == rest[i - 1] by {}
            assert forall|o: int| lo <= o < hi && is_match(text, pattern, o) implies s.contains(
                o,
            ) by {
                if o > lo {
                    let k = choose|k: int| 0 <= k < rest.len() && rest[k] == o;
                    assert(s[k + 1] == o);
                }
            }
        }
    }
}

/// The first listed occurrence of a range, if any, is not below the range.
pub proof fn lemma_matches_in_first<T>(text: Seq<T>, pattern: Seq<T>, lo: int, hi: int)
    ensures
        matches_in(text, pattern, lo, hi).len() > 0 ==> matches_in(text, pattern, lo, hi)[0] >= lo,
    decreases hi - lo,
{
    if lo < hi && !is_match(text, pattern, lo) {
        lemma_matches_in_first(text, pattern, lo + 1, hi);
    }
}

/// The first listed occurrence below a bound, if any, is below the bound.
pub proof fn lemma_matches_down_first<T>(text: Seq<T>, pattern: Seq<T>, lo: int, hi: int)
    ensures
        matches_down(text, pattern, lo, hi).len() > 0 ==> matches_down(text, pattern, lo, hi)[0]
            < hi,
    decreases hi - lo,
{
    if lo < hi && !is_match(text, pattern, hi - 1) {
        lemma_matches_down_first(text, pattern, lo, hi - 1);
    }
}

/// The ascending filter passes over the occurrences below its floor.
pub proof fn lemma_keep_ascending_below_floor<T>(
    text: Seq<T>,
    pattern: Seq<T>,
    lo: int,
    mid: int,
    hi: int,
    width: int,
    floor: int,
)
    requires
        lo <= mid <= floor,
    ensures
        keep_disjoint_ascending(matches_in(text, pattern, lo, hi), width, floor)
            == keep_disjoint_ascending(matches_in(text, pattern, mid, hi), width, floor),
    decreases mid - lo,
{
    if lo < mid {
        lemma_keep_ascending_below_floor(text, pattern, lo + 1, mid, hi, width, floor);
        if lo >= hi {
            assert(matches_in(text, pattern, mid, hi) == Seq::<int>::empty());
        } else if is_match(text, pattern, lo) {
            let rest = matches_in(text, pattern, lo + 1, hi);
            assert((seq![lo] + rest).drop_first() =~= rest);
        }
    }
}

/// The descending filter passes over the occurrences whose window would end
/// above its ceiling.
pub proof fn lemma_keep_descending_above_ceiling<T>(
    text: Seq<T>,
    pattern: Seq<T>,
    lo: int,
    mid: int,
    hi: int,
    width: int,
    ceiling: int,
)
    requires
        mid <= hi,
        ceiling < mid + width,
    ensures
        keep_disjoint_descending(matches_down(text, pattern, lo, hi), width, ceiling)
            == keep_disjoint_descending(matches_down(text, pattern, lo, mid), width, ceiling),
    decreases hi - mid,
{
    if mid < hi {
        lemma_keep_descending_above_ceiling(text, pattern, lo, mid, hi - 1, width, ceiling);
        if lo >= hi {
            assert(matches_down(text, pattern, lo, mid) == Seq::<int>::empty());
        } else if is_match(text, pattern, hi - 1) {
            let rest = matches_down(text, pattern, lo, hi - 1);
            assert((seq![hi - 1] + rest).drop_first() =~= rest);
        }
    }
}

/// One step of a forward scan for disjoint occurrences, at an occurrence:
/// it is kept, and the scan goes on one pattern length further.
pub proof fn lemma_disjoint_step_match<T>(text: Seq<T>, pattern: Seq<T>, start: int, hi: int)
    requires
        is_match(text, pattern, start),
        pattern.len() > 0,
        start < hi,
    ensures
        keep_disjoint_ascending(
            matches_in(text, pattern, start, hi),
            pattern.len() as int,
            start,
        ) == seq![start] + keep_disjoint_ascending(
            matches_in(text, pattern, start + pattern.len(), hi),
            pattern.len() as int,
            start + pattern.len(),
        ),
{
    let m = pattern.len() as int;
    let rest = matches_in(text, pattern, start + 1, hi);
    assert((seq![start] + rest).drop_first() =~= rest);
    lemma_keep_ascending_below_floor(text, pattern, start + 1, start + m, hi, m, start + m);
}

/// One step of a forward scan for disjoint occurrences, over a stretch
/// without occurrences.
pub proof fn lemma_disjoint_step_skip<T>(
    text: Seq<T>,
    pattern: Seq<T>,
    start: int,
    next: int,
    hi: int,
)
    requires
        start <= next,
        forall|o: int| start <= o < next ==> !is_match(text, pattern, o),
    ensures
        keep_disjoint_ascending(
            matches_in(text, pattern, start, hi),
            pattern.len() as int,
            start,
        ) == keep_disjoint_ascending(
            matches_in(text, pattern, next, hi),
            pattern.len() as int,
            next,
        ),
{
    lemma_matches_in_skip(text, pattern, start, next, hi);
    lemma_matches_in_first(text, pattern, next, hi);
}

/// One step of a backward scan for disjoint occurrences, at an occurrence:
/// it is kept, and the scan goes on one pattern length before it.
pub proof fn lemma_disjoint_rev_step_match<T>(text: Seq<T>, pattern: Seq<T>, start: int)
    requires
        is_match(text, pattern, start),
        pattern.len() > 0,
    ensures
        keep_disjoint_descending(
            matches_down(text, pattern, 0, start + 1),
            pattern.len() as int,
            start + pattern.len(),
        ) == seq![start] + keep_disjoint_descending(
            matches_down(text, pattern, 0, start - pattern.len() + 1),
            pattern.len() as int,
            start,
        ),
{
    let m = pattern.len() as int;
    let rest = matches_down(text, pattern, 0, start);
    assert((seq![start] + rest).drop_first() =~= rest);
    lemma_keep_descending_above_ceiling(text, pattern, 0, start - m + 1, start, m, start);
}

/// One step of a backward scan for disjoint occurrences, over a stretch
/// without occurrences.
pub proof fn lemma_disjoint_rev_step_skip<T>(
    text: Seq<T>,
    pattern: Seq<T>,
    start: int,
    next: int,
)
    requires
        next <= start,
        forall|o: int| next < o <= start ==> !is_match(text, pattern, o),
    ensures
        keep_disjoint_descending(
            matches_down(text, pattern, 0, start + 1),
            pattern.len() as int,
            start + pattern.len(),
        ) == keep_disjoint_descending(
            matches_down(text, pattern, 0, next + 1),
            pattern.len() as int,
            next + pattern.len(),
        ),
{
    lemma_matches_down_skip(text, pattern, 0, next + 1, start + 1);
    lemma_matches_down_first(text, pattern, 0, next + 1);
}

/// A result that has reached a positive limit is the limited form of any
/// list that it begins.
pub proof fn lemma_limited_prefix(prefix: Seq<int>, rest: Seq<int>, limit: int)
    requires
        limit > 0,
        prefix.len() == limit,
    ensures
        limited(prefix + rest, limit) == prefix,
{
    assert((prefix + rest).take(limit) =~= prefix);
    if (prefix + rest).len() <= limit {
        assert(prefix + rest =~= prefix);
    }
}

/// A complete result within its limit is its own limited form.
pub proof fn lemma_limited_whole(whole: Seq<int>, rest: Seq<int>, limit: int)
    requires
        rest.len() == 0,
        limit == 0 || whole.len() <= limit,
    ensures
        limited(whole + rest, limit) == whole,
{
    assert(whole + rest =~= whole);
}

/// Pushing an offset onto a vector pushes it onto the offsets it holds.
pub proof fn lemma_offsets_push(v: Seq<usize>, o: usize)
    ensures
        offsets_of(v.push(o)) == offsets_of(v).push(o as int),
        offsets_of(v.push(o)) == offsets_of(v) + seq![o as int],
{
    assert(offsets_of(v.push(o)) =~= offsets_of(v).push(o as int));
    assert(offsets_of(v).push(o as int) =~= offsets_of(v) + seq![o as int]);
}

/// The ascending greedy filter keeps offsets of its list, none below the
/// floor, each at least `width` past the one kept before.
pub proof fn lemma_keep_ascending_spaced(offsets: Seq<int>, width: int, floor: int)
    requires
        width > 0,
    ensures
        forall|i: int|
            0 <= i < keep_disjoint_ascending(offsets, width, floor).len() ==> {
                let k = #[trigger] keep_disjoint_ascending(offsets, width, floor)[i];
                offsets.contains(k) && k >= floor
            },
        forall|i: int, j: int|
            0 <= i < j < keep_disjoint_ascending(offsets, width, floor).len()
                ==> keep_disjoint_ascending(offsets, width, floor)[i] + width
                <= keep_disjoint_ascending(offsets, width, floor)[j],
    decreases offsets.len(),
{
    let kept = keep_disjoint_ascending(offsets, width, floor);
    if offsets.len() > 0 {
        let rest = offsets.drop_first();
        assert forall|x: int| rest.contains(x) implies offsets.contains(x) by {
            let i = choose|i: int| 0 <= i < rest.len() && rest[i] == x;
            assert(offsets[i + 1] == x);
        }
        if offsets[0] >= floor {
            let first = offsets[0];
            let tail = keep_disjoint_ascending(rest, width, first + width);
            lemma_keep_ascending_spaced(rest, width, first + width);
            assert(kept == seq![first] + tail);
            assert(kept[0] == first);
            assert forall|i: int| 1 <= i < kept.len() implies kept[i] == tail[i - 1] by {}
            assert forall|i: int| 0 <= i < kept.len() implies {
                let k = #[trigger] kept[i];
                offsets.contains(k) && k >= floor
            } by {
                if i > 0 {
                    assert(rest.contains(tail[i - 1]));
                } else {
                    assert(offsets[0] == kept[0]);
                }
            }
            assert forall|i: int, j: int| 0 <= i < j < kept.len() implies kept[i] + width
                <= kept[j] by {
                assert(kept[j] == tail[j - 1]);
                if i > 0 {
                    assert(kept[i] == tail[i - 1]);
                }
            }
        } else {
            lemma_keep_ascending_spaced(rest, width, floor);
            assert(kept == keep_disjoint_ascending(rest, width, floor));
            assert forall|i: int| 0 <= i < kept.len() implies {
                let k = #[trigger] kept[i];
                offsets.contains(k) && k >= floor
            } by {
                assert(rest.contains(kept[i]));
            }
        }
    }
}

/// Of strictly ascending offsets, the ascending greedy filter passes over
/// one that is not below the floor only if it lies in the window of a kept
/// one.
pub proof fn lemma_keep_ascending_covers(offsets: Seq<int>, width: int, floor: int, x: int)
    requires
        is_ascending(offsets),
        width > 0,
        offsets.contains(x),
        x >= floor,
    ensures
        in_window_after(keep_disjoint_ascending(offsets, width, floor), width, x),
    decreases offsets.len(),
{
    let kept = keep_disjoint_ascending(offsets, width, floor);
    let rest = offsets.drop_first();
    let at = choose|i: int| 0 <= i < offsets.len() && offsets[i] == x;
    assert forall|i: int, j: int| 0 <= i < j < rest.len() implies rest[i] < rest[j] by {
        assert(rest[i] == offsets[i + 1] && rest[j] == offsets[j + 1]);
    }
    if at > 0 {
        assert(rest[at - 1] == x);
        assert(offsets[0] < x);
    }
    if offsets[0] >= floor {
        let first = offsets[0];
        let tail = keep_disjoint_ascending(rest, width, first + width);
        assert(kept == seq![first] + tail);
        if x < first + width {
            assert(kept[0] <= x < kept[0] + width);
        } else {
            lemma_keep_ascending_covers(rest, width, first + width, x);
            let i = choose|i: int|
                0 <= i < tail.len() && (#[trigger] tail[i]) <= x < tail[i] + width;
            assert(kept[i + 1] == tail[i]);
        }
    } else {
        lemma_keep_ascending_covers(rest, width, floor, x);
    }
}

/// The descending greedy filter keeps offsets of its list, none with a
/// window that ends above the ceiling, each window ending at or before the
/// offset kept before.
pub proof fn lemma_keep_descending_spaced(offsets: Seq<int>, width: int, ceiling: int)
    requires
        width > 0,
    ensures
        forall|i: int|
            0 <= i < keep_disjoint_descending(offsets, width, ceiling).len() ==> {
                let k = #[trigger] keep_disjoint_descending(offsets, width, ceiling)[i];
                offsets.contains(k) && k + width <= ceiling
            },
        forall|i: int, j: int|
            0 <= i < j < keep_disjoint_descending(offsets, width, ceiling).len()
                ==> keep_disjoint_descending(offsets, width, ceiling)[j] + width
                <= keep_disjoint_descending(offsets, width, ceiling)[i],
    decreases offsets.len(),
{
    let kept = keep_disjoint_descending(offsets, width, ceiling);
    if offsets.len() > 0 {
        let rest = offsets.drop_first();
        assert forall|x: int| rest.contains(x) implies offsets.contains(x) by {
            let i = choose|i: int| 0 <= i < rest.len() && rest[i] == x;
            assert(offsets[i + 1] == x);
        }
        if offsets[0] + width <= ceiling {
            let first = offsets[0];
            let tail = keep_disjoint_descending(rest, width, first);
            lemma_keep_descending_spaced(rest, width, first);
            assert(kept == seq![first] + tail);
            assert(kept[0] == first);
            assert forall|i: int| 1 <= i < kept.len() implies kept[i] == tail[i - 1] by {}
            assert forall|i: int| 0 <= i < kept.len() implies {
                let k = #[trigger] kept[i];
                offsets.contains(k) && k + width <= ceiling
            } by {
                if i > 0 {
                    assert(rest.contains(tail[i - 1]));
                } else {
                    assert(offsets[0] == kept[0]);
                }
            }
            assert forall|i: int, j: int| 0 <= i < j < kept.len() implies kept[j] + width
                <= kept[i] by {
                assert(kept[j] == tail[j - 1]);
                if i > 0 {
                    assert(kept[i] == tail[i - 1]);
                }
            }
        } else {
            lemma_keep_descending_spaced(rest, width, ceiling);
            assert(kept == keep_disjoint_descending(rest, width, ceiling));
            assert forall|i: int| 0 <= i < kept.len() implies {
                let k = #[trigger] kept[i];
                offsets.contains(k) && k + width <= ceiling
            } by {
                assert(rest.contains(kept[i]));
            }
        }
    }
}

/// Of strictly descending offsets, the descending greedy filter passes over
/// one whose window ends at or before the ceiling only if it lies in the
/// places that end at a kept one.
pub proof fn lemma_keep_descending_covers(offsets: Seq<int>, width: int, ceiling: int, x: int)
    requires
        is_descending(offsets),
        width > 0,
        offsets.contains(x),
        x + width <= ceiling,
    ensures
        in_window_before(keep_disjoint_descending(offsets, width, ceiling), width, x),
    decreases offsets.len(),
{
    let kept = keep_disjoint_descending(offsets, width, ceiling);
    let rest = offsets.drop_first();
    let at = choose|i: int| 0 <= i < offsets.len() && offsets[i] == x;
    assert forall|i: int, j: int| 0 <= i < j < rest.len() implies rest[i] > rest[j] by {
        assert(rest[i] == offsets[i + 1] && rest[j] == offsets[j + 1]);
    }
    if at > 0 {
        assert(rest[at - 1] == x);
        assert(offsets[0] > x);
    }
    if offsets[0] + width <= ceiling {
        let first = offsets[0];
        let tail = keep_disjoint_descending(rest, width, first);
        assert(kept == seq![first] + tail);
        if x + width > first {
            assert(kept[0] - width < x <= kept[0]);
        } else {
            lemma_keep_descending_covers(rest, width, first, x);
            let i = choose|i: int|
                0 <= i < tail.len() && (#[trigger] tail[i]) - width < x <= tail[i];
            assert(kept[i + 1] == tail[i]);
        }
    } else {
        lemma_keep_descending_covers(rest, width, ceiling, x);
    }
}

} // verus!
