//! Dense bad-symbol shift tables for alphabets of single-byte symbols: one
//! shift for each of the 256 symbols, found by indexing.

use crate::laws::{lemma_backward_shift, lemma_forward_shift};
use crate::lemmas::{lemma_first_index_of, lemma_last_index_of};
use crate::matching::{backward_shift, first_index_of, forward_shift, last_index_of};
use crate::scan::Symbols;
use vstd::prelude::*;

verus! {

/// The forward bad-symbol shift of every single-byte symbol, for a non-empty
/// pattern whose length fits a machine word.
pub open spec fn forward_table(pattern: Seq<u8>) -> Seq<usize> {
    Seq::new(256, |c: int| forward_shift(pattern, c as u8) as usize)
}

/// The backward bad-symbol shift of every single-byte symbol, for a
/// non-empty pattern whose length fits a machine word.
pub open spec fn backward_table(pattern: Seq<u8>) -> Seq<usize> {
    Seq::new(256, |c: int| backward_shift(pattern, c as u8) as usize)
}

/// A forward table holds the forward shift of each symbol at its index.
pub proof fn lemma_forward_table(pattern: Seq<u8>, c: u8)
    requires
        0 < pattern.len() <= usize::MAX,
    ensures
        forward_table(pattern)[c as int] == forward_shift(pattern, c),
        1 <= forward_table(pattern)[c as int] <= pattern.len(),
{
    lemma_forward_shift(pattern, c);
}

/// A backward table holds the backward shift of each symbol at its index.
pub proof fn lemma_backward_table(pattern: Seq<u8>, c: u8)
    requires
        0 < pattern.len() <= usize::MAX,
    ensures
        backward_table(pattern)[c as int] == backward_shift(pattern, c),
        1 <= backward_table(pattern)[c as int] <= pattern.len(),
{
    lemma_backward_shift(pattern, c);
}

/// Builds the forward table of a non-empty pattern: every entry starts as
/// the pattern's length; then the pattern is read from its first symbol up
/// to the one before its last, and each symbol's entry becomes its distance
/// from the last place.
pub(crate) fn build_forward_table<P>(pattern: &P, pattern_len: usize) -> (table: [usize; 256])
    where
        P: Symbols<Item = u8> + ?Sized,
    requires
        pattern_len == pattern.symbols().len(),
        pattern_len > 0,
    ensures
        table@ == forward_table(pattern.symbols()),
{
    let pattern_len_dec: usize = pattern_len - 1;
    let ghost p = pattern.symbols();

    let mut bad_char_shift_map = [pattern_len; 256];

    let mut i: usize = 0;
    while i < pattern_len_dec
        invariant
            i <= pattern_len_dec,
            pattern_len_dec == pattern_len - 1,
            pattern_len == p.len(),
            p == pattern.symbols(),
            forall|c: u8|
                (#[trigger] bad_char_shift_map@[c as int]) == pattern_len_dec - last_index_of(
                    p.take(i as int),
                    c,
                ),
        decreases pattern_len_dec - i,
    {
        let c: u8 = pattern.value_at(i);
        proof {
            let seen = p.take(i as int);
            let after = p.take(i + 1);
            assert(after.drop_last() =~= seen);
            assert(after.last() == c);
            assert forall|b: u8| last_index_of(after, b) >= -1 by {
                lemma_last_index_of(after, b);
            }
        }
        bad_char_shift_map[c as usize] = pattern_len_dec - i;
        i += 1;
    }
    proof {
        assert(p.take(pattern_len_dec as int) =~= p.drop_last());
        assert forall|k: int| 0 <= k < 256 implies bad_char_shift_map@[k] == forward_table(
            p,
        )[k] by {
            let c = k as u8;
            lemma_last_index_of(p.drop_last(), c);
            assert(bad_char_shift_map@[c as int] == pattern_len_dec - last_index_of(
                p.drop_last(),
                c,
            ));
        }
        assert(bad_char_shift_map@ =~= forward_table(p));
    }
    bad_char_shift_map
}

/// Builds the backward table of a non-empty pattern: every entry starts as
/// the pattern's length; then the pattern is read from its last symbol down
/// to the one after its first, and each symbol's entry becomes its index.
pub(crate) fn build_backward_table<P>(pattern: &P, pattern_len: usize) -> (table: [usize; 256])
    where
        P: Symbols<Item = u8> + ?Sized,
    requires
        pattern_len == pattern.symbols().len(),
        pattern_len > 0,
    ensures
        table@ == backward_table(pattern.symbols()),
{
    let ghost p = pattern.symbols();

    let mut bad_char_shift_map = [pattern_len; 256];

    let mut i: usize = pattern_len;
    while i > 1
        invariant
            1 <= i <= pattern_len,
            pattern_len == p.len(),
            p == pattern.symbols(),
            forall|c: u8|
                (#[trigger] bad_char_shift_map@[c as int]) == i + first_index_of(
                    p.subrange(i as int, pattern_len as int),
                    c,
                ),
        decreases i,
    {
        i -= 1;
        let c: u8 = pattern.value_at(i);
        proof {
            let seen = p.subrange(i + 1, pattern_len as int);
            let after = p.subrange(i as int, pattern_len as int);
            assert(after.drop_first() =~= seen);
            assert(after[0] == c);
        }
        bad_char_shift_map[c as usize] = i;
    }
    proof {
        assert(p.subrange(1, pattern_len as int) =~= p.drop_first());
        assert forall|k: int| 0 <= k < 256 implies bad_char_shift_map@[k] == backward_table(
            p,
        )[k] by {
            let c = k as u8;
            lemma_first_index_of(p.drop_first(), c);
            assert(bad_char_shift_map@[c as int] == 1 + first_index_of(p.drop_first(), c));
        }
        assert(bad_char_shift_map@ =~= backward_table(p));
    }
    bad_char_shift_map
}

} // verus!
