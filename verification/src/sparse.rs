//! Sparse bad-symbol shift tables for the alphabet of characters: a shift
//! for each character that has one of its own, found by its code in a hash
//! map. Every other character has the pattern's length for its shift.

use crate::laws::{lemma_backward_shift, lemma_forward_shift};
use crate::lemmas::{lemma_first_index_of, lemma_last_index_of};
use crate::matching::{backward_shift, first_index_of, forward_shift, last_index_of};
use crate::scan::Symbols;
use std::collections::HashMap;
use vstd::prelude::*;
use vstd::std_specs::hash::group_hash_axioms;

verus! {

broadcast use group_hash_axioms;

/// The forward bad-symbol shifts of the characters that occur in a non-empty
/// pattern before its last place. Every other character has the pattern's
/// length for its shift, and no entry.
pub open spec fn forward_map(pattern: Seq<char>) -> Map<char, usize> {
    Map::new(
        |c: char| pattern.drop_last().contains(c),
        |c: char| forward_shift(pattern, c) as usize,
    )
}

/// The backward bad-symbol shifts of the characters that occur in a non-empty
/// pattern after its first place. Every other character has the pattern's
/// length for its shift, and no entry.
pub open spec fn backward_map(pattern: Seq<char>) -> Map<char, usize> {
    Map::new(
        |c: char| pattern.drop_first().contains(c),
        |c: char| backward_shift(pattern, c) as usize,
    )
}

/// The entries of a table keyed by character code, as a map keyed by
/// character.
pub open spec fn entries(t: Map<u32, usize>) -> Map<char, usize> {
    Map::new(|c: char| t.contains_key(c as u32), |c: char| t[c as u32])
}

/// The shift that a map gives a character: its entry, or `absent` if it has
/// none.
pub open spec fn shift_in(map: Map<char, usize>, c: char, absent: int) -> int {
    if map.contains_key(c) {
        map[c] as int
    } else {
        absent
    }
}

/// A forward map with the pattern's length for the characters that it has no
/// entry for gives every character its forward shift.
pub proof fn lemma_forward_map(pattern: Seq<char>, c: char)
    requires
        0 < pattern.len() <= usize::MAX,
    ensures
        shift_in(forward_map(pattern), c, pattern.len() as int) == forward_shift(pattern, c),
        1 <= forward_shift(pattern, c) <= pattern.len(),
{
    lemma_forward_shift(pattern, c);
}

/// A backward map with the pattern's length for the characters that it has
/// no entry for gives every character its backward shift.
pub proof fn lemma_backward_map(pattern: Seq<char>, c: char)
    requires
        0 < pattern.len() <= usize::MAX,
    ensures
        shift_in(backward_map(pattern), c, pattern.len() as int) == backward_shift(pattern, c),
        1 <= backward_shift(pattern, c) <= pattern.len(),
{
    lemma_backward_shift(pattern, c);
}

/// The forward shifts, for a pattern of length `len`, of the characters in
/// the part of the pattern that a builder has read.
spec fn forward_map_of_part(seen: Seq<char>, len: int) -> Map<char, usize> {
    Map::new(|c: char| seen.contains(c), |c: char| (len - 1 - last_index_of(seen, c)) as usize)
}

/// The backward shifts of the characters in the part of the pattern that a
/// builder has read, which starts at place `from`.
spec fn backward_map_of_part(seen: Seq<char>, from: int) -> Map<char, usize> {
    Map::new(|c: char| seen.contains(c), |c: char| (from + first_index_of(seen, c)) as usize)
}

/// Two characters with one code are one character.
proof fn lemma_code_is_injective(a: char, b: char)
    ensures
        a as u32 == b as u32 <==> a == b,
{
}

/// An entry put under a character's code is an entry for that character,
/// and for no other.
proof fn lemma_entries_insert(t: Map<u32, usize>, c: char, v: usize)
    ensures
        entries(t.insert(c as u32, v)) == entries(t).insert(c, v),
{
    let after = entries(t.insert(c as u32, v));
    let expected = entries(t).insert(c, v);
    assert forall|b: char| after.contains_key(b) <==> expected.contains_key(b) by {
        lemma_code_is_injective(b, c);
        assert(after.contains_key(b) <==> t.insert(c as u32, v).contains_key(b as u32));
        assert(entries(t).contains_key(b) <==> t.contains_key(b as u32));
    }
    assert forall|b: char| after.contains_key(b) implies after[b] == expected[b] by {
        lemma_code_is_injective(b, c);
        assert(after[b] == t.insert(c as u32, v)[b as u32]);
        if b != c {
            assert(entries(t).contains_key(b) <==> t.contains_key(b as u32));
            assert(entries(t)[b] == t[b as u32]);
        }
    }
    assert(after =~= expected);
}

/// Reading one more character forward replaces that character's entry.
proof fn lemma_forward_map_of_part_grows(seen: Seq<char>, c: char, len: int)
    ensures
        forward_map_of_part(seen.push(c), len) == forward_map_of_part(seen, len).insert(
            c,
            (len - 1 - seen.len()) as usize,
        ),
{
    let after = seen.push(c);
    assert(after.drop_last() =~= seen);
    assert(after.last() == c);
    assert forall|b: char| after.contains(b) <==> (b == c || seen.contains(b)) by {
        lemma_last_index_of(after, b);
        lemma_last_index_of(seen, b);
    }
    assert(forward_map_of_part(after, len) =~= forward_map_of_part(seen, len).insert(
        c,
        (len - 1 - seen.len()) as usize,
    ));
}

/// Reading one more character backward replaces that character's entry.
proof fn lemma_backward_map_of_part_grows(seen: Seq<char>, c: char, from: int)
    ensures
        backward_map_of_part(seq![c] + seen, from - 1) == backward_map_of_part(seen, from).insert(
            c,
            (from - 1) as usize,
        ),
{
    let after = seq![c] + seen;
    assert(after.drop_first() =~= seen);
    assert(after[0] == c);
    assert forall|b: char| after.contains(b) <==> (b == c || seen.contains(b)) by {
        lemma_first_index_of(after, b);
        lemma_first_index_of(seen, b);
    }
    assert(backward_map_of_part(after, from - 1) =~= backward_map_of_part(seen, from).insert(
        c,
        (from - 1) as usize,
    ));
}

/// When all but the last place of the pattern is read, the forward map is
/// built.
proof fn lemma_forward_map_of_whole(pattern: Seq<char>)
    requires
        pattern.len() > 0,
    ensures
        forward_map_of_part(pattern.drop_last(), pattern.len() as int) == forward_map(pattern),
{
    let body = pattern.drop_last();
    assert forall|c: char| body.contains(c) implies (pattern.len() - 1 - last_index_of(
        body,
        c,
    )) as usize == forward_shift(pattern, c) as usize by {
        lemma_last_index_of(body, c);
    }
    assert(forward_map_of_part(body, pattern.len() as int) =~= forward_map(pattern));
}

/// When all but the first place of the pattern is read, the backward map is
/// built.
proof fn lemma_backward_map_of_whole(pattern: Seq<char>)
    requires
        pattern.len() > 0,
    ensures
        backward_map_of_part(pattern.drop_first(), 1) == backward_map(pattern),
{
    assert(backward_map_of_part(pattern.drop_first(), 1) =~= backward_map(pattern));
}

/// Builds the forward map of a non-empty pattern: the pattern is read from
/// its first character up to the one before its last, and each character's
/// entry becomes its distance from the last place.
pub(crate) fn build_forward_map<P>(pattern: &P, pattern_len: usize) -> (table: HashMap<
    u32,
    usize,
>)
    where
        P: Symbols<Item = char> + ?Sized,
    requires
        pattern_len == pattern.symbols().len(),
        pattern_len > 0,
    ensures
        entries(table@) == forward_map(pattern.symbols()),
{
    let pattern_len_dec: usize = pattern_len - 1;
    let ghost p = pattern.symbols();

    let mut bad_char_shift_map: HashMap<u32, usize> = HashMap::with_capacity(pattern_len_dec);

    let mut i: usize = 0;
    assert(entries(bad_char_shift_map@) =~= forward_map_of_part(p.take(0), pattern_len as int));
    while i < pattern_len_dec
        invariant
            i <= pattern_len_dec,
            pattern_len_dec == pattern_len - 1,
            pattern_len == p.len(),
            p == pattern.symbols(),
            entries(bad_char_shift_map@) == forward_map_of_part(
                p.take(i as int),
                pattern_len as int,
            ),
        decreases pattern_len_dec - i,
    {
        let c: char = pattern.value_at(i);
        proof {
            let seen = p.take(i as int);
            assert(p.take(i + 1) =~= seen.push(c));
            lemma_forward_map_of_part_grows(seen, c, pattern_len as int);
            lemma_entries_insert(bad_char_shift_map@, c, (pattern_len_dec - i) as usize);
        }
        bad_char_shift_map.insert(c as u32, pattern_len_dec - i);
        i += 1;
    }
    proof {
        assert(p.take(pattern_len_dec as int) =~= p.drop_last());
        lemma_forward_map_of_whole(p);
    }
    bad_char_shift_map
}

/// Builds the backward map of a non-empty pattern: the pattern is read from
/// its last character down to the one after its first, and each character's
/// entry becomes its index.
pub(crate) fn build_backward_map<P>(pattern: &P, pattern_len: usize) -> (table: HashMap<
    u32,
    usize,
>)
    where
        P: Symbols<Item = char> + ?Sized,
    requires
        pattern_len == pattern.symbols().len(),
        pattern_len > 0,
    ensures
        entries(table@) == backward_map(pattern.symbols()),
{
    let pattern_len_dec: usize = pattern_len - 1;
    let ghost p = pattern.symbols();

    let mut bad_char_shift_map: HashMap<u32, usize> = HashMap::with_capacity(pattern_len_dec);

    let mut i: usize = pattern_len;
    assert(entries(bad_char_shift_map@) =~= backward_map_of_part(
        p.subrange(pattern_len as int, pattern_len as int),
        pattern_len as int,
    ));
    while i > 1
        invariant
            1 <= i <= pattern_len,
            pattern_len == p.len(),
            p == pattern.symbols(),
            entries(bad_char_shift_map@) == backward_map_of_part(
                p.subrange(i as int, pattern_len as int),
                i as int,
            ),
        decreases i,
    {
        i -= 1;
        let c: char = pattern.value_at(i);
        proof {
            let seen = p.subrange(i + 1, pattern_len as int);
            assert(p.subrange(i as int, pattern_len as int) =~= seq![c] + seen);
            lemma_backward_map_of_part_grows(seen, c, i + 1);
            lemma_entries_insert(bad_char_shift_map@, c, i);
        }
        bad_char_shift_map.insert(c as u32, i);
    }
    proof {
        assert(p.subrange(1, pattern_len as int) =~= p.drop_first());
        lemma_backward_map_of_whole(p);
    }
    bad_char_shift_map
}

/// Looks a character up in a table: the shift that the table holds for it,
/// or `absent` if it holds none.
pub(crate) fn shift_or(t: &HashMap<u32, usize>, c: char, absent: usize) -> (shift: usize)
    ensures
        shift == shift_in(entries(t@), c, absent as int),
{
    let code: u32 = c as u32;
    match t.get(&code) {
        Some(shift) => *shift,
        None => absent,
    }
}

} // verus!
