//! Searching character sub-sequences in any character sequence.

use crate::laws::{lemma_disjoint_first, lemma_disjoint_rev_first, lemma_limited_first};
use crate::matching::{
    backward_shift, disjoint_matches, disjoint_matches_rev, forward_shift, full_matches,
    full_matches_rev, limited, offsets_of,
};
use crate::scan::{holds_backward_shifts, holds_forward_shifts, ShiftTable, Symbols};
use crate::sparse::{
    backward_map, build_backward_map, build_forward_map, entries, forward_map,
    lemma_backward_map, lemma_forward_map, shift_in, shift_or,
};
use core::slice::Iter;
use std::collections::HashMap;
use vstd::prelude::*;
use vstd::std_specs::iter::IteratorSpec;

verus! {

/// A sequence of characters that can be searched, or searched for.
pub trait BMCharacterSearchable {
    /// The characters of the sequence.
    spec fn symbols(&self) -> Seq<char>;

    /// The number of characters.
    fn len(&self) -> (n: usize)
        ensures
            n == self.symbols().len(),
    ;

    /// The character at `index`, which lies within the sequence.
    fn value_at(&self, index: usize) -> (c: char)
        requires
            index < self.symbols().len(),
        ensures
            c == self.symbols()[index as int],
    ;

    /// An iterator over the characters, from the first on.
    fn iter(&self) -> (it: Iter<'_, char>)
        ensures
            it.remaining().unref() == self.symbols(),
            it.decrease() is Some,
            it.initial_value_relation(&it),
    ;
}

impl BMCharacterSearchable for [char] {
    open spec fn symbols(&self) -> Seq<char> {
        self@
    }

    fn len(&self) -> (n: usize) {
        <[char]>::len(self)
    }

    fn value_at(&self, index: usize) -> (c: char) {
        self[index]
    }

    fn iter(&self) -> (it: Iter<'_, char>) {
        <[char]>::iter(self)
    }
}

impl BMCharacterSearchable for Vec<char> {
    open spec fn symbols(&self) -> Seq<char> {
        self@
    }

    fn len(&self) -> (n: usize) {
        Vec::len(self)
    }

    fn value_at(&self, index: usize) -> (c: char) {
        self[index]
    }

    fn iter(&self) -> (it: Iter<'_, char>) {
        self.as_slice().iter()
    }
}

impl<T: BMCharacterSearchable> BMCharacterSearchable for &T {
    open spec fn symbols(&self) -> Seq<char> {
        (**self).symbols()
    }

    fn len(&self) -> (n: usize) {
        T::len(*self)
    }

    fn value_at(&self, index: usize) -> (c: char) {
        T::value_at(*self, index)
    }

    fn iter(&self) -> (it: Iter<'_, char>) {
        T::iter(*self)
    }
}

/// The forward bad-symbol shift table of a pattern, keyed by character.
#[derive(Debug)]
pub struct BMCharacterBadCharShiftMap {
    t: HashMap<u32, usize>,
}

impl View for BMCharacterBadCharShiftMap {
    type V = Map<char, usize>;

    closed spec fn view(&self) -> Map<char, usize> {
        entries(self.t@)
    }
}

/// The backward bad-symbol shift table of a pattern, keyed by character.
#[derive(Debug)]
pub struct BMCharacterBadCharShiftMapRev {
    t: HashMap<u32, usize>,
}

impl View for BMCharacterBadCharShiftMapRev {
    type V = Map<char, usize>;

    closed spec fn view(&self) -> Map<char, usize> {
        entries(self.t@)
    }
}

impl core::ops::Deref for BMCharacterBadCharShiftMap {
    type Target = HashMap<u32, usize>;

    /// The shifts that the table holds, keyed by character code.
    fn deref(&self) -> (shifts: &HashMap<u32, usize>)
        ensures
            entries(shifts@) == self@,
    {
        &self.t
    }
}

impl core::ops::Deref for BMCharacterBadCharShiftMapRev {
    type Target = HashMap<u32, usize>;

    /// The shifts that the table holds, keyed by character code.
    fn deref(&self) -> (shifts: &HashMap<u32, usize>)
        ensures
            entries(shifts@) == self@,
    {
        &self.t
    }
}

/// A searchable sequence as a scan reads it.
struct Reading<'a, T: BMCharacterSearchable>(&'a T);

impl<'a, T: BMCharacterSearchable> Symbols for Reading<'a, T> {
    type Item = char;

    closed spec fn symbols(&self) -> Seq<char> {
        self.0.symbols()
    }

    fn len(&self) -> (n: usize) {
        self.0.len()
    }

    fn value_at(&self, index: usize) -> (c: char) {
        self.0.value_at(index)
    }
}

impl ShiftTable for BMCharacterBadCharShiftMap {
    type Item = char;

    closed spec fn shift_of(&self, c: char, absent: int) -> int {
        shift_in(self@, c, absent)
    }

    fn shift(&self, c: char, absent: usize) -> (s: usize) {
        shift_or(&self.t, c, absent)
    }
}

impl ShiftTable for BMCharacterBadCharShiftMapRev {
    type Item = char;

    closed spec fn shift_of(&self, c: char, absent: int) -> int {
        shift_in(self@, c, absent)
    }

    fn shift(&self, c: char, absent: usize) -> (s: usize) {
        shift_or(&self.t, c, absent)
    }
}

impl BMCharacterBadCharShiftMap {
    /// Builds the forward table of a pattern; there is none for an empty
    /// pattern.
    pub fn create_bad_char_shift_map<T: BMCharacterSearchable>(pattern: T) -> (r: Option<
        BMCharacterBadCharShiftMap,
    >)
        ensures
            r is None <==> pattern.symbols().len() == 0,
            r matches Some(map) ==> map@ == forward_map(pattern.symbols()),
    {
        let pattern_len: usize = pattern.len();

        if pattern_len == 0 {
            return None;
        }
        Some(
            BMCharacterBadCharShiftMap {
                t: build_forward_map(&Reading(&pattern), pattern_len),
            },
        )
    }

    /// The table of a pattern gives a scan the forward shift of every
    /// character: the shift that it holds, or the pattern's length for a
    /// character that it holds none for.
    pub proof fn lemma_holds_shifts(&self, pattern: Seq<char>)
        requires
            self@ == forward_map(pattern),
        ensures
            0 < pattern.len() <= usize::MAX ==> holds_forward_shifts(self, pattern),
    {
        if 0 < pattern.len() <= usize::MAX {
            assert forall|c: char| #[trigger]
                self.shift_of(c, pattern.len() as int) == forward_shift(pattern, c) by {
                lemma_forward_map(pattern, c);
            }
        }
    }
}

impl BMCharacterBadCharShiftMapRev {
    /// Builds the backward table of a pattern; there is none for an empty
    /// pattern.
    pub fn create_bad_char_shift_map<T: BMCharacterSearchable>(pattern: T) -> (r: Option<
        BMCharacterBadCharShiftMapRev,
    >)
        ensures
            r is None <==> pattern.symbols().len() == 0,
            r matches Some(map) ==> map@ == backward_map(pattern.symbols()),
    {
        let pattern_len: usize = pattern.len();

        if pattern_len == 0 {
            return None;
        }
        Some(
            BMCharacterBadCharShiftMapRev {
                t: build_backward_map(&Reading(&pattern), pattern_len),
            },
        )
    }

    /// The table of a pattern gives a scan the backward shift of every
    /// character: the shift that it holds, or the pattern's length for a
    /// character that it holds none for.
    pub proof fn lemma_holds_shifts(&self, pattern: Seq<char>)
        requires
            self@ == backward_map(pattern),
        ensures
            0 < pattern.len() <= usize::MAX ==> holds_backward_shifts(self, pattern),
    {
        if 0 < pattern.len() <= usize::MAX {
            assert forall|c: char| #[trigger]
                self.shift_of(c, pattern.len() as int) == backward_shift(pattern, c) by {
                lemma_backward_map(pattern, c);
            }
        }
    }
}

/// A pattern prepared for searching: the pattern and its two shift tables.
#[derive(Debug)]
pub struct BMCharacter {
    bad_char_shift_map: BMCharacterBadCharShiftMap,
    bad_char_shift_map_rev: BMCharacterBadCharShiftMapRev,
    pattern: Vec<char>,
}

impl View for BMCharacter {
    type V = Seq<char>;

    /// The pattern.
    closed spec fn view(&self) -> Seq<char> {
        self.pattern@
    }
}

impl BMCharacter {
    /// The pattern is not empty and the tables are those of the pattern.
    #[verifier::type_invariant]
    pub closed spec fn wf(&self) -> bool {
        &&& self.pattern@.len() > 0
        &&& self.bad_char_shift_map@ == forward_map(self.pattern@)
        &&& self.bad_char_shift_map_rev@ == backward_map(self.pattern@)
    }

    /// The forward shift table that the handle holds.
    pub closed spec fn shift_table(&self) -> Map<char, usize> {
        self.bad_char_shift_map@
    }

    /// The backward shift table that the handle holds.
    pub closed spec fn shift_table_rev(&self) -> Map<char, usize> {
        self.bad_char_shift_map_rev@
    }

    /// Two handles prepared from one pattern hold the same shift tables. The
    /// result of every search is stated over the text, the pattern and the
    /// limit alone, so the two handles also find the same occurrences.
    pub proof fn lemma_handles_of_one_pattern_agree(&self, other: &BMCharacter)
        requires
            self.wf(),
            other.wf(),
            self@ == other@,
        ensures
            self.shift_table() == other.shift_table(),
            self.shift_table_rev() == other.shift_table_rev(),
    {
    }

    /// Prepares a pattern (the needle); an empty pattern cannot be prepared.
    pub fn from<T: BMCharacterSearchable>(pattern: T) -> (r: Option<BMCharacter>)
        ensures
            r is None <==> pattern.symbols().len() == 0,
            r matches Some(bm) ==> {
                &&& bm.wf()
                &&& bm@ == pattern.symbols()
                &&& bm.shift_table() == forward_map(pattern.symbols())
                &&& bm.shift_table_rev() == backward_map(pattern.symbols())
            },
    {
        let bad_char_shift_map = match BMCharacterBadCharShiftMap::create_bad_char_shift_map(
            &pattern,
        ) {
            Some(map) => map,
            None => {
                return None;
            },
        };
        let bad_char_shift_map_rev = match BMCharacterBadCharShiftMapRev::create_bad_char_shift_map(
            &pattern,
        ) {
            Some(map) => map,
            None => {
                return None;
            },
        };
        let mut copy: Vec<char> = Vec::with_capacity(pattern.len());
        let walk = pattern.iter();
        let ghost all = walk.remaining();
        for c in it: walk
            invariant
                it.seq() == all,
                copy@.len() == it.index(),
                forall|i: int| 0 <= i < copy@.len() ==> copy@[i] == *it.seq()[i],
        {
            copy.push(*c);
        }
        assert(copy@ =~= pattern.symbols());
        Some(BMCharacter { bad_char_shift_map, bad_char_shift_map_rev, pattern: copy })
    }

    /// Finds every occurrence of the pattern in the text (the haystack),
    /// overlapping ones among them, in ascending order.
    pub fn find_full_all_in<T: BMCharacterSearchable>(&self, text: T) -> (result: Vec<usize>)
        ensures
            offsets_of(result@) == full_matches(text.symbols(), self@),
    {
        proof {
            use_type_invariant(self);
        }
        find_full(text, &self.pattern, &self.bad_char_shift_map, 0)
    }

    /// Finds the occurrences of the pattern in the text, overlapping ones
    /// among them, in ascending order. A `limit` of zero finds them all; any
    /// other finds the first `limit` of them.
    pub fn find_full_in<T: BMCharacterSearchable>(&self, text: T, limit: usize) -> (result: Vec<
        usize,
    >)
        ensures
            offsets_of(result@) == limited(full_matches(text.symbols(), self@), limit as int),
            limit > 0 ==> result@.len() <= limit,
    {
        proof {
            use_type_invariant(self);
        }
        find_full(text, &self.pattern, &self.bad_char_shift_map, limit)
    }

    /// Finds every occurrence of the pattern in the text, overlapping ones
    /// among them, in descending order: the result of `find_full_all_in`,
    /// reversed.
    pub fn rfind_full_all_in<T: BMCharacterSearchable>(&self, text: T) -> (result: Vec<usize>)
        ensures
            offsets_of(result@) == full_matches(text.symbols(), self@).reverse(),
    {
        proof {
            use_type_invariant(self);
        }
        rfind_full(text, &self.pattern, &self.bad_char_shift_map_rev, 0)
    }

    /// Finds the occurrences of the pattern in the text, overlapping ones
    /// among them, in descending order. A `limit` of zero finds them all; any
    /// other finds the first `limit` of them.
    pub fn rfind_full_in<T: BMCharacterSearchable>(&self, text: T, limit: usize) -> (result: Vec<
        usize,
    >)
        ensures
            offsets_of(result@) == limited(
                full_matches(text.symbols(), self@).reverse(),
                limit as int,
            ),
            limit > 0 ==> result@.len() <= limit,
    {
        proof {
            use_type_invariant(self);
        }
        rfind_full(text, &self.pattern, &self.bad_char_shift_map_rev, limit)
    }

    /// Finds the occurrences of the pattern in the text in ascending order,
    /// without those that overlap the occurrence found before: of every
    /// occurrence, the first is kept, and then each that starts at or after
    /// the end of the one kept before it.
    pub fn find_all_in<T: BMCharacterSearchable>(&self, text: T) -> (result: Vec<usize>)
        ensures
            offsets_of(result@) == disjoint_matches(text.symbols(), self@),
    {
        proof {
            use_type_invariant(self);
        }
        find(text, &self.pattern, &self.bad_char_shift_map, 0)
    }

    /// Finds the first occurrence of the pattern in the text.
    pub fn find_first_in<T: BMCharacterSearchable>(&self, text: T) -> (result: Option<usize>)
        ensures
            result is None <==> full_matches(text.symbols(), self@).len() == 0,
            result matches Some(o) ==> o == full_matches(text.symbols(), self@).first(),
    {
        proof {
            use_type_invariant(self);
            lemma_disjoint_first(text.symbols(), self@);
            lemma_limited_first(disjoint_matches(text.symbols(), self@), 1);
        }
        let found: Vec<usize> = find(text, &self.pattern, &self.bad_char_shift_map, 1);
        assert(offsets_of(found@).len() == found@.len());
        if found.len() > 0 {
            assert(offsets_of(found@)[0] == found@[0]);
            Some(found[0])
        } else {
            None
        }
    }

    /// Finds the occurrences of the pattern in the text in ascending order,
    /// without those that overlap the occurrence found before. A `limit` of
    /// zero finds them all; any other finds the first `limit` of them.
    pub fn find_in<T: BMCharacterSearchable>(&self, text: T, limit: usize) -> (result: Vec<usize>)
        ensures
            offsets_of(result@) == limited(disjoint_matches(text.symbols(), self@), limit as int),
            limit > 0 ==> result@.len() <= limit,
    {
        proof {
            use_type_invariant(self);
        }
        find(text, &self.pattern, &self.bad_char_shift_map, limit)
    }

    /// Finds the occurrences of the pattern in the text in descending order,
    /// without those that overlap the occurrence found before: of every
    /// occurrence, the last is kept, and then each that ends at or before
    /// the start of the one kept before it.
    pub fn rfind_all_in<T: BMCharacterSearchable>(&self, text: T) -> (result: Vec<usize>)
        ensures
            offsets_of(result@) == disjoint_matches_rev(text.symbols(), self@),
    {
        proof {
            use_type_invariant(self);
        }
        rfind(text, &self.pattern, &self.bad_char_shift_map_rev, 0)
    }

    /// Finds the last occurrence of the pattern in the text.
    pub fn rfind_first_in<T: BMCharacterSearchable>(&self, text: T) -> (result: Option<usize>)
        ensures
            result is None <==> full_matches(text.symbols(), self@).len() == 0,
            result matches Some(o) ==> o == full_matches(text.symbols(), self@).last(),
    {
        proof {
            use_type_invariant(self);
            lemma_disjoint_rev_first(text.symbols(), self@);
            lemma_limited_first(disjoint_matches_rev(text.symbols(), self@), 1);
        }
        let found: Vec<usize> = rfind(text, &self.pattern, &self.bad_char_shift_map_rev, 1);
        assert(offsets_of(found@).len() == found@.len());
        if found.len() > 0 {
            assert(offsets_of(found@)[0] == found@[0]);
            Some(found[0])
        } else {
            None
        }
    }

    /// Finds the occurrences of the pattern in the text in descending order,
    /// without those that overlap the occurrence found before. A `limit` of
    /// zero finds them all; any other finds the first `limit` of them.
    pub fn rfind_in<T: BMCharacterSearchable>(&self, text: T, limit: usize) -> (result: Vec<usize>)
        ensures
            offsets_of(result@) == limited(
                disjoint_matches_rev(text.symbols(), self@),
                limit as int,
            ),
            limit > 0 ==> result@.len() <= limit,
    {
        proof {
            use_type_invariant(self);
        }
        rfind(text, &self.pattern, &self.bad_char_shift_map_rev, limit)
    }
}

/// Finds the occurrences of the pattern in the text, overlapping ones
/// among them, from the head of the text on; a `limit` other than zero bounds
/// their number. The table is the forward table of the pattern. In an empty
/// pattern nothing is found.
pub fn find_full<TT: BMCharacterSearchable, TP: BMCharacterSearchable>(
    text: TT,
    pattern: TP,
    bad_char_shift_map: &BMCharacterBadCharShiftMap,
    limit: usize,
) -> (result: Vec<usize>)
    requires
        pattern.symbols().len() > 0 ==> bad_char_shift_map@ == forward_map(pattern.symbols()),
    ensures
        offsets_of(result@) == limited(
            full_matches(text.symbols(), pattern.symbols()),
            limit as int,
        ),
        limit > 0 ==> result@.len() <= limit,
{
    proof {
        if pattern.symbols().len() > 0 {
            bad_char_shift_map.lemma_holds_shifts(pattern.symbols());
        }
    }
    crate::scan::find_full(&Reading(&text), &Reading(&pattern), bad_char_shift_map, limit)
}

/// Finds the occurrences of the pattern in the text, overlapping ones
/// among them, from the tail of the text on; a `limit` other than zero bounds
/// their number. The table is the backward table of the pattern. In an empty
/// pattern nothing is found.
pub fn rfind_full<TT: BMCharacterSearchable, TP: BMCharacterSearchable>(
    text: TT,
    pattern: TP,
    bad_char_shift_map: &BMCharacterBadCharShiftMapRev,
    limit: usize,
) -> (result: Vec<usize>)
    requires
        pattern.symbols().len() > 0 ==> bad_char_shift_map@ == backward_map(pattern.symbols()),
    ensures
        offsets_of(result@) == limited(
            full_matches_rev(text.symbols(), pattern.symbols()),
            limit as int,
        ),
        limit > 0 ==> result@.len() <= limit,
{
    proof {
        if pattern.symbols().len() > 0 {
            bad_char_shift_map.lemma_holds_shifts(pattern.symbols());
        }
    }
    crate::scan::rfind_full(&Reading(&text), &Reading(&pattern), bad_char_shift_map, limit)
}

/// Finds the occurrences of the pattern in the text from the head of the
/// text on, passing over those that overlap the one found before; a `limit`
/// other than zero bounds their number. The table is the forward table of
/// the pattern. In an empty pattern nothing is found.
pub fn find<TT: BMCharacterSearchable, TP: BMCharacterSearchable>(
    text: TT,
    pattern: TP,
    bad_char_shift_map: &BMCharacterBadCharShiftMap,
    limit: usize,
) -> (result: Vec<usize>)
    requires
        pattern.symbols().len() > 0 ==> bad_char_shift_map@ == forward_map(pattern.symbols()),
    ensures
        offsets_of(result@) == limited(
            disjoint_matches(text.symbols(), pattern.symbols()),
            limit as int,
        ),
        limit > 0 ==> result@.len() <= limit,
{
    proof {
        if pattern.symbols().len() > 0 {
            bad_char_shift_map.lemma_holds_shifts(pattern.symbols());
        }
    }
    crate::scan::find(&Reading(&text), &Reading(&pattern), bad_char_shift_map, limit)
}

/// Finds the occurrences of the pattern in the text from the tail of the
/// text on, passing over those that overlap the one found before; a `limit`
/// other than zero bounds their number. The table is the backward table of
/// the pattern. In an empty pattern nothing is found.
pub fn rfind<TT: BMCharacterSearchable, TP: BMCharacterSearchable>(
    text: TT,
    pattern: TP,
    bad_char_shift_map: &BMCharacterBadCharShiftMapRev,
    limit: usize,
) -> (result: Vec<usize>)
    requires
        pattern.symbols().len() > 0 ==> bad_char_shift_map@ == backward_map(pattern.symbols()),
    ensures
        offsets_of(result@) == limited(
            disjoint_matches_rev(text.symbols(), pattern.symbols()),
            limit as int,
        ),
        limit > 0 ==> result@.len() <= limit,
{
    proof {
        if pattern.symbols().len() > 0 {
            bad_char_shift_map.lemma_holds_shifts(pattern.symbols());
        }
    }
    crate::scan::rfind(&Reading(&text), &Reading(&pattern), bad_char_shift_map, limit)
}

} // verus!
