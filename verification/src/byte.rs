//! Searching byte sub-sequences in any byte sequence, including text in a
//! self-synchronizing encoding such as UTF-8.

use crate::dense::{
    backward_table, build_backward_table, build_forward_table, forward_table,
    lemma_backward_table, lemma_forward_table,
};
use crate::laws::{lemma_disjoint_first, lemma_disjoint_rev_first, lemma_limited_first};
use crate::matching::{
    backward_shift, disjoint_matches, disjoint_matches_rev, forward_shift, full_matches,
    full_matches_rev, limited, offsets_of,
};
use crate::scan::{holds_backward_shifts, holds_forward_shifts, ShiftTable, Symbols};
use vstd::prelude::*;

verus! {

/// A sequence that knows its length.
pub trait LenTrait {
    /// The length of the sequence.
    spec fn spec_len(&self) -> nat;

    /// The number of bytes.
    fn len(&self) -> (n: usize)
        ensures
            n == self.spec_len(),
    ;
}

impl LenTrait for [u8] {
    open spec fn spec_len(&self) -> nat {
        self@.len()
    }

    fn len(&self) -> (n: usize) {
        <[u8]>::len(self)
    }
}

impl LenTrait for Vec<u8> {
    open spec fn spec_len(&self) -> nat {
        self@.len()
    }

    fn len(&self) -> (n: usize) {
        Vec::len(self)
    }
}

impl Symbols for [u8] {
    type Item = u8;

    open spec fn symbols(&self) -> Seq<u8> {
        self@
    }

    fn len(&self) -> (n: usize) {
        LenTrait::len(self)
    }

    fn value_at(&self, index: usize) -> (c: u8) {
        self[index]
    }
}

/// The forward bad-symbol shift table of a pattern, indexed by byte.
#[derive(Debug)]
pub struct BMByteBadCharShiftMap {
    t: [usize; 256],
}

impl View for BMByteBadCharShiftMap {
    type V = Seq<usize>;

    /// The 256 shifts.
    closed spec fn view(&self) -> Seq<usize> {
        self.t@
    }
}

impl core::ops::Deref for BMByteBadCharShiftMap {
    type Target = [usize];

    /// The shifts, indexed by byte.
    fn deref(&self) -> (shifts: &[usize])
        ensures
            shifts@ == self@,
    {
        self.t.as_slice()
    }
}

impl ShiftTable for BMByteBadCharShiftMap {
    type Item = u8;

    closed spec fn shift_of(&self, c: u8, absent: int) -> int {
        self.t@[c as int] as int
    }

    fn shift(&self, c: u8, absent: usize) -> (s: usize) {
        self.t[c as usize]
    }
}

/// The backward bad-symbol shift table of a pattern, indexed by byte.
#[derive(Debug)]
pub struct BMByteBadCharShiftMapRev {
    t: [usize; 256],
}

impl View for BMByteBadCharShiftMapRev {
    type V = Seq<usize>;

    /// The 256 shifts.
    closed spec fn view(&self) -> Seq<usize> {
        self.t@
    }
}

impl core::ops::Deref for BMByteBadCharShiftMapRev {
    type Target = [usize];

    /// The shifts, indexed by byte.
    fn deref(&self) -> (shifts: &[usize])
        ensures
            shifts@ == self@,
    {
        self.t.as_slice()
    }
}

impl ShiftTable for BMByteBadCharShiftMapRev {
    type Item = u8;

    closed spec fn shift_of(&self, c: u8, absent: int) -> int {
        self.t@[c as int] as int
    }

    fn shift(&self, c: u8, absent: usize) -> (s: usize) {
        self.t[c as usize]
    }
}

impl BMByteBadCharShiftMap {
    /// Builds the forward table of a pattern; there is none for an empty
    /// pattern.
    pub fn create_bad_char_shift_map(pattern: &[u8]) -> (r: Option<BMByteBadCharShiftMap>)
        ensures
            r is None <==> pattern@.len() == 0,
            r matches Some(map) ==> map@ == forward_table(pattern@),
    {
        let pattern_len: usize = pattern.len();

        if pattern_len == 0 {
            return None;
        }
        Some(BMByteBadCharShiftMap { t: build_forward_table(pattern, pattern_len) })
    }

    /// The table of a pattern gives a scan the forward shift of every byte.
    pub proof fn lemma_holds_shifts(&self, pattern: Seq<u8>)
        requires
            self@ == forward_table(pattern),
        ensures
            0 < pattern.len() <= usize::MAX ==> holds_forward_shifts(self, pattern),
    {
        if 0 < pattern.len() <= usize::MAX {
            assert forall|c: u8| #[trigger]
                self.shift_of(c, pattern.len() as int) == forward_shift(pattern, c) by {
                lemma_forward_table(pattern, c);
            }
        }
    }
}

impl BMByteBadCharShiftMapRev {
    /// Builds the backward table of a pattern; there is none for an empty
    /// pattern.
    pub fn create_bad_char_shift_map(pattern: &[u8]) -> (r: Option<BMByteBadCharShiftMapRev>)
        ensures
            r is None <==> pattern@.len() == 0,
            r matches Some(map) ==> map@ == backward_table(pattern@),
    {
        let pattern_len: usize = pattern.len();

        if pattern_len == 0 {
            return None;
        }
        Some(BMByteBadCharShiftMapRev { t: build_backward_table(pattern, pattern_len) })
    }

    /// The table of a pattern gives a scan the backward shift of every byte.
    pub proof fn lemma_holds_shifts(&self, pattern: Seq<u8>)
        requires
            self@ == backward_table(pattern),
        ensures
            0 < pattern.len() <= usize::MAX ==> holds_backward_shifts(self, pattern),
    {
        if 0 < pattern.len() <= usize::MAX {
            assert forall|c: u8| #[trigger]
                self.shift_of(c, pattern.len() as int) == backward_shift(pattern, c) by {
                lemma_backward_table(pattern, c);
            }
        }
    }
}

/// A pattern prepared for searching: the pattern and its two shift tables.
#[derive(Debug)]
pub struct BMByte {
    bad_char_shift_map: BMByteBadCharShiftMap,
    bad_char_shift_map_rev: BMByteBadCharShiftMapRev,
    pattern: Vec<u8>,
}

impl View for BMByte {
    type V = Seq<u8>;

    /// The pattern.
    closed spec fn view(&self) -> Seq<u8> {
        self.pattern@
    }
}

impl BMByte {
    /// The pattern is not empty and the tables are those of the pattern.
    #[verifier::type_invariant]
    pub closed spec fn wf(&self) -> bool {
        &&& self.pattern@.len() > 0
        &&& self.bad_char_shift_map@ == forward_table(self.pattern@)
        &&& self.bad_char_shift_map_rev@ == backward_table(self.pattern@)
    }

    /// The forward shift table that the handle holds.
    pub closed spec fn shift_table(&self) -> Seq<usize> {
        self.bad_char_shift_map@
    }

    /// The backward shift table that the handle holds.
    pub closed spec fn shift_table_rev(&self) -> Seq<usize> {
        self.bad_char_shift_map_rev@
    }

    /// Two handles prepared from one pattern hold the same shift tables. The
    /// result of every search is stated over the text, the pattern and the
    /// limit alone, so the two handles also find the same occurrences.
    pub proof fn lemma_handles_of_one_pattern_agree(&self, other: &BMByte)
        requires
            self.wf(),
            other.wf(),
            self@ == other@,
        ensures
            self.shift_table() == other.shift_table(),
            self.shift_table_rev() == other.shift_table_rev(),
    {
    }

    /// Prepares a pattern (the needle); an empty pattern cannot be prepared.
    pub fn from(pattern: &[u8]) -> (r: Option<BMByte>)
        ensures
            r is None <==> pattern@.len() == 0,
            r matches Some(bm) ==> {
                &&& bm.wf()
                &&& bm@ == pattern@
                &&& bm.shift_table() == forward_table(pattern@)
                &&& bm.shift_table_rev() == backward_table(pattern@)
            },
    {
        let bad_char_shift_map = match BMByteBadCharShiftMap::create_bad_char_shift_map(pattern) {
            Some(map) => map,
            None => {
                return None;
            },
        };
        let bad_char_shift_map_rev = match BMByteBadCharShiftMapRev::create_bad_char_shift_map(
            pattern,
        ) {
            Some(map) => map,
            None => {
                return None;
            },
        };
        let mut copy: Vec<u8> = Vec::with_capacity(pattern.len());
        for c in it: pattern.iter()
            invariant
                copy@.len() == it.index(),
                forall|i: int| 0 <= i < copy@.len() ==> copy@[i] == *it.seq()[i],
        {
            copy.push(*c);
        }
        assert(copy@ =~= pattern@);
        Some(BMByte { bad_char_shift_map, bad_char_shift_map_rev, pattern: copy })
    }

    /// Finds every occurrence of the pattern in the text (the haystack),
    /// overlapping ones among them, in ascending order.
    pub fn find_full_all_in(&self, text: &[u8]) -> (result: Vec<usize>)
        ensures
            offsets_of(result@) == full_matches(text@, self@),
    {
        proof {
            use_type_invariant(self);
        }
        find_full(text, self.pattern.as_slice(), &self.bad_char_shift_map, 0)
    }

    /// Finds the occurrences of the pattern in the text, overlapping ones
    /// among them, in ascending order. A `limit` of zero finds them all; any
    /// other finds the first `limit` of them.
    pub fn find_full_in(&self, text: &[u8], limit: usize) -> (result: Vec<usize>)
        ensures
            offsets_of(result@) == limited(full_matches(text@, self@), limit as int),
            limit > 0 ==> result@.len() <= limit,
    {
        proof {
            use_type_invariant(self);
        }
        find_full(text, self.pattern.as_slice(), &self.bad_char_shift_map, limit)
    }

    /// Finds every occurrence of the pattern in the text, overlapping ones
    /// among them, in descending order: the result of `find_full_all_in`,
    /// reversed.
    pub fn rfind_full_all_in(&self, text: &[u8]) -> (result: Vec<usize>)
        ensures
            offsets_of(result@) == full_matches(text@, self@).reverse(),
    {
        proof {
            use_type_invariant(self);
        }
        rfind_full(text, self.pattern.as_slice(), &self.bad_char_shift_map_rev, 0)
    }

    /// Finds the occurrences of the pattern in the text, overlapping ones
    /// among them, in descending order. A `limit` of zero finds them all; any
    /// other finds the first `limit` of them.
    pub fn rfind_full_in(&self, text: &[u8], limit: usize) -> (result: Vec<usize>)
        ensures
            offsets_of(result@) == limited(full_matches(text@, self@).reverse(), limit as int),
            limit > 0 ==> result@.len() <= limit,
    {
        proof {
            use_type_invariant(self);
        }
        rfind_full(text, self.pattern.as_slice(), &self.bad_char_shift_map_rev, limit)
    }

    /// Finds the occurrences of the pattern in the text in ascending order,
    /// without those that overlap the occurrence found before: of every
    /// occurrence, the first is kept, and then each that starts at or after
    /// the end of the one kept before it.
    pub fn find_all_in(&self, text: &[u8]) -> (result: Vec<usize>)
        ensures
            offsets_of(result@) == disjoint_matches(text@, self@),
    {
        proof {
            use_type_invariant(self);
        }
        find(text, self.pattern.as_slice(), &self.bad_char_shift_map, 0)
    }

    /// Finds the first occurrence of the pattern in the text.
    pub fn find_first_in(&self, text: &[u8]) -> (result: Option<usize>)
        ensures
            result is None <==> full_matches(text@, self@).len() == 0,
            result matches Some(o) ==> o == full_matches(text@, self@).first(),
    {
        proof {
            use_type_invariant(self);
            lemma_disjoint_first(text@, self@);
            lemma_limited_first(disjoint_matches(text@, self@), 1);
        }
        let found: Vec<usize> = find(text, self.pattern.as_slice(), &self.bad_char_shift_map, 1);
        assert(offsets_of(found@).len() == found@.len());
        if found.len() > 0 {
            assert(offsets_of(found@)[0] == found@[0]);
            Some(found[0])
        } else {
            None
        }
    }

    /// Finds the occurrences of the pattern in the text in ascending order,
    /// without those that overlap the occurrence found before. A `limit` of
    /// zero finds them all; any other finds the first `limit` of them.
    pub fn find_in(&self, text: &[u8], limit: usize) -> (result: Vec<usize>)
        ensures
            offsets_of(result@) == limited(disjoint_matches(text@, self@), limit as int),
            limit > 0 ==> result@.len() <= limit,
    {
        proof {
            use_type_invariant(self);
        }
        find(text, self.pattern.as_slice(), &self.bad_char_shift_map, limit)
    }

    /// Finds the occurrences of the pattern in the text in descending order,
    /// without those that overlap the occurrence found before: of every
    /// occurrence, the last is kept, and then each that ends at or before
    /// the start of the one kept before it.
    pub fn rfind_all_in(&self, text: &[u8]) -> (result: Vec<usize>)
        ensures
            offsets_of(result@) == disjoint_matches_rev(text@, self@),
    {
        proof {
            use_type_invariant(self);
        }
        rfind(text, self.pattern.as_slice(), &self.bad_char_shift_map_rev, 0)
    }

    /// Finds the last occurrence of the pattern in the text.
    pub fn rfind_first_in(&self, text: &[u8]) -> (result: Option<usize>)
        ensures
            result is None <==> full_matches(text@, self@).len() == 0,
            result matches Some(o) ==> o == full_matches(text@, self@).last(),
    {
        proof {
            use_type_invariant(self);
            lemma_disjoint_rev_first(text@, self@);
            lemma_limited_first(disjoint_matches_rev(text@, self@), 1);
        }
        let found: Vec<usize> = rfind(
            text,
            self.pattern.as_slice(),
            &self.bad_char_shift_map_rev,
            1,
        );
        assert(offsets_of(found@).len() == found@.len());
        if found.len() > 0 {
            assert(offsets_of(found@)[0] == found@[0]);
            Some(found[0])
        } else {
            None
        }
    }

    /// Finds the occurrences of the pattern in the text in descending order,
    /// without those that overlap the occurrence found before. A `limit` of
    /// zero finds them all; any other finds the first `limit` of them.
    pub fn rfind_in(&self, text: &[u8], limit: usize) -> (result: Vec<usize>)
        ensures
            offsets_of(result@) == limited(disjoint_matches_rev(text@, self@), limit as int),
            limit > 0 ==> result@.len() <= limit,
    {
        proof {
            use_type_invariant(self);
        }
        rfind(text, self.pattern.as_slice(), &self.bad_char_shift_map_rev, limit)
    }
}

/// Finds the occurrences of the pattern in the text, overlapping ones
/// among them, from the head of the text on; a `limit` other than zero bounds
/// their number. The table is the forward table of the pattern. In an empty
/// pattern nothing is found.
pub fn find_full(
    text: &[u8],
    pattern: &[u8],
    bad_char_shift_map: &BMByteBadCharShiftMap,
    limit: usize,
) -> (result: Vec<usize>)
    requires
        pattern@.len() > 0 ==> bad_char_shift_map@ == forward_table(pattern@),
    ensures
        offsets_of(result@) == limited(full_matches(text@, pattern@), limit as int),
        limit > 0 ==> result@.len() <= limit,
{
    proof {
        if pattern@.len() > 0 {
            bad_char_shift_map.lemma_holds_shifts(pattern@);
        }
    }
    crate::scan::find_full(text, pattern, bad_char_shift_map, limit)
}

/// Finds the occurrences of the pattern in the text, overlapping ones
/// among them, from the tail of the text on; a `limit` other than zero bounds
/// their number. The table is the backward table of the pattern. In an empty
/// pattern nothing is found.
pub fn rfind_full(
    text: &[u8],
    pattern: &[u8],
    bad_char_shift_map: &BMByteBadCharShiftMapRev,
    limit: usize,
) -> (result: Vec<usize>)
    requires
        pattern@.len() > 0 ==> bad_char_shift_map@ == backward_table(pattern@),
    ensures
        offsets_of(result@) == limited(full_matches_rev(text@, pattern@), limit as int),
        limit > 0 ==> result@.len() <= limit,
{
    proof {
        if pattern@.len() > 0 {
            bad_char_shift_map.lemma_holds_shifts(pattern@);
        }
    }
    crate::scan::rfind_full(text, pattern, bad_char_shift_map, limit)
}

/// Finds the occurrences of the pattern in the text from the head of the
/// text on, passing over those that overlap the one found before; a `limit`
/// other than zero bounds their number. The table is the forward table of
/// the pattern. In an empty pattern nothing is found.
pub fn find(
    text: &[u8],
    pattern: &[u8],
    bad_char_shift_map: &BMByteBadCharShiftMap,
    limit: usize,
) -> (result: Vec<usize>)
    requires
        pattern@.len() > 0 ==> bad_char_shift_map@ == forward_table(pattern@),
    ensures
        offsets_of(result@) == limited(disjoint_matches(text@, pattern@), limit as int),
        limit > 0 ==> result@.len() <= limit,
{
    proof {
        if pattern@.len() > 0 {
            bad_char_shift_map.lemma_holds_shifts(pattern@);
        }
    }
    crate::scan::find(text, pattern, bad_char_shift_map, limit)
}

/// Finds the occurrences of the pattern in the text from the tail of the
/// text on, passing over those that overlap the one found before; a `limit`
/// other than zero bounds their number. The table is the backward table of
/// the pattern. In an empty pattern nothing is found.
pub fn rfind(
    text: &[u8],
    pattern: &[u8],
    bad_char_shift_map: &BMByteBadCharShiftMapRev,
    limit: usize,
) -> (result: Vec<usize>)
    requires
        pattern@.len() > 0 ==> bad_char_shift_map@ == backward_table(pattern@),
    ensures
        offsets_of(result@) == limited(disjoint_matches_rev(text@, pattern@), limit as int),
        limit > 0 ==> result@.len() <= limit,
{
    proof {
        if pattern@.len() > 0 {
            bad_char_shift_map.lemma_holds_shifts(pattern@);
        }
    }
    crate::scan::rfind(text, pattern, bad_char_shift_map, limit)
}

} // verus!
