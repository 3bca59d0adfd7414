//! Searching sub-sequences of single-byte symbols in any sequence of
//! single-byte symbols. Text is taken as the bytes of its encoding;
//! characters can be narrowed to single-byte symbols first.

use crate::dense::{
    backward_table, build_backward_table, build_forward_table, forward_table,
    lemma_backward_table, lemma_forward_table,
};
use crate::laws::{lemma_disjoint_first, lemma_disjoint_rev_first, lemma_limited_first};
use crate::lemmas::lemma_match_pointwise;
use crate::matching::{
    backward_shift, disjoint_matches, disjoint_matches_rev, forward_shift, full_matches,
    full_matches_rev, is_match, limited, matches_in, offsets_of,
};
use crate::scan::{holds_backward_shifts, holds_forward_shifts, ShiftTable, Symbols};
use core::slice::Iter;
use vstd::prelude::*;
use vstd::std_specs::iter::IteratorSpec;
use vstd::utf8::encode_utf8;

verus! {

/// A sequence of single-byte symbols that can be searched, or searched for.
pub trait BMLatin1Searchable {
    /// The symbols of the sequence.
    spec fn symbols(&self) -> Seq<u8>;

    /// The number of symbols.
    fn len(&self) -> (n: usize)
        ensures
            n == self.symbols().len(),
    ;

    /// The symbol at `index`, which lies within the sequence.
    fn value_at(&self, index: usize) -> (b: u8)
        requires
            index < self.symbols().len(),
        ensures
            b == self.symbols()[index as int],
    ;

    /// An iterator over the symbols, from the first on.
    fn iter(&self) -> (it: Iter<'_, u8>)
        ensures
            it.remaining().unref() == self.symbols(),
            it.decrease() is Some,
            it.initial_value_relation(&it),
    ;
}

impl BMLatin1Searchable for String {
    /// The bytes of the string's UTF-8 encoding.
    open spec fn symbols(&self) -> Seq<u8> {
        encode_utf8(self@)
    }

    fn len(&self) -> (n: usize) {
        self.as_str().as_bytes().len()
    }

    fn value_at(&self, index: usize) -> (b: u8) {
        self.as_str().as_bytes()[index]
    }

    fn iter(&self) -> (it: Iter<'_, u8>) {
        self.as_str().as_bytes().iter()
    }
}

impl BMLatin1Searchable for &str {
    /// The bytes of the text's UTF-8 encoding.
    open spec fn symbols(&self) -> Seq<u8> {
        encode_utf8(self@)
    }

    fn len(&self) -> (n: usize) {
        self.as_bytes().len()
    }

    fn value_at(&self, index: usize) -> (b: u8) {
        self.as_bytes()[index]
    }

    fn iter(&self) -> (it: Iter<'_, u8>) {
        self.as_bytes().iter()
    }
}

impl BMLatin1Searchable for [u8] {
    open spec fn symbols(&self) -> Seq<u8> {
        self@
    }

    fn len(&self) -> (n: usize) {
        <[u8]>::len(self)
    }

    fn value_at(&self, index: usize) -> (b: u8) {
        self[index]
    }

    fn iter(&self) -> (it: Iter<'_, u8>) {
        <[u8]>::iter(self)
    }
}

impl BMLatin1Searchable for Vec<u8> {
    open spec fn symbols(&self) -> Seq<u8> {
        self@
    }

    fn len(&self) -> (n: usize) {
        Vec::len(self)
    }

    fn value_at(&self, index: usize) -> (b: u8) {
        self[index]
    }

    fn iter(&self) -> (it: Iter<'_, u8>) {
        self.as_slice().iter()
    }
}

impl<T: BMLatin1Searchable> BMLatin1Searchable for &T {
    open spec fn symbols(&self) -> Seq<u8> {
        (**self).symbols()
    }

    fn len(&self) -> (n: usize) {
        T::len(*self)
    }

    fn value_at(&self, index: usize) -> (b: u8) {
        T::value_at(*self, index)
    }

    fn iter(&self) -> (it: Iter<'_, u8>) {
        T::iter(*self)
    }
}

/// The character is a Latin-1 symbol: its code is at most 255.
pub open spec fn is_latin_1(c: char) -> bool {
    c as u32 <= 0xff
}

/// The single-byte symbol that stands for a character: the low eight bits of
/// its code. For a Latin-1 symbol that is the code itself; any other
/// character stands for the same symbol as some Latin-1 symbol does.
pub open spec fn narrowed_symbol(c: char) -> u8 {
    c as u8
}

/// The single-byte symbols that stand for a sequence of characters.
pub open spec fn narrowed(chars: Seq<char>) -> Seq<u8> {
    chars.map_values(|c: char| narrowed_symbol(c))
}

/// Every character of the sequence is a Latin-1 symbol.
pub open spec fn all_latin_1(chars: Seq<char>) -> bool {
    forall|i: int| 0 <= i < chars.len() ==> is_latin_1(#[trigger] chars[i])
}

/// Narrows each character to the single-byte symbol that stands for it, by
/// truncation.
pub fn narrow(chars: &[char]) -> (symbols: Vec<u8>)
    ensures
        symbols@ == narrowed(chars@),
{
    let mut symbols: Vec<u8> = Vec::with_capacity(chars.len());
    let mut i: usize = 0;
    while i < chars.len()
        invariant
            i <= chars.len(),
            symbols@ == narrowed(chars@.take(i as int)),
        decreases chars.len() - i,
    {
        let c: char = chars[i];
        symbols.push(c as u8);
        assert(symbols@ =~= narrowed(chars@.take(i + 1)));
        i += 1;
    }
    assert(chars@.take(chars.len() as int) =~= chars@);
    symbols
}

/// Says whether every character is a Latin-1 symbol, so that narrowing the
/// sequence loses nothing.
pub fn fits_latin_1(chars: &[char]) -> (fits: bool)
    ensures
        fits == all_latin_1(chars@),
{
    let mut i: usize = 0;
    while i < chars.len()
        invariant
            i <= chars.len(),
            all_latin_1(chars@.take(i as int)),
        decreases chars.len() - i,
    {
        if chars[i] as u32 > 0xff {
            assert(!is_latin_1(chars@[i as int]));
            return false;
        }
        assert forall|j: int| 0 <= j < i + 1 implies is_latin_1(
            #[trigger] chars@.take(i + 1)[j],
        ) by {
            if j < i {
                assert(chars@.take(i as int)[j] == chars@[j]);
            }
        }
        i += 1;
    }
    assert(chars@.take(chars.len() as int) =~= chars@);
    true
}

/// Narrowing is exact on Latin-1 symbols: where a text and a pattern hold
/// nothing else, the pattern occurs in the narrowed text exactly where it
/// occurs in the text.
pub proof fn lemma_narrowing_is_exact(text: Seq<char>, pattern: Seq<char>)
    requires
        all_latin_1(text),
        all_latin_1(pattern),
    ensures
        forall|o: int|
            is_match(narrowed(text), narrowed(pattern), o) <==> is_match(text, pattern, o),
        full_matches(narrowed(text), narrowed(pattern)) == full_matches(text, pattern),
{
    let wide = text;
    let thin = narrowed(text);
    let p = pattern;
    let q = narrowed(pattern);
    assert forall|o: int| is_match(thin, q, o) <==> is_match(wide, p, o) by {
        lemma_match_pointwise(thin, q, o);
        lemma_match_pointwise(wide, p, o);
        if 0 <= o && o + p.len() <= wide.len() {
            assert forall|i: int| 0 <= i < p.len() implies (thin[o + i] == q[i] <==> wide[o + i]
                == p[i]) by {
                lemma_narrowed_symbol_is_exact(wide[o + i], p[i]);
            }
            if is_match(thin, q, o) {
                assert forall|i: int| 0 <= i < p.len() implies wide[o + i] == #[trigger] p[i] by {
                    assert(thin[o + i] == q[i]);
                }
            }
            if is_match(wide, p, o) {
                assert forall|i: int| 0 <= i < q.len() implies thin[o + i] == #[trigger] q[i] by {
                    assert(wide[o + i] == p[i]);
                }
            }
        }
    }
    if p.len() > 0 {
        lemma_same_occurrences_same_list(thin, q, wide, p, 0, wide.len() - p.len() + 1);
    }
}

/// Two Latin-1 symbols that narrow to one byte are one symbol.
proof fn lemma_narrowed_symbol_is_exact(a: char, b: char)
    requires
        is_latin_1(a),
        is_latin_1(b),
    ensures
        narrowed_symbol(a) == narrowed_symbol(b) <==> a == b,
{
}

/// Two searches with the same occurrences in a range list the same offsets
/// for it.
proof fn lemma_same_occurrences_same_list<A, B>(
    text: Seq<A>,
    pattern: Seq<A>,
    other_text: Seq<B>,
    other_pattern: Seq<B>,
    lo: int,
    hi: int,
)
    requires
        forall|o: int|
            is_match(text, pattern, o) <==> is_match(other_text, other_pattern, o),
    ensures
        matches_in(text, pattern, lo, hi) == matches_in(other_text, other_pattern, lo, hi),
    decreases hi - lo,
{
    if lo < hi {
        lemma_same_occurrences_same_list(text, pattern, other_text, other_pattern, lo + 1, hi);
    }
}

/// A searchable sequence as a scan reads it.
struct Reading<'a, T: BMLatin1Searchable>(&'a T);

impl<'a, T: BMLatin1Searchable> Symbols for Reading<'a, T> {
    type Item = u8;

    closed spec fn symbols(&self) -> Seq<u8> {
        self.0.symbols()
    }

    fn len(&self) -> (n: usize) {
        self.0.len()
    }

    fn value_at(&self, index: usize) -> (c: u8) {
        self.0.value_at(index)
    }
}

/// The forward bad-symbol shift table of a pattern, indexed by symbol.
#[derive(Debug)]
pub struct BMLatin1BadCharShiftMap {
    t: [usize; 256],
}

impl View for BMLatin1BadCharShiftMap {
    type V = Seq<usize>;

    /// The 256 shifts.
    closed spec fn view(&self) -> Seq<usize> {
        self.t@
    }
}

impl core::ops::Deref for BMLatin1BadCharShiftMap {
    type Target = [usize];

    /// The shifts, indexed by symbol.
    fn deref(&self) -> (shifts: &[usize])
        ensures
            shifts@ == self@,
    {
        self.t.as_slice()
    }
}

impl ShiftTable for BMLatin1BadCharShiftMap {
    type Item = u8;

    closed spec fn shift_of(&self, c: u8, absent: int) -> int {
        self.t@[c as int] as int
    }

    fn shift(&self, c: u8, absent: usize) -> (s: usize) {
        self.t[c as usize]
    }
}

/// The backward bad-symbol shift table of a pattern, indexed by symbol.
#[derive(Debug)]
pub struct BMLatin1BadCharShiftMapRev {
    t: [usize; 256],
}

impl View for BMLatin1BadCharShiftMapRev {
    type V = Seq<usize>;

    /// The 256 shifts.
    closed spec fn view(&self) -> Seq<usize> {
        self.t@
    }
}

impl core::ops::Deref for BMLatin1BadCharShiftMapRev {
    type Target = [usize];

    /// The shifts, indexed by symbol.
    fn deref(&self) -> (shifts: &[usize])
        ensures
            shifts@ == self@,
    {
        self.t.as_slice()
    }
}

impl ShiftTable for BMLatin1BadCharShiftMapRev {
    type Item = u8;

    closed spec fn shift_of(&self, c: u8, absent: int) -> int {
        self.t@[c as int] as int
    }

    fn shift(&self, c: u8, absent: usize) -> (s: usize) {
        self.t[c as usize]
    }
}

impl BMLatin1BadCharShiftMap {
    /// Builds the forward table of a pattern; there is none for an empty
    /// pattern.
    pub fn create_bad_char_shift_map<T: BMLatin1Searchable>(pattern: T) -> (r: Option<
        BMLatin1BadCharShiftMap,
    >)
        ensures
            r is None <==> pattern.symbols().len() == 0,
            r matches Some(map) ==> map@ == forward_table(pattern.symbols()),
    {
        let pattern_len: usize = pattern.len();

        if pattern_len == 0 {
            return None;
        }
        Some(BMLatin1BadCharShiftMap { t: build_forward_table(&Reading(&pattern), pattern_len) })
    }

    /// The table of a pattern gives a scan the forward shift of every
    /// symbol.
    pub proof fn lemma_holds_shifts(&self, pattern: Seq<u8>)
        requires
            self@ == forward_table(pattern),
        ensures
            0 < pattern.len() <= usize::MAX ==> holds_forward_shifts(self, pattern),
    {
        if 0 < pattern.len() <= usize::MAX {
            assert forall|c: u8| #[trigger]
                self.shift_of(c, pattern.len() as int) == forward_shift(pattern, c) by {
                lemma_forward_table(pattern, c);
            }
        }
    }
}

impl BMLatin1BadCharShiftMapRev {
    /// Builds the backward table of a pattern; there is none for an empty
    /// pattern.
    pub fn create_bad_char_shift_map<T: BMLatin1Searchable>(pattern: T) -> (r: Option<
        BMLatin1BadCharShiftMapRev,
    >)
        ensures
            r is None <==> pattern.symbols().len() == 0,
            r matches Some(map) ==> map@ == backward_table(pattern.symbols()),
    {
        let pattern_len: usize = pattern.len();

        if pattern_len == 0 {
            return None;
        }
        Some(
            BMLatin1BadCharShiftMapRev {
                t: build_backward_table(&Reading(&pattern), pattern_len),
            },
        )
    }

    /// The table of a pattern gives a scan the backward shift of every
    /// symbol.
    pub proof fn lemma_holds_shifts(&self, pattern: Seq<u8>)
        requires
            self@ == backward_table(pattern),
        ensures
            0 < pattern.len() <= usize::MAX ==> holds_backward_shifts(self, pattern),
    {
        if 0 < pattern.len() <= usize::MAX {
            assert forall|c: u8| #[trigger]
                self.shift_of(c, pattern.len() as int) == backward_shift(pattern, c) by {
                lemma_backward_table(pattern, c);
            }
        }
    }
}

/// A pattern prepared for searching: the pattern and its two shift tables.
#[derive(Debug)]
pub struct BMLatin1 {
    bad_char_shift_map: BMLatin1BadCharShiftMap,
    bad_char_shift_map_rev: BMLatin1BadCharShiftMapRev,
    pattern: Vec<u8>,
}

impl View for BMLatin1 {
    type V = Seq<u8>;

    /// The pattern.
    closed spec fn view(&self) -> Seq<u8> {
        self.pattern@
    }
}

impl BMLatin1 {
    /// The pattern is not empty and the tables are those of the pattern.
    #[verifier::type_invariant]
    pub closed spec fn wf(&self) -> bool {
        &&& self.pattern@.len() > 0
        &&& self.bad_char_shift_map@ == forward_table(self.pattern@)
        &&& self.bad_char_shift_map_rev@ == backward_table(self.pattern@)
    }

    /// The forward shift table that the handle holds.
    pub closed spec fn shift_table(&self) -> Seq<usize> {
        self.bad_char_shift_map@
    }

    /// The backward shift table that the handle holds.
    pub closed spec fn shift_table_rev(&self) -> Seq<usize> {
        self.bad_char_shift_map_rev@
    }

    /// Two handles prepared from one pattern hold the same shift tables. The
    /// result of every search is stated over the text, the pattern and the
    /// limit alone, so the two handles also find the same occurrences.
    pub proof fn lemma_handles_of_one_pattern_agree(&self, other: &BMLatin1)
        requires
            self.wf(),
            other.wf(),
            self@ == other@,
        ensures
            self.shift_table() == other.shift_table(),
            self.shift_table_rev() == other.shift_table_rev(),
    {
    }

    /// Prepares a pattern (the needle); an empty pattern cannot be prepared.
    pub fn from<T: BMLatin1Searchable>(pattern: T) -> (r: Option<BMLatin1>)
        ensures
            r is None <==> pattern.symbols().len() == 0,
            r matches Some(bm) ==> {
                &&& bm.wf()
                &&& bm@ == pattern.symbols()
                &&& bm.shift_table() == forward_table(pattern.symbols())
                &&& bm.shift_table_rev() == backward_table(pattern.symbols())
            },
    {
        let bad_char_shift_map = match BMLatin1BadCharShiftMap::create_bad_char_shift_map(
            &pattern,
        ) {
            Some(map) => map,
            None => {
                return None;
            },
        };
        let bad_char_shift_map_rev = match BMLatin1BadCharShiftMapRev::create_bad_char_shift_map(
            &pattern,
        ) {
            Some(map) => map,
            None => {
                return None;
            },
        };
        let mut copy: Vec<u8> = Vec::with_capacity(pattern.len());
        let walk = pattern.iter();
        let ghost all = walk.remaining();
        for c in it: walk
            invariant
                it.seq() == all,
                copy@.len() == it.index(),
                forall|i: int| 0 <= i < copy@.len() ==> copy@[i] == *it.seq()[i],
        {
            copy.push(*c);
        }
        assert(copy@ =~= pattern.symbols());
        Some(BMLatin1 { bad_char_shift_map, bad_char_shift_map_rev, pattern: copy })
    }

    /// Finds every occurrence of the pattern in the text (the haystack),
    /// overlapping ones among them, in ascending order.
    pub fn find_full_all_in<T: BMLatin1Searchable>(&self, text: T) -> (result: Vec<usize>)
        ensures
            offsets_of(result@) == full_matches(text.symbols(), self@),
    {
        proof {
            use_type_invariant(self);
        }
        find_full(text, &self.pattern, &self.bad_char_shift_map, 0)
    }

    /// Finds the first occurrence of the pattern in the text, by a scan that
    /// reports overlapping occurrences.
    pub fn find_full_first_in<T: BMLatin1Searchable>(&self, text: T) -> (result: Option<usize>)
        ensures
            result is None <==> full_matches(text.symbols(), self@).len() == 0,
            result matches Some(o) ==> o == full_matches(text.symbols(), self@).first(),
    {
        proof {
            use_type_invariant(self);
            lemma_limited_first(full_matches(text.symbols(), self@), 1);
        }
        let found: Vec<usize> = find_full(text, &self.pattern, &self.bad_char_shift_map, 1);
        assert(offsets_of(found@).len() == found@.len());
        if found.len() > 0 {
            assert(offsets_of(found@)[0] == found@[0]);
            Some(found[0])
        } else {
            None
        }
    }

    /// Finds the occurrences of the pattern in the text, overlapping ones
    /// among them, in ascending order. A `limit` of zero finds them all; any
    /// other finds the first `limit` of them.
    pub fn find_full_in<T: BMLatin1Searchable>(&self, text: T, limit: usize) -> (result: Vec<
        usize,
    >)
        ensures
            offsets_of(result@) == limited(full_matches(text.symbols(), self@), limit as int),
            limit > 0 ==> result@.len() <= limit,
    {
        proof {
            use_type_invariant(self);
        }
        find_full(text, &self.pattern, &self.bad_char_shift_map, limit)
    }

    /// Finds every occurrence of the pattern in the text, overlapping ones
    /// among them, in descending order: the result of `find_full_all_in`,
    /// reversed.
    pub fn rfind_full_all_in<T: BMLatin1Searchable>(&self, text: T) -> (result: Vec<usize>)
        ensures
            offsets_of(result@) == full_matches(text.symbols(), self@).reverse(),
    {
        proof {
            use_type_invariant(self);
        }
        rfind_full(text, &self.pattern, &self.bad_char_shift_map_rev, 0)
    }

    /// Finds the last occurrence of the pattern in the text, by a scan that
    /// reports overlapping occurrences.
    pub fn rfind_full_first_in<T: BMLatin1Searchable>(&self, text: T) -> (result: Option<usize>)
        ensures
            result is None <==> full_matches(text.symbols(), self@).len() == 0,
            result matches Some(o) ==> o == full_matches(text.symbols(), self@).last(),
    {
        proof {
            use_type_invariant(self);
            lemma_limited_first(full_matches_rev(text.symbols(), self@), 1);
        }
        let found: Vec<usize> = rfind_full(text, &self.pattern, &self.bad_char_shift_map_rev, 1);
        assert(offsets_of(found@).len() == found@.len());
        if found.len() > 0 {
            assert(offsets_of(found@)[0] == found@[0]);
            Some(found[0])
        } else {
            None
        }
    }

    /// Finds the occurrences of the pattern in the text, overlapping ones
    /// among them, in descending order. A `limit` of zero finds them all; any
    /// other finds the first `limit` of them.
    pub fn rfind_full_in<T: BMLatin1Searchable>(&self, text: T, limit: usize) -> (result: Vec<
        usize,
    >)
        ensures
            offsets_of(result@) == limited(
                full_matches(text.symbols(), self@).reverse(),
                limit as int,
            ),
            limit > 0 ==> result@.len() <= limit,
    {
        proof {
            use_type_invariant(self);
        }
        rfind_full(text, &self.pattern, &self.bad_char_shift_map_rev, limit)
    }

    /// Finds the occurrences of the pattern in the text in ascending order,
    /// without those that overlap the occurrence found before: of every
    /// occurrence, the first is kept, and then each that starts at or after
    /// the end of the one kept before it.
    pub fn find_all_in<T: BMLatin1Searchable>(&self, text: T) -> (result: Vec<usize>)
        ensures
            offsets_of(result@) == disjoint_matches(text.symbols(), self@),
    {
        proof {
            use_type_invariant(self);
        }
        find(text, &self.pattern, &self.bad_char_shift_map, 0)
    }

    /// Finds the first occurrence of the pattern in the text.
    pub fn find_first_in<T: BMLatin1Searchable>(&self, text: T) -> (result: Option<usize>)
        ensures
            result is None <==> full_matches(text.symbols(), self@).len() == 0,
            result matches Some(o) ==> o == full_matches(text.symbols(), self@).first(),
    {
        proof {
            use_type_invariant(self);
            lemma_disjoint_first(text.symbols(), self@);
            lemma_limited_first(disjoint_matches(text.symbols(), self@), 1);
        }
        let found: Vec<usize> = find(text, &self.pattern, &self.bad_char_shift_map, 1);
        assert(offsets_of(found@).len() == found@.len());
        if found.len() > 0 {
            assert(offsets_of(found@)[0] == found@[0]);
            Some(found[0])
        } else {
            None
        }
    }

    /// Finds the occurrences of the pattern in the text in ascending order,
    /// without those that overlap the occurrence found before. A `limit` of
    /// zero finds them all; any other finds the first `limit` of them.
    pub fn find_in<T: BMLatin1Searchable>(&self, text: T, limit: usize) -> (result: Vec<usize>)
        ensures
            offsets_of(result@) == limited(disjoint_matches(text.symbols(), self@), limit as int),
            limit > 0 ==> result@.len() <= limit,
    {
        proof {
            use_type_invariant(self);
        }
        find(text, &self.pattern, &self.bad_char_shift_map, limit)
    }

    /// Finds the occurrences of the pattern in the text in descending order,
    /// without those that overlap the occurrence found before: of every
    /// occurrence, the last is kept, and then each that ends at or before
    /// the start of the one kept before it.
    pub fn rfind_all_in<T: BMLatin1Searchable>(&self, text: T) -> (result: Vec<usize>)
        ensures
            offsets_of(result@) == disjoint_matches_rev(text.symbols(), self@),
    {
        proof {
            use_type_invariant(self);
        }
        rfind(text, &self.pattern, &self.bad_char_shift_map_rev, 0)
    }

    /// Finds the last occurrence of the pattern in the text.
    pub fn rfind_first_in<T: BMLatin1Searchable>(&self, text: T) -> (result: Option<usize>)
        ensures
            result is None <==> full_matches(text.symbols(), self@).len() == 0,
            result matches Some(o) ==> o == full_matches(text.symbols(), self@).last(),
    {
        proof {
            use_type_invariant(self);
            lemma_disjoint_rev_first(text.symbols(), self@);
            lemma_limited_first(disjoint_matches_rev(text.symbols(), self@), 1);
        }
        let found: Vec<usize> = rfind(text, &self.pattern, &self.bad_char_shift_map_rev, 1);
        assert(offsets_of(found@).len() == found@.len());
        if found.len() > 0 {
            assert(offsets_of(found@)[0] == found@[0]);
            Some(found[0])
        } else {
            None
        }
    }

    /// Finds the occurrences of the pattern in the text in descending order,
    /// without those that overlap the occurrence found before. A `limit` of
    /// zero finds them all; any other finds the first `limit` of them.
    pub fn rfind_in<T: BMLatin1Searchable>(&self, text: T, limit: usize) -> (result: Vec<usize>)
        ensures
            offsets_of(result@) == limited(
                disjoint_matches_rev(text.symbols(), self@),
                limit as int,
            ),
            limit > 0 ==> result@.len() <= limit,
    {
        proof {
            use_type_invariant(self);
        }
        rfind(text, &self.pattern, &self.bad_char_shift_map_rev, limit)
    }
}

/// Finds the occurrences of the pattern in the text, overlapping ones
/// among them, from the head of the text on; a `limit` other than zero bounds
/// their number. The table is the forward table of the pattern. In an empty
/// pattern nothing is found.
pub fn find_full<TT: BMLatin1Searchable, TP: BMLatin1Searchable>(
    text: TT,
    pattern: TP,
    bad_char_shift_map: &BMLatin1BadCharShiftMap,
    limit: usize,
) -> (result: Vec<usize>)
    requires
        pattern.symbols().len() > 0 ==> bad_char_shift_map@ == forward_table(pattern.symbols()),
    ensures
        offsets_of(result@) == limited(
            full_matches(text.symbols(), pattern.symbols()),
            limit as int,
        ),
        limit > 0 ==> result@.len() <= limit,
{
    proof {
        if pattern.symbols().len() > 0 {
            bad_char_shift_map.lemma_holds_shifts(pattern.symbols());
        }
    }
    crate::scan::find_full(&Reading(&text), &Reading(&pattern), bad_char_shift_map, limit)
}

/// Finds the occurrences of the pattern in the text, overlapping ones
/// among them, from the tail of the text on; a `limit` other than zero bounds
/// their number. The table is the backward table of the pattern. In an empty
/// pattern nothing is found.
pub fn rfind_full<TT: BMLatin1Searchable, TP: BMLatin1Searchable>(
    text: TT,
    pattern: TP,
    bad_char_shift_map: &BMLatin1BadCharShiftMapRev,
    limit: usize,
) -> (result: Vec<usize>)
    requires
        pattern.symbols().len() > 0 ==> bad_char_shift_map@ == backward_table(pattern.symbols()),
    ensures
        offsets_of(result@) == limited(
            full_matches_rev(text.symbols(), pattern.symbols()),
            limit as int,
        ),
        limit > 0 ==> result@.len() <= limit,
{
    proof {
        if pattern.symbols().len() > 0 {
            bad_char_shift_map.lemma_holds_shifts(pattern.symbols());
        }
    }
    crate::scan::rfind_full(&Reading(&text), &Reading(&pattern), bad_char_shift_map, limit)
}

/// Finds the occurrences of the pattern in the text from the head of the
/// text on, passing over those that overlap the one found before; a `limit`
/// other than zero bounds their number. The table is the forward table of
/// the pattern. In an empty pattern nothing is found.
pub fn find<TT: BMLatin1Searchable, TP: BMLatin1Searchable>(
    text: TT,
    pattern: TP,
    bad_char_shift_map: &BMLatin1BadCharShiftMap,
    limit: usize,
) -> (result: Vec<usize>)
    requires
        pattern.symbols().len() > 0 ==> bad_char_shift_map@ == forward_table(pattern.symbols()),
    ensures
        offsets_of(result@) == limited(
            disjoint_matches(text.symbols(), pattern.symbols()),
            limit as int,
        ),
        limit > 0 ==> result@.len() <= limit,
{
    proof {
        if pattern.symbols().len() > 0 {
            bad_char_shift_map.lemma_holds_shifts(pattern.symbols());
        }
    }
    crate::scan::find(&Reading(&text), &Reading(&pattern), bad_char_shift_map, limit)
}

/// Finds the occurrences of the pattern in the text from the tail of the
/// text on, passing over those that overlap the one found before; a `limit`
/// other than zero bounds their number. The table is the backward table of
/// the pattern. In an empty pattern nothing is found.
pub fn rfind<TT: BMLatin1Searchable, TP: BMLatin1Searchable>(
    text: TT,
    pattern: TP,
    bad_char_shift_map: &BMLatin1BadCharShiftMapRev,
    limit: usize,
) -> (result: Vec<usize>)
    requires
        pattern.symbols().len() > 0 ==> bad_char_shift_map@ == backward_table(pattern.symbols()),
    ensures
        offsets_of(result@) == limited(
            disjoint_matches_rev(text.symbols(), pattern.symbols()),
            limit as int,
        ),
        limit > 0 ==> result@.len() <= limit,
{
    proof {
        if pattern.symbols().len() > 0 {
            bad_char_shift_map.lemma_holds_shifts(pattern.symbols());
        }
    }
    crate::scan::rfind(&Reading(&text), &Reading(&pattern), bad_char_shift_map, limit)
}

} // verus!
