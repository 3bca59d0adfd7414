//! # Boyer-Moore-MagicLen
//!
//! Searching for a fixed pattern in a text with a bad-symbol shift table and
//! a one-symbol lookahead: a window of the pattern's length moves over the
//! text by the greater of the shift of the symbol at its far end and the
//! shift of the symbol just beyond it.
//!
//! A pattern is prepared once and then searched for in any number of texts:
//!
//! * [`BMByte`] searches bytes, and so any text in a self-synchronizing
//!   encoding such as UTF-8;
//! * [`BMLatin1`] searches single-byte symbols behind one interface for
//!   strings and byte buffers;
//! * [`BMCharacter`] searches characters.
//!
//! There are two search modes and two directions. A full search
//! (`find_full_...`) reports every occurrence, overlapping ones among them; a
//! normal search (`find_...`) passes over an occurrence that overlaps the one
//! reported before it. A search runs from the head of the text (`find...`) or
//! from its tail (`rfind...`), for all occurrences, for the first, or for at
//! most a given number of them.
//!
//! ```text
//! pattern  oocoo
//! text     coocoocoocoo
//!
//! find_full_all_in   [1, 4, 7]        rfind_full_all_in   [7, 4, 1]
//! find_all_in        [1, 7]           rfind_all_in        [7, 1]
//! find_first_in      Some(1)          rfind_first_in      Some(7)
//! ```
//!
//! Every search is one loop, that of [`scan`], which reads a text through an
//! adapter of its alphabet and a shift table. What a search returns is stated
//! over the model of [`matching`]; what the model guarantees is proved in
//! [`laws`].

pub mod byte;
pub mod character;
pub mod dense;
pub mod latin_1;
pub mod laws;
pub mod lemmas;
pub mod matching;
pub mod scan;
pub mod sparse;

pub use byte::{BMByte, BMByteBadCharShiftMap, BMByteBadCharShiftMapRev, LenTrait};
pub use character::{
    BMCharacter, BMCharacterBadCharShiftMap, BMCharacterBadCharShiftMapRev, BMCharacterSearchable,
};
pub use latin_1::{
    BMLatin1, BMLatin1BadCharShiftMap, BMLatin1BadCharShiftMapRev, BMLatin1Searchable,
};
