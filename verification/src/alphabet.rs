//! The invisible characters that carry hidden data and mark where it lies.
//!
//! Four zero-width characters stand for the four base-4 digits. A fifth character,
//! the hair space, occurs only in the middle of the zone flag.

use vstd::prelude::*;
use crate::error::CodecError;

verus! {

pub const HAIR_SPACE: char = '\u{200A}';

pub const ZERO_WIDTH_SPACE: char = '\u{200B}';

pub const ZERO_WIDTH_NON_JOINER: char = '\u{200C}';

pub const ZERO_WIDTH_JOINER: char = '\u{200D}';

pub const WORD_JOINER: char = '\u{2060}';

/// The symbol of each base-4 digit, at the digit's index.
pub const BASE_4_CODES: [char; 4] = [
    ZERO_WIDTH_SPACE,
    ZERO_WIDTH_NON_JOINER,
    ZERO_WIDTH_JOINER,
    WORD_JOINER,
];

/// The three characters that open and close a hidden zone.
pub const ZONE_CODE: [char; 3] = [ZERO_WIDTH_SPACE, HAIR_SPACE, ZERO_WIDTH_SPACE];

/// The symbol that stands for the base-4 digit `digit`.
pub open spec fn symbol(digit: int) -> char
    recommends
        0 <= digit < 4,
{
    BASE_4_CODES@[digit]
}

/// The base-4 digit that `c` stands for: the index at which the alphabet holds `c`.
pub open spec fn char_val(c: char) -> Option<u8> {
    if c == symbol(0) {
        Some(0u8)
    } else if c == symbol(1) {
        Some(1u8)
    } else if c == symbol(2) {
        Some(2u8)
    } else if c == symbol(3) {
        Some(3u8)
    } else {
        None
    }
}

/// Whether `c` is one of the four symbols.
pub open spec fn is_symbol(c: char) -> bool {
    char_val(c) is Some
}

/// The four symbols are pairwise distinct, and the hair space is none of them.
pub proof fn lemma_alphabet_distinct()
    ensures
        forall|i: int, j: int| 0 <= i < j < 4 ==> symbol(i) != symbol(j),
        !is_symbol(HAIR_SPACE),
{
}

/// Each symbol stands for the digit it was chosen for.
pub proof fn lemma_char_val_of_symbol(digit: int)
    requires
        0 <= digit < 4,
    ensures
        char_val(symbol(digit)) == Some(digit as u8),
{
}

/// A character stands for a digit exactly when it is the symbol of that digit.
pub proof fn lemma_char_val_inverts_symbol(c: char, digit: int)
    ensures
        char_val(c) == Some(digit as u8) && 0 <= digit < 4 <==> 0 <= digit < 4 && symbol(digit)
            == c,
{
}

/// Looks a character up in the alphabet.
///
/// Returns the digit that `c` stands for, or `InvalidSymbol` if it is no symbol.
pub fn get_char_val(c: char) -> (res: Result<u8, CodecError>)
    ensures
        match res {
            Ok(digit) => char_val(c) == Some(digit) && digit < 4 && symbol(digit as int) == c,
            Err(e) => char_val(c) is None && e == CodecError::InvalidSymbol,
        },
{
    if c == ZERO_WIDTH_SPACE {
        Ok(0)
    } else if c == ZERO_WIDTH_NON_JOINER {
        Ok(1)
    } else if c == ZERO_WIDTH_JOINER {
        Ok(2)
    } else if c == WORD_JOINER {
        Ok(3)
    } else {
        Err(CodecError::InvalidSymbol)
    }
}

} // verus!
