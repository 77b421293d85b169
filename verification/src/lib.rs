use vstd::prelude::*;

pub mod dict;
pub mod game;
pub mod greedy;
pub mod player;

pub use game::Bag;
pub use game::Board;
pub use game::Space;

verus! {

/// The tile byte that marks an empty board space (ASCII '-').
pub const EMPTY: u8 = 45;
/// The tile byte for a blank (wildcard) tile (ASCII '*'); blanks score zero.
pub const BLANK: u8 = 42;
/// ASCII 'A', the first letter tile.
pub const LETTER_A: u8 = 65;
/// ASCII 'Z', the last letter tile.
pub const LETTER_Z: u8 = 90;

/// True of the bytes that may sit on an occupied space or in a rack:
/// the uppercase letters and the blank.
pub open spec fn is_tile(t: u8) -> bool {
    t == BLANK || (LETTER_A <= t && t <= LETTER_Z)
}

/// The base point value of a tile, before any square multiplier.
/// Letter codes are ASCII: A=65 .. Z=90.
pub open spec fn spec_score_letter(t: u8) -> int {
    if t == BLANK {
        0
    } else if t == 65 || t == 69 || t == 73 || t == 76 || t == 78 || t == 79 || t == 82 || t == 83
        || t == 84 || t == 85 {
        1  // A E I L N O R S T U
    } else if t == 68 || t == 71 {
        2  // D G
    } else if t == 66 || t == 67 || t == 77 || t == 80 {
        3  // B C M P
    } else if t == 70 || t == 72 || t == 86 || t == 87 || t == 89 {
        4  // F H V W Y
    } else if t == 75 {
        5  // K
    } else if t == 74 || t == 88 {
        8  // J X
    } else {
        10  // Q Z
    }
}

/// Base point value of a letter tile: blanks are worth nothing, letters carry
/// the standard distribution's values.
pub fn score_letter(letter: u8) -> (r: i64)
    requires
        is_tile(letter),
    ensures
        r == spec_score_letter(letter),
        0 <= r <= 10,
{
    if letter == BLANK {
        0
    } else if letter == 65 || letter == 69 || letter == 73 || letter == 76 || letter == 78
        || letter == 79 || letter == 82 || letter == 83 || letter == 84 || letter == 85 {
        1  // A E I L N O R S T U
    } else if letter == 68 || letter == 71 {
        2  // D G
    } else if letter == 66 || letter == 67 || letter == 77 || letter == 80 {
        3  // B C M P
    } else if letter == 70 || letter == 72 || letter == 86 || letter == 87 || letter == 89 {
        4  // F H V W Y
    } else if letter == 75 {
        5  // K
    } else if letter == 74 || letter == 88 {
        8  // J X
    } else {
        10  // Q Z
    }
}

} // verus!
