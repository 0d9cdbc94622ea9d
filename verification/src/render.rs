//! Console rendering support: one glyph per square.
use vstd::prelude::*;

use crate::chess::{Piece, Player, Square};

verus! {

/// The glyph that draws a square's contents: the conventional chess
/// figurines for each player's pieces, and a dot for an empty square.
pub open spec fn spec_square_char(square: Square) -> char {
    match square.player {
        Player::WHITE => match square.piece {
            Piece::EMPTY => '.',
            Piece::PAWN => '\u{2659}',
            Piece::KNIGHT => '\u{2658}',
            Piece::BISHOP => '\u{2657}',
            Piece::ROOK => '\u{2656}',
            Piece::QUEEN => '\u{2655}',
            Piece::KING => '\u{2654}',
        },
        Player::BLACK => match square.piece {
            Piece::EMPTY => '.',
            Piece::PAWN => '\u{265F}',
            Piece::KNIGHT => '\u{265E}',
            Piece::BISHOP => '\u{265D}',
            Piece::ROOK => '\u{265C}',
            Piece::QUEEN => '\u{265B}',
            Piece::KING => '\u{265A}',
        },
    }
}

/// The glyph that draws a square's contents.
#[verifier::when_used_as_spec(spec_square_char)]
pub fn square_char(square: Square) -> (r: char)
    ensures
        r == spec_square_char(square),
{
    match square.player {
        Player::WHITE => match square.piece {
            Piece::EMPTY => '.',
            Piece::PAWN => '\u{2659}',
            Piece::KNIGHT => '\u{2658}',
            Piece::BISHOP => '\u{2657}',
            Piece::ROOK => '\u{2656}',
            Piece::QUEEN => '\u{2655}',
            Piece::KING => '\u{2654}',
        },
        Player::BLACK => match square.piece {
            Piece::EMPTY => '.',
            Piece::PAWN => '\u{265F}',
            Piece::KNIGHT => '\u{265E}',
            Piece::BISHOP => '\u{265D}',
            Piece::ROOK => '\u{265C}',
            Piece::QUEEN => '\u{265B}',
            Piece::KING => '\u{265A}',
        },
    }
}

} // verus!
