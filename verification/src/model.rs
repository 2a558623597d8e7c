use vstd::prelude::*;

verus! {

/// The five piece kinds: a pawn-like piece (Chick), a diagonal mover
/// (Elephant), an orthogonal mover (Giraffe), the royal piece (Lion), and the
/// promoted pawn (Hen).
#[derive(PartialEq, Eq, Structural, Clone, Copy, Debug)]
pub enum Kind {
    Chick,
    Elephant,
    Giraffe,
    Lion,
    Hen,
}

/// Sentinel square index of a captured piece (board squares are 0..11).
pub const CAPTURED: u8 = 12;

/// One of the eight tokens of a game: its current kind, its square (or
/// `CAPTURED`), and which side currently owns it.
#[derive(PartialEq, Eq, Structural, Clone, Copy, Debug)]
pub struct Piece {
    pub kind: Kind,
    pub position: u8,
    pub owner: bool,
}

/// A position is always exactly eight tokens; indices 0..3 and 4..7 pair up
/// tokens of the same kind, one per side originally.
pub type Pieces = [Piece; 8];

/// A move: `from` names a token index 0..7, `to` a square 0..11. If the token
/// is captured the move is a drop, otherwise a board move.
#[derive(PartialEq, Eq, Structural, Clone, Copy, Debug)]
pub struct Move {
    pub from: usize,
    pub to: usize,
}

/// Index of the paired token of the same original kind.
pub open spec fn pair(i: int) -> int {
    if i < 4 {
        i + 4
    } else {
        i - 4
    }
}

/// Occupancy code a side's pieces write onto the board scratch array.
pub open spec fn side_code(owner: bool) -> u8 {
    if owner {
        2
    } else {
        1
    }
}

/// Well-formed position: eight tokens, every position is a square or the
/// captured sentinel, and no two tokens share a board square.
pub open spec fn wf(s: Seq<Piece>) -> bool {
    &&& s.len() == 8
    &&& (forall|i: int| 0 <= i < 8 ==> (#[trigger] s[i]).position <= 12)
    &&& (forall|i: int, j: int|
        0 <= i < 8 && 0 <= j < 8 && i != j && (#[trigger] s[i]).position < 12 ==> s[i].position
            != (#[trigger] s[j]).position)
}

} // verus!
