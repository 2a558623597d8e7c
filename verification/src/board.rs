use vstd::prelude::*;
use crate::model::{Piece, Pieces, side_code, wf};

verus! {

broadcast use vstd::array::group_array_axioms;

/// Occupancy of the twelve squares after writing the first `n` tokens onto an
/// initially empty board: 0 empty, 1 one side, 2 the other.
pub open spec fn board_upto(s: Seq<Piece>, n: int) -> Seq<u8>
    decreases n,
{
    if n <= 0 {
        Seq::new(12, |j: int| 0u8)
    } else {
        let b = board_upto(s, n - 1);
        let p = s[n - 1];
        if p.position < 12 {
            b.update(p.position as int, side_code(p.owner))
        } else {
            b
        }
    }
}

/// Occupancy of the twelve squares under a full position.
pub open spec fn board_of(s: Seq<Piece>) -> Seq<u8> {
    board_upto(s, 8)
}

pub proof fn lemma_board_upto_len(s: Seq<Piece>, n: int)
    ensures
        board_upto(s, n).len() == 12,
    decreases n,
{
    if n > 0 {
        lemma_board_upto_len(s, n - 1);
    }
}

/// What a square of the scratch board says about the tokens written so far:
/// an untouched square is empty of them, and a token's square carries its
/// side's code (the latter needs the no-two-tokens-per-square invariant).
pub proof fn lemma_board_upto_at(s: Seq<Piece>, n: int, sq: int)
    requires
        wf(s),
        0 <= n <= 8,
        0 <= sq < 12,
    ensures
        (forall|j: int| 0 <= j < n ==> (#[trigger] s[j]).position != sq) ==> board_upto(s, n)[sq]
            == 0,
        forall|j: int|
            0 <= j < n && (#[trigger] s[j]).position == sq ==> board_upto(s, n)[sq] == side_code(
                s[j].owner,
            ),
    decreases n,
{
    lemma_board_upto_len(s, n);
    if n > 0 {
        lemma_board_upto_at(s, n - 1, sq);
        lemma_board_upto_len(s, n - 1);
        let p = s[n - 1];
        if p.position < 12 && p.position == sq {
            assert forall|j: int| 0 <= j < n && (#[trigger] s[j]).position == sq implies board_upto(
                s,
                n,
            )[sq] == side_code(s[j].owner) by {
                if j != n - 1 {
                    assert(s[j].position != s[n - 1].position);
                }
            }
        } else {
            assert(board_upto(s, n)[sq] == board_upto(s, n - 1)[sq]);
        }
    }
}

/// A square the scratch board marks empty holds no token, and one it marks
/// occupied holds exactly the token whose side code it carries.
pub proof fn lemma_board_at(s: Seq<Piece>, sq: int)
    requires
        wf(s),
        0 <= sq < 12,
    ensures
        board_of(s)[sq] == 0 ==> forall|j: int| 0 <= j < 8 ==> (#[trigger] s[j]).position != sq,
        forall|j: int|
            0 <= j < 8 && (#[trigger] s[j]).position == sq ==> board_of(s)[sq] == side_code(
                s[j].owner,
            ),
{
    lemma_board_upto_at(s, 8, sq);
    if board_of(s)[sq] == 0 {
        assert forall|j: int| 0 <= j < 8 implies (#[trigger] s[j]).position != sq by {
            if s[j].position == sq {
                assert(board_of(s)[sq] == side_code(s[j].owner));
            }
        }
    }
}

/// Build the occupancy scratch array for a position.
pub fn board_array(pieces: &Pieces) -> (b: [u8; 12])
    requires
        wf(pieces@),
    ensures
        b@ == board_of(pieces@),
{
    let mut b: [u8; 12] = [0u8; 12];
    assert(b@ =~= board_upto(pieces@, 0));
    for i in 0..8
        invariant
            wf(pieces@),
            b@ == board_upto(pieces@, i as int),
    {
        let p = pieces[i];
        if p.position < 12 {
            let code: u8 = if p.owner {
                2
            } else {
                1
            };
            proof {
                lemma_board_upto_len(pieces@, i as int);
            }
            b[p.position as usize] = code;
            assert(b@ =~= board_upto(pieces@, i + 1));
        } else {
            assert(b@ =~= board_upto(pieces@, i + 1));
        }
    }
    b
}

} // verus!
