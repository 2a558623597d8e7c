use vstd::prelude::*;
use crate::model::{Kind, Piece, Pieces, side_code, wf};
use crate::offsets::{spec_offsets, offset_count, offset_at, lemma_offsets_small};
use crate::board::{board_of, board_array, lemma_board_upto_len};

verus! {

broadcast use vstd::array::group_array_axioms;

/// Material value of a kind.
pub open spec fn spec_value(k: Kind) -> int {
    match k {
        Kind::Chick => 10,
        Kind::Elephant => 30,
        Kind::Giraffe => 50,
        Kind::Lion => 10000,
        Kind::Hen => 70,
    }
}

/// Sign convention: the side with `owner == false` counts positively.
pub open spec fn sign(owner: bool) -> int {
    if owner {
        -1
    } else {
        1
    }
}

pub fn piece_value(k: Kind) -> (v: i32)
    ensures
        v as int == spec_value(k),
{
    match k {
        Kind::Chick => 10,
        Kind::Elephant => 30,
        Kind::Giraffe => 50,
        Kind::Lion => 10000,
        Kind::Hen => 70,
    }
}

/// Signed material of the first `n` tokens.
pub open spec fn material_upto(s: Seq<Piece>, n: int) -> int
    decreases n,
{
    if n <= 0 {
        0
    } else {
        material_upto(s, n - 1) + sign(s[n - 1].owner) * spec_value(s[n - 1].kind)
    }
}

/// Mobility contribution of token `i` along its `j`-th offset: its side's
/// sign if the mirrored destination is in bounds and not held by its own
/// side, else nothing.
pub open spec fn mobility_at(s: Seq<Piece>, b: Seq<u8>, i: int, j: int) -> int {
    let p = s[i];
    let x = (p.position as int) % 3;
    let y = (p.position as int) / 3;
    let o = spec_offsets(p.kind)[j];
    let dx = if p.owner {
        o.0 as int
    } else {
        -(o.0 as int)
    };
    let dy = if p.owner {
        o.1 as int
    } else {
        -(o.1 as int)
    };
    let x2 = x + dx;
    let y2 = y + dy;
    if 0 <= x2 && x2 < 3 && 0 <= y2 && y2 < 4 {
        if b[3 * y2 + x2] != side_code(p.owner) {
            sign(p.owner)
        } else {
            0
        }
    } else {
        0
    }
}

/// Mobility of token `i` over its first `n` offsets.
pub open spec fn mobility_piece_upto(s: Seq<Piece>, b: Seq<u8>, i: int, n: int) -> int
    decreases n,
{
    if n <= 0 {
        0
    } else {
        mobility_piece_upto(s, b, i, n - 1) + mobility_at(s, b, i, n - 1)
    }
}

/// Mobility of the first `n` tokens that stand on the board.
pub open spec fn mobility_upto(s: Seq<Piece>, b: Seq<u8>, n: int) -> int
    decreases n,
{
    if n <= 0 {
        0
    } else {
        mobility_upto(s, b, n - 1) + if s[n - 1].position < 12 {
            mobility_piece_upto(s, b, n - 1, spec_offsets(s[n - 1].kind).len() as int)
        } else {
            0
        }
    }
}

/// Heuristic score of a leaf position: signed material plus signed mobility,
/// positive favoring the side with `owner == false`.
pub open spec fn spec_evaluate(s: Seq<Piece>) -> int {
    material_upto(s, 8) + mobility_upto(s, board_of(s), 8)
}

pub proof fn lemma_material_bounds(s: Seq<Piece>, n: int)
    requires
        0 <= n <= 8,
    ensures
        -10000 * n <= material_upto(s, n) <= 10000 * n,
    decreases n,
{
    if n > 0 {
        lemma_material_bounds(s, n - 1);
    }
}

pub proof fn lemma_mobility_piece_bounds(s: Seq<Piece>, b: Seq<u8>, i: int, n: int)
    requires
        0 <= n,
    ensures
        -n <= mobility_piece_upto(s, b, i, n) <= n,
    decreases n,
{
    if n > 0 {
        lemma_mobility_piece_bounds(s, b, i, n - 1);
    }
}

pub proof fn lemma_mobility_bounds(s: Seq<Piece>, b: Seq<u8>, n: int)
    requires
        0 <= n <= 8,
    ensures
        -8 * n <= mobility_upto(s, b, n) <= 8 * n,
    decreases n,
{
    if n > 0 {
        lemma_mobility_bounds(s, b, n - 1);
        if s[n - 1].position < 12 {
            lemma_mobility_piece_bounds(
                s,
                b,
                n - 1,
                spec_offsets(s[n - 1].kind).len() as int,
            );
        }
    }
}

/// The heuristic score of any position stays far inside `i32`.
pub proof fn lemma_eval_bounds(s: Seq<Piece>)
    ensures
        -80064 <= spec_evaluate(s) <= 80064,
{
    lemma_material_bounds(s, 8);
    lemma_mobility_bounds(s, board_of(s), 8);
}

/// Static evaluation of a leaf position: fixed per-kind material values
/// signed by owner, plus one point per reachable square not held by the
/// piece's own side.
pub fn evaluate_position(pieces: &Pieces) -> (r: i32)
    requires
        wf(pieces@),
    ensures
        r as int == spec_evaluate(pieces@),
{
    let mut result: i32 = 0;
    let b = board_array(pieces);
    proof {
        lemma_board_upto_len(pieces@, 8);
    }
    for i in 0..8
        invariant
            wf(pieces@),
            result as int == material_upto(pieces@, i as int),
            -10000 * (i as int) <= result as int <= 10000 * (i as int),
    {
        let v = piece_value(pieces[i].kind);
        if pieces[i].owner {
            result = result - v;
        } else {
            result = result + v;
        }
    }
    proof {
        lemma_material_bounds(pieces@, 8);
    }
    for i in 0..8
        invariant
            wf(pieces@),
            b@ == board_of(pieces@),
            b@.len() == 12,
            result as int == material_upto(pieces@, 8) + mobility_upto(pieces@, b@, i as int),
            -10000 * 8 <= material_upto(pieces@, 8) <= 10000 * 8,
    {
        proof {
            lemma_mobility_bounds(pieces@, b@, i as int);
        }
        let p = pieces[i];
        if p.position < 12 {
            let ocode: u8 = if p.owner {
                2
            } else {
                1
            };
            let x = (p.position % 3) as i8;
            let y = (p.position / 3) as i8;
            let n = offset_count(p.kind);
            for j in 0..n
                invariant
                    b@ == board_of(pieces@),
                    b@.len() == 12,
                    i < 8,
                    n == spec_offsets(p.kind).len(),
                    p == pieces@[i as int],
                    p.position < 12,
                    x == (p.position as int) % 3,
                    y == (p.position as int) / 3,
                    ocode == side_code(p.owner),
                    result as int == material_upto(pieces@, 8) + mobility_upto(
                        pieces@,
                        b@,
                        i as int,
                    ) + mobility_piece_upto(pieces@, b@, i as int, j as int),
                    -10000 * 8 <= material_upto(pieces@, 8) <= 10000 * 8,
                    -8 * (i as int) <= mobility_upto(pieces@, b@, i as int) <= 8 * (i as int),
            {
                proof {
                    lemma_mobility_piece_bounds(pieces@, b@, i as int, j as int);
                }
                let o = offset_at(p.kind, j);
                let (dx, dy): (i8, i8) = if p.owner {
                    (o.0, o.1)
                } else {
                    (-o.0, -o.1)
                };
                let x2 = x + dx;
                let y2 = y + dy;
                if x2 >= 0 && x2 < 3 && y2 >= 0 && y2 < 4 {
                    let index = (3 * y2 + x2) as usize;
                    if b[index] != ocode {
                        if p.owner {
                            result = result - 1;
                        } else {
                            result = result + 1;
                        }
                    }
                }
                assert(result as int == material_upto(pieces@, 8) + mobility_upto(
                    pieces@,
                    b@,
                    i as int,
                ) + mobility_piece_upto(pieces@, b@, i as int, j + 1));
            }
            assert(result as int == material_upto(pieces@, 8) + mobility_upto(
                pieces@,
                b@,
                i + 1,
            ));
        } else {
            assert(result as int == material_upto(pieces@, 8) + mobility_upto(
                pieces@,
                b@,
                i + 1,
            ));
        }
    }
    result
}

} // verus!
