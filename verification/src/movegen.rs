use vstd::prelude::*;
use crate::model::{Move, Piece, Pieces, pair, side_code, wf};
use crate::offsets::{spec_offsets, offset_count, offset_at, lemma_offsets_small};
use crate::board::{board_of, board_array, lemma_board_upto_len};

verus! {

broadcast use vstd::array::group_array_axioms;

/// A captured token may be dropped only if it is the canonical token of its
/// kind in hand: an original index below 4, or one whose paired token is not
/// simultaneously held by the same owner. This keeps the generator from
/// emitting two indistinguishable drops of the same kind.
pub open spec fn droppable(s: Seq<Piece>, i: int) -> bool {
    i < 4 || s[pair(i)].owner != s[i].owner || s[pair(i)].position < 12
}

/// Drops of token `i` onto the empty squares below `n`, in square order.
pub open spec fn drop_moves_upto(b: Seq<u8>, i: int, n: int) -> Seq<Move>
    decreases n,
{
    if n <= 0 {
        Seq::empty()
    } else {
        drop_moves_upto(b, i, n - 1) + if b[n - 1] == 0 {
            seq![Move { from: i as usize, to: (n - 1) as usize }]
        } else {
            Seq::empty()
        }
    }
}

/// The board move of token `i` along its `j`-th offset, if any: the offset is
/// mirrored for the non-default side, and the destination must be in bounds
/// and not held by the mover's own side.
pub open spec fn board_move_at(s: Seq<Piece>, b: Seq<u8>, turn: bool, i: int, j: int) -> Seq<Move> {
    let p = s[i];
    let x = (p.position as int) % 3;
    let y = (p.position as int) / 3;
    let o = spec_offsets(p.kind)[j];
    let dx = if turn {
        o.0 as int
    } else {
        -(o.0 as int)
    };
    let dy = if turn {
        o.1 as int
    } else {
        -(o.1 as int)
    };
    let x2 = x + dx;
    let y2 = y + dy;
    if 0 <= x2 && x2 < 3 && 0 <= y2 && y2 < 4 {
        let idx = 3 * y2 + x2;
        if b[idx] != side_code(p.owner) {
            seq![Move { from: i as usize, to: idx as usize }]
        } else {
            Seq::empty()
        }
    } else {
        Seq::empty()
    }
}

/// Board moves of token `i` along its first `n` offsets, in offset order.
pub open spec fn board_moves_upto(s: Seq<Piece>, b: Seq<u8>, turn: bool, i: int, n: int) -> Seq<
    Move,
>
    decreases n,
{
    if n <= 0 {
        Seq::empty()
    } else {
        board_moves_upto(s, b, turn, i, n - 1) + board_move_at(s, b, turn, i, n - 1)
    }
}

/// All moves the side to move gets from token `i`: nothing if the token is
/// not theirs, drops if it is in hand, board moves otherwise.
pub open spec fn piece_moves(s: Seq<Piece>, b: Seq<u8>, turn: bool, i: int) -> Seq<Move> {
    let p = s[i];
    if p.owner != turn {
        Seq::empty()
    } else if p.position == 12 {
        if droppable(s, i) {
            drop_moves_upto(b, i, 12)
        } else {
            Seq::empty()
        }
    } else {
        board_moves_upto(s, b, turn, i, spec_offsets(p.kind).len() as int)
    }
}

/// Moves of the first `n` tokens, concatenated in token order.
pub open spec fn moves_upto(s: Seq<Piece>, turn: bool, n: int) -> Seq<Move>
    decreases n,
{
    if n <= 0 {
        Seq::empty()
    } else {
        moves_upto(s, turn, n - 1) + piece_moves(s, board_of(s), turn, n - 1)
    }
}

/// Every legal move of the side to move, in token order and, per token, in
/// square or offset order.
pub open spec fn spec_moves(s: Seq<Piece>, turn: bool) -> Seq<Move> {
    moves_upto(s, turn, 8)
}

/// What membership in the generated move list guarantees: the mover belongs
/// to the side to move; a drop is canonical and lands on an empty square; a
/// board move lands inside the board, never on its own square, and never on a
/// square held by the mover's own side.
pub open spec fn move_ok(s: Seq<Piece>, turn: bool, m: Move) -> bool {
    &&& m.from < 8
    &&& m.to < 12
    &&& s[m.from as int].owner == turn
    &&& (s[m.from as int].position == 12 ==> droppable(s, m.from as int) && board_of(s)[m.to as int]
        == 0)
    &&& (s[m.from as int].position < 12 ==> board_of(s)[m.to as int] != side_code(turn)
        && m.to as int != s[m.from as int].position as int)
}

proof fn lemma_drop_moves_ok(b: Seq<u8>, i: int, n: int)
    requires
        b.len() == 12,
        0 <= i < 8,
        0 <= n <= 12,
    ensures
        forall|m: Move|
            #[trigger] drop_moves_upto(b, i, n).contains(m) ==> m.from == i && m.to < n
                && b[m.to as int] == 0,
    decreases n,
{
    if n > 0 {
        lemma_drop_moves_ok(b, i, n - 1);
        assert forall|m: Move| #[trigger] drop_moves_upto(b, i, n).contains(m) implies m.from == i
            && m.to < n && b[m.to as int] == 0 by {
            let l = drop_moves_upto(b, i, n);
            let k = choose|k: int| 0 <= k < l.len() && l[k] == m;
            if k < drop_moves_upto(b, i, n - 1).len() {
                assert(drop_moves_upto(b, i, n - 1).contains(m));
            } else {
                assert(b[n - 1] == 0 && m == (Move { from: i as usize, to: (n - 1) as usize }));
            }
        }
    }
}

proof fn lemma_board_moves_ok(s: Seq<Piece>, b: Seq<u8>, turn: bool, i: int, n: int)
    requires
        b.len() == 12,
        0 <= i < 8,
        s.len() == 8,
        s[i].position < 12,
        s[i].owner == turn,
        0 <= n <= spec_offsets(s[i].kind).len(),
    ensures
        forall|m: Move|
            #[trigger] board_moves_upto(s, b, turn, i, n).contains(m) ==> m.from == i && m.to < 12
                && b[m.to as int] != side_code(turn) && m.to as int != s[i].position as int,
    decreases n,
{
    if n > 0 {
        lemma_board_moves_ok(s, b, turn, i, n - 1);
        lemma_offsets_small(s[i].kind, n - 1);
        assert forall|m: Move| #[trigger] board_moves_upto(s, b, turn, i, n).contains(m) implies m.from
            == i && m.to < 12 && b[m.to as int] != side_code(turn) && m.to as int
            != s[i].position as int by {
            let l = board_moves_upto(s, b, turn, i, n);
            let k = choose|k: int| 0 <= k < l.len() && l[k] == m;
            if k < board_moves_upto(s, b, turn, i, n - 1).len() {
                assert(board_moves_upto(s, b, turn, i, n - 1).contains(m));
            } else {
                let p = s[i];
                let x = (p.position as int) % 3;
                let y = (p.position as int) / 3;
                let o = spec_offsets(p.kind)[n - 1];
                let dx = if turn {
                    o.0 as int
                } else {
                    -(o.0 as int)
                };
                let dy = if turn {
                    o.1 as int
                } else {
                    -(o.1 as int)
                };
                let x2 = x + dx;
                let y2 = y + dy;
                assert(0 <= x2 && x2 < 3 && 0 <= y2 && y2 < 4);
                let idx = 3 * y2 + x2;
                assert(m == (Move { from: i as usize, to: idx as usize }));
                assert(p.position as int == 3 * y + x);
                assert(!(dx == 0 && dy == 0));
                assert(idx != p.position as int);
            }
        }
    }
}

/// Every move the generator returns satisfies `move_ok`.
pub proof fn lemma_moves_ok(s: Seq<Piece>, turn: bool, n: int)
    requires
        wf(s),
        0 <= n <= 8,
    ensures
        forall|m: Move| #[trigger] moves_upto(s, turn, n).contains(m) ==> move_ok(s, turn, m),
    decreases n,
{
    if n > 0 {
        lemma_moves_ok(s, turn, n - 1);
        lemma_board_upto_len(s, 8);
        let b = board_of(s);
        let p = s[n - 1];
        if p.owner == turn && p.position == 12 && droppable(s, n - 1) {
            lemma_drop_moves_ok(b, n - 1, 12);
        }
        if p.owner == turn && p.position != 12 {
            lemma_board_moves_ok(s, b, turn, n - 1, spec_offsets(p.kind).len() as int);
        }
        assert forall|m: Move| #[trigger] moves_upto(s, turn, n).contains(m) implies move_ok(
            s,
            turn,
            m,
        ) by {
            let l = moves_upto(s, turn, n);
            let k = choose|k: int| 0 <= k < l.len() && l[k] == m;
            if k < moves_upto(s, turn, n - 1).len() {
                assert(moves_upto(s, turn, n - 1).contains(m));
            } else {
                assert(piece_moves(s, b, turn, n - 1).contains(m));
            }
        }
    }
}

/// Legal-move generation: all drops of canonical in-hand tokens onto empty
/// squares and all in-bounds board moves not blocked by the mover's own side,
/// in a fixed deterministic order.
pub fn possible_moves(pieces: &Pieces, turn: bool) -> (r: Vec<Move>)
    requires
        wf(pieces@),
    ensures
        r@ == spec_moves(pieces@, turn),
        forall|m: Move| #[trigger] r@.contains(m) ==> move_ok(pieces@, turn, m),
{
    let mut result: Vec<Move> = Vec::new();
    let b = board_array(pieces);
    proof {
        lemma_board_upto_len(pieces@, 8);
    }
    for i in 0..8
        invariant
            wf(pieces@),
            b@ == board_of(pieces@),
            b@.len() == 12,
            result@ == moves_upto(pieces@, turn, i as int),
    {
        let p = pieces[i];
        if p.owner != turn {
            assert(result@ =~= moves_upto(pieces@, turn, i + 1));
        } else if p.position == 12 {
            if i < 4 || pieces[i - 4].owner != p.owner || pieces[i - 4].position < 12 {
                assert(droppable(pieces@, i as int));
                for j in 0..12
                    invariant
                        b@ == board_of(pieces@),
                        b@.len() == 12,
                        i < 8,
                        result@ == moves_upto(pieces@, turn, i as int) + drop_moves_upto(
                            b@,
                            i as int,
                            j as int,
                        ),
                {
                    if b[j] == 0 {
                        result.push(Move { from: i, to: j });
                    }
                    assert(result@ =~= moves_upto(pieces@, turn, i as int) + drop_moves_upto(
                        b@,
                        i as int,
                        j + 1,
                    ));
                }
                assert(result@ =~= moves_upto(pieces@, turn, i + 1));
            } else {
                assert(!droppable(pieces@, i as int));
                assert(result@ =~= moves_upto(pieces@, turn, i + 1));
            }
        } else {
            let x = (p.position % 3) as i8;
            let y = (p.position / 3) as i8;
            let ocode: u8 = if p.owner {
                2
            } else {
                1
            };
            let n = offset_count(p.kind);
            for j in 0..n
        invariant
                    b@ == board_of(pieces@),
                    b@.len() == 12,
                    i < 8,
                    n == spec_offsets(p.kind).len(),
                    p == pieces@[i as int],
                    p.position < 12,
                    p.owner == turn,
                    x == (p.position as int) % 3,
                    y == (p.position as int) / 3,
                    ocode == side_code(p.owner),
                    result@ == moves_upto(pieces@, turn, i as int) + board_moves_upto(
                        pieces@,
                        b@,
                        turn,
                        i as int,
                        j as int,
                    ),
            {
                let o = offset_at(p.kind, j);
                let (dx, dy): (i8, i8) = if turn {
                    (o.0, o.1)
                } else {
                    (-o.0, -o.1)
                };
                let x2 = x + dx;
                let y2 = y + dy;
                if x2 >= 0 && x2 < 3 && y2 >= 0 && y2 < 4 {
                    let index = (3 * y2 + x2) as usize;
                    if b[index] != ocode {
                        result.push(Move { from: i, to: index });
                    }
                }
                assert(result@ =~= moves_upto(pieces@, turn, i as int) + board_moves_upto(
                    pieces@,
                    b@,
                    turn,
                    i as int,
                    j + 1,
                ));
            }
            assert(result@ =~= moves_upto(pieces@, turn, i + 1));
        }
    }
    proof {
        lemma_moves_ok(pieces@, turn, 8);
    }
    result
}

} // verus!
