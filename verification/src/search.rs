use vstd::prelude::*;
use std::collections::HashMap;
use crate::model::{Move, Piece, Pieces, wf};
use crate::movegen::{spec_moves, possible_moves, move_ok};
use crate::apply::{spec_play, play_move, lemma_play_preserves_wf};
use crate::eval::{spec_evaluate, evaluate_position, lemma_eval_bounds};
use crate::encode::{spec_encode, encode_pieces};

verus! {

broadcast use vstd::std_specs::hash::group_hash_axioms, vstd::array::group_array_axioms;

/// Bound kind of a transposition entry: an exact score, a lower bound from a
/// fail-high, or an upper bound from a fail-low.
#[derive(PartialEq, Eq, Structural, Clone, Copy, Debug)]
pub enum Flag {
    Exact,
    Alpha,
    Beta,
}

/// The transposition table of one root search: encoded position to the depth
/// it was searched at, its score, and the bound kind.
pub type Table = HashMap<u64, (u8, i32, Flag)>;

/// The mathematical content of a transposition table.
pub type TableModel = Map<u64, (u8, i32, Flag)>;

/// Score of a game already decided for `winner`, at `depth` remaining plies:
/// the base extreme pushed further out the more depth remains, so that a win
/// found nearer the root outranks a deeper one. The side with
/// `owner == false` maximizes, so it wins positively.
pub open spec fn mate_score(winner: bool, depth: u8) -> int {
    if winner {
        -100000 - depth as int
    } else {
        100000 + depth as int
    }
}

pub fn mate_value(winner: bool, depth: u8) -> (r: i32)
    ensures
        r as int == mate_score(winner, depth),
{
    if winner {
        -100000 - (depth as i32)
    } else {
        100000 + (depth as i32)
    }
}

/// The royal token of a side.
pub open spec fn royal_of(s: Seq<Piece>, side: bool) -> Piece {
    if side {
        s[5]
    } else {
        s[1]
    }
}

/// Whether a piece of `side` stands in the opponent's farthest rank band.
pub open spec fn in_try_zone(p: Piece, side: bool) -> bool {
    if side {
        p.position > 8 && p.position < 12
    } else {
        p.position < 3
    }
}

/// Terminal test of a node, in order: the side to move has lost its royal
/// token, the opponent has lost theirs, the side to move's royal token has
/// achieved the try, the opponent's has. The score names the winner.
pub open spec fn spec_terminal(s: Seq<Piece>, turn: bool, depth: u8) -> Option<int> {
    let mine = royal_of(s, turn);
    let theirs = royal_of(s, !turn);
    if mine.position == 12 {
        Some(mate_score(!turn, depth))
    } else if theirs.position == 12 {
        Some(mate_score(turn, depth))
    } else if in_try_zone(mine, turn) {
        Some(mate_score(turn, depth))
    } else if in_try_zone(theirs, !turn) {
        Some(mate_score(!turn, depth))
    } else {
        None
    }
}

pub open spec fn max_i32(x: i32, y: i32) -> i32 {
    if x >= y {
        x
    } else {
        y
    }
}

pub open spec fn min_i32(x: i32, y: i32) -> i32 {
    if x <= y {
        x
    } else {
        y
    }
}

/// The maximizing node's move loop, from move `k` on: fail-soft best score,
/// the running alpha, and the table threaded through the children; it stops
/// as soon as alpha meets beta.
pub open spec fn spec_max_loop(
    t: TableModel,
    depth: u8,
    s: Seq<Piece>,
    moves: Seq<Move>,
    k: int,
    best: i32,
    alpha: i32,
    beta: i32,
) -> (i32, i32, TableModel)
    decreases depth, 0int, moves.len() - k,
{
    if k < 0 || k >= moves.len() || depth == 0 {
        (best, alpha, t)
    } else {
        let c = spec_ab(t, (depth - 1) as u8, true, alpha, beta, spec_play(s, moves[k]));
        let best2 = max_i32(best, c.0);
        let alpha2 = max_i32(alpha, c.0);
        if alpha2 >= beta {
            (best2, alpha2, c.1)
        } else {
            spec_max_loop(c.1, depth, s, moves, k + 1, best2, alpha2, beta)
        }
    }
}

/// The minimizing node's move loop, symmetric to `spec_max_loop`.
pub open spec fn spec_min_loop(
    t: TableModel,
    depth: u8,
    s: Seq<Piece>,
    moves: Seq<Move>,
    k: int,
    best: i32,
    alpha: i32,
    beta: i32,
) -> (i32, i32, TableModel)
    decreases depth, 0int, moves.len() - k,
{
    if k < 0 || k >= moves.len() || depth == 0 {
        (best, beta, t)
    } else {
        let c = spec_ab(t, (depth - 1) as u8, false, alpha, beta, spec_play(s, moves[k]));
        let best2 = min_i32(best, c.0);
        let beta2 = min_i32(beta, c.0);
        if alpha >= beta2 {
            (best2, beta2, c.1)
        } else {
            spec_min_loop(c.1, depth, s, moves, k + 1, best2, alpha, beta2)
        }
    }
}

/// One alpha-beta node: consult the table (an exact entry at the same depth
/// answers at once, bound entries tighten the window, an inverted window
/// returns the stored score), then the terminal tests, then the depth-zero
/// leaf evaluation, and otherwise the move loop of the side to move, whose
/// result is classified against the original window and stored.
pub open spec fn spec_ab(
    t: TableModel,
    depth: u8,
    turn: bool,
    alpha: i32,
    beta: i32,
    s: Seq<Piece>,
) -> (i32, TableModel)
    decreases depth, 1int, 0int,
{
    let key = spec_encode(s, turn);
    if t.contains_key(key) && t[key].0 == depth && t[key].2 == Flag::Exact {
        (t[key].1, t)
    } else {
        let alpha1 = if t.contains_key(key) && t[key].0 == depth && t[key].2 == Flag::Alpha {
            max_i32(alpha, t[key].1)
        } else {
            alpha
        };
        let beta1 = if t.contains_key(key) && t[key].0 == depth && t[key].2 == Flag::Beta {
            min_i32(beta, t[key].1)
        } else {
            beta
        };
        if t.contains_key(key) && alpha1 >= beta1 {
            (t[key].1, t)
        } else {
            match spec_terminal(s, turn, depth) {
                Some(sc) => (sc as i32, t),
                None => {
                    if depth == 0 {
                        (spec_evaluate(s) as i32, t)
                    } else {
                        let moves = spec_moves(s, turn);
                        if !turn {
                            let r = spec_max_loop(t, depth, s, moves, 0, i32::MIN, alpha1, beta1);
                            let flag = if r.0 <= alpha {
                                Flag::Beta
                            } else if r.0 >= beta1 {
                                Flag::Alpha
                            } else {
                                Flag::Exact
                            };
                            (r.1, r.2.insert(key, (depth, r.0, flag)))
                        } else {
                            let r = spec_min_loop(t, depth, s, moves, 0, i32::MAX, alpha1, beta1);
                            let flag = if r.0 >= beta {
                                Flag::Alpha
                            } else if r.0 <= alpha1 {
                                Flag::Beta
                            } else {
                                Flag::Exact
                            };
                            (r.1, r.2.insert(key, (depth, r.0, flag)))
                        }
                    }
                },
            }
        }
    }
}

/// The move loop of a full-width minimax node, from move `k` on.
pub open spec fn spec_mm_loop(
    depth: u8,
    turn: bool,
    s: Seq<Piece>,
    moves: Seq<Move>,
    k: int,
    best: int,
) -> int
    decreases depth, 0int, moves.len() - k,
{
    if k < 0 || k >= moves.len() || depth == 0 {
        best
    } else {
        let c = spec_minimax((depth - 1) as u8, !turn, spec_play(s, moves[k]));
        let best2 = if !turn {
            if c > best {
                c
            } else {
                best
            }
        } else {
            if c < best {
                c
            } else {
                best
            }
        };
        spec_mm_loop(depth, turn, s, moves, k + 1, best2)
    }
}

/// Full-width minimax value of a node: the same terminal tests, leaf
/// evaluation and side convention as the alpha-beta engine, but no pruning
/// and no table. This is the reference the pruned search is compared to.
pub open spec fn spec_minimax(depth: u8, turn: bool, s: Seq<Piece>) -> int
    decreases depth, 1int, 0int,
{
    match spec_terminal(s, turn, depth) {
        Some(sc) => sc,
        None => {
            if depth == 0 {
                spec_evaluate(s)
            } else {
                spec_mm_loop(
                    depth,
                    turn,
                    s,
                    spec_moves(s, turn),
                    0,
                    if !turn {
                        i32::MIN as int
                    } else {
                        i32::MAX as int
                    },
                )
            }
        },
    }
}

/// Unpruned full-width minimax over the same game tree, the executable
/// reference for checking the pruned engine's scores.
pub fn minimax(depth: u8, turn: bool, pieces: Pieces) -> (r: i32)
    requires
        wf(pieces@),
    ensures
        r as int == spec_minimax(depth, turn, pieces@),
    decreases depth,
{
    let mine = if turn {
        pieces[5]
    } else {
        pieces[1]
    };
    let theirs = if turn {
        pieces[1]
    } else {
        pieces[5]
    };
    proof {
        assert(mine == royal_of(pieces@, turn));
        assert(theirs == royal_of(pieces@, !turn));
    }
    if mine.position == 12 {
        return mate_value(!turn, depth);
    }
    if theirs.position == 12 {
        return mate_value(turn, depth);
    }
    let mine_try = if turn {
        mine.position > 8 && mine.position < 12
    } else {
        mine.position < 3
    };
    if mine_try {
        return mate_value(turn, depth);
    }
    let theirs_try = if !turn {
        theirs.position > 8 && theirs.position < 12
    } else {
        theirs.position < 3
    };
    if theirs_try {
        return mate_value(!turn, depth);
    }
    if depth == 0 {
        return evaluate_position(&pieces);
    }
    let mvs = possible_moves(&pieces, turn);
    let mut best: i32 = if !turn {
        i32::MIN
    } else {
        i32::MAX
    };
    let ghost fin = spec_mm_loop(depth, turn, pieces@, mvs@, 0, best as int);
    let mut k: usize = 0;
    while k < mvs.len()
        invariant
            wf(pieces@),
            depth >= 1,
            mvs@ == spec_moves(pieces@, turn),
            forall|m: Move| #[trigger] mvs@.contains(m) ==> move_ok(pieces@, turn, m),
            k <= mvs@.len(),
            fin == spec_mm_loop(depth, turn, pieces@, mvs@, k as int, best as int),
        decreases mvs@.len() - k,
    {
        let m = mvs[k];
        proof {
            assert(mvs@.contains(m)) by {
                assert(mvs@[k as int] == m);
            }
            lemma_play_preserves_wf(pieces@, turn, m);
        }
        let new_pieces = play_move(&pieces, m);
        let c = minimax(depth - 1, !turn, new_pieces);
        if !turn {
            if c > best {
                best = c;
            }
        } else {
            if c < best {
                best = c;
            }
        }
        k += 1;
    }
    best
}

/// Mate-distance monotonicity: a win found with more depth remaining (nearer
/// the root) scores strictly higher in magnitude than one found deeper, for
/// either winner, and mate scores never lose their sign.
pub proof fn lemma_mate_distance(winner: bool, d1: u8, d2: u8)
    requires
        d1 > d2,
    ensures
        winner ==> mate_score(winner, d1) < mate_score(winner, d2) < 0,
        !winner ==> mate_score(winner, d1) > mate_score(winner, d2) > 0,
{
}

/// The try rule is an immediate terminal: with both royal tokens on the
/// board and the side to move's royal token already in the opponent's
/// farthest rank band, the engine returns that side's extreme score at every
/// depth, for every window, and touches no table entry — no moves are
/// searched.
pub proof fn lemma_try_rule_terminal(depth: u8, turn: bool, alpha: i32, beta: i32, s: Seq<Piece>)
    requires
        royal_of(s, turn).position != 12,
        royal_of(s, !turn).position != 12,
        in_try_zone(royal_of(s, turn), turn),
    ensures
        spec_ab(Map::empty(), depth, turn, alpha, beta, s).0 as int == mate_score(turn, depth),
        spec_ab(Map::empty(), depth, turn, alpha, beta, s).1 == Map::<u64, (u8, i32, Flag)>::empty(),
        spec_minimax(depth, turn, s) == mate_score(turn, depth),
{
    assert(!Map::<u64, (u8, i32, Flag)>::empty().contains_key(spec_encode(s, turn)));
}

/// A lost royal token is an immediate terminal: with a fresh table, a side
/// whose royal token is captured is declared the loser at every depth and
/// for every window, whichever side moves — no moves are searched.
pub proof fn lemma_captured_royal_terminal(
    depth: u8,
    turn: bool,
    alpha: i32,
    beta: i32,
    s: Seq<Piece>,
    loser: bool,
)
    requires
        royal_of(s, loser).position == 12,
        royal_of(s, !loser).position != 12,
    ensures
        spec_ab(Map::empty(), depth, turn, alpha, beta, s).0 as int == mate_score(!loser, depth),
        spec_minimax(depth, turn, s) == mate_score(!loser, depth),
{
    assert(!Map::<u64, (u8, i32, Flag)>::empty().contains_key(spec_encode(s, turn)));
}

/// Depth-limited alpha-beta search with transposition memoization. The result
/// and the table afterwards are exactly `spec_ab` of the inputs: the search
/// is a pure function of the position, the window, the depth, the side to
/// move and the table handed in.
#[verifier::rlimit(100)]
pub fn alphabeta(
    table: &mut Table,
    depth: u8,
    turn: bool,
    alpha: i32,
    beta: i32,
    pieces: Pieces,
) -> (r: i32)
    requires
        wf(pieces@),
    ensures
        r == spec_ab(old(table)@, depth, turn, alpha, beta, pieces@).0,
        final(table)@ == spec_ab(old(table)@, depth, turn, alpha, beta, pieces@).1,
    decreases depth,
{
    let ghost t0 = table@;
    let ghost res = spec_ab(t0, depth, turn, alpha, beta, pieces@);
    let encoding = encode_pieces(&pieces, turn);
    let alpha_orig = alpha;
    let mut a = alpha;
    let mut b = beta;
    match table.get(&encoding) {
        Some(e) => {
            let (d2, score, flag) = *e;
            proof {
                assert(t0.contains_key(encoding) && t0[encoding] == (d2, score, flag));
            }
            if d2 == depth {
                match flag {
                    Flag::Exact => {
                        proof {
                            assert(res == (score, t0));
                        }
                        return score;
                    },
                    Flag::Alpha => {
                        if score > a {
                            a = score;
                        }
                    },
                    Flag::Beta => {
                        if score < b {
                            b = score;
                        }
                    },
                }
            }
            if a >= b {
                proof {
                    assert(res == (score, t0));
                }
                return score;
            }
        },
        None => {
            proof {
                assert(!t0.contains_key(encoding));
            }
        },
    }
    let mine = if turn {
        pieces[5]
    } else {
        pieces[1]
    };
    let theirs = if turn {
        pieces[1]
    } else {
        pieces[5]
    };
    proof {
        assert(mine == royal_of(pieces@, turn));
        assert(theirs == royal_of(pieces@, !turn));
    }
    if mine.position == 12 {
        let sc = mate_value(!turn, depth);
        proof {
            assert(sc == res.0);
        }
        return sc;
    }
    if theirs.position == 12 {
        let sc = mate_value(turn, depth);
        proof {
            assert(sc == res.0);
        }
        return sc;
    }
    let mine_try = if turn {
        mine.position > 8 && mine.position < 12
    } else {
        mine.position < 3
    };
    if mine_try {
        let sc = mate_value(turn, depth);
        proof {
            assert(sc == res.0);
        }
        return sc;
    }
    let theirs_try = if !turn {
        theirs.position > 8 && theirs.position < 12
    } else {
        theirs.position < 3
    };
    if theirs_try {
        let sc = mate_value(!turn, depth);
        proof {
            assert(sc == res.0);
        }
        return sc;
    }
    if depth == 0 {
        let sc = evaluate_position(&pieces);
        proof {
            lemma_eval_bounds(pieces@);
            assert(sc == res.0);
        }
        return sc;
    }
    let mvs = possible_moves(&pieces, turn);
    if !turn {
        let mut best_score = i32::MIN;
        let ghost fin = spec_max_loop(t0, depth, pieces@, mvs@, 0, i32::MIN, a, b);
        let mut k: usize = 0;
        let mut cut = false;
        while k < mvs.len() && !cut
            invariant
                wf(pieces@),
                depth >= 1,
                !turn,
                mvs@ == spec_moves(pieces@, turn),
                forall|m: Move| #[trigger] mvs@.contains(m) ==> move_ok(pieces@, turn, m),
                k <= mvs@.len(),
                cut ==> fin == (best_score, a, table@),
                !cut ==> fin == spec_max_loop(table@, depth, pieces@, mvs@, k as int, best_score, a, b),
            decreases mvs@.len() - k, (if cut { 0int } else { 1int }),
        {
            let m = mvs[k];
            proof {
                assert(mvs@.contains(m)) by {
                    assert(mvs@[k as int] == m);
                }
                lemma_play_preserves_wf(pieces@, turn, m);
            }
            let new_pieces = play_move(&pieces, m);
            let score = alphabeta(table, depth - 1, true, a, b, new_pieces);
            if score > best_score {
                best_score = score;
            }
            if score > a {
                a = score;
            }
            if a >= b {
                cut = true;
            } else {
                k += 1;
            }
        }
        proof {
            assert(fin == (best_score, a, table@));
        }
        let flag = if best_score <= alpha_orig {
            Flag::Beta
        } else if best_score >= b {
            Flag::Alpha
        } else {
            Flag::Exact
        };
        table.insert(encoding, (depth, best_score, flag));
        proof {
            assert(a == res.0);
            assert(table@ == res.1);
        }
        a
    } else {
        let mut best_score = i32::MAX;
        let ghost fin = spec_min_loop(t0, depth, pieces@, mvs@, 0, i32::MAX, a, b);
        let mut k: usize = 0;
        let mut cut = false;
        while k < mvs.len() && !cut
            invariant
                wf(pieces@),
                depth >= 1,
                turn,
                mvs@ == spec_moves(pieces@, turn),
                forall|m: Move| #[trigger] mvs@.contains(m) ==> move_ok(pieces@, turn, m),
                k <= mvs@.len(),
                cut ==> fin == (best_score, b, table@),
                !cut ==> fin == spec_min_loop(table@, depth, pieces@, mvs@, k as int, best_score, a, b),
            decreases mvs@.len() - k, (if cut { 0int } else { 1int }),
        {
            let m = mvs[k];
            proof {
                assert(mvs@.contains(m)) by {
                    assert(mvs@[k as int] == m);
                }
                lemma_play_preserves_wf(pieces@, turn, m);
            }
            let new_pieces = play_move(&pieces, m);
            let score = alphabeta(table, depth - 1, false, a, b, new_pieces);
            if score < best_score {
                best_score = score;
            }
            if score < b {
                b = score;
            }
            if a >= b {
                cut = true;
            } else {
                k += 1;
            }
        }
        proof {
            assert(fin == (best_score, b, table@));
        }
        let flag = if best_score >= beta {
            Flag::Alpha
        } else if best_score <= a {
            Flag::Beta
        } else {
            Flag::Exact
        };
        table.insert(encoding, (depth, best_score, flag));
        proof {
            assert(b == res.0);
            assert(table@ == res.1);
        }
        b
    }
}

} // verus!
