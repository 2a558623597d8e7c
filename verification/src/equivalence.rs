use vstd::prelude::*;
use crate::model::{Kind, Move, Piece, wf};
use crate::movegen::{spec_moves, move_ok, lemma_moves_ok};
use crate::apply::{spec_play, lemma_play_preserves_wf, lemma_play_preserves_kinds};
use crate::encode::{spec_encode, lemma_encode_injective};
use crate::eval::{spec_evaluate, lemma_eval_bounds};
use crate::search::{
    Flag, TableModel, spec_ab, spec_max_loop, spec_min_loop, spec_minimax, spec_mm_loop,
    spec_terminal, max_i32, min_i32,
};
use crate::root::{root_scan, novel_list, spec_root_novel, lemma_novel_list_members};

verus! {

/// A root position whose tokens outside the two pawn-like slots are neither
/// pawn-like nor promoted: then those kinds can never change during play,
/// and the encoder's two promotion bits capture all kind state.
pub open spec fn kind_disciplined(s0: Seq<Piece>) -> bool {
    forall|i: int|
        0 <= i < 8 && i != 3 && i != 7 ==> (#[trigger] s0[i]).kind != Kind::Chick && s0[i].kind
            != Kind::Hen
}

/// The positions one game can reach from a disciplined root: well formed,
/// kinds outside the pawn-like slots as in the root, and the pawn-like slots
/// somewhere in their pawn-like/promoted cycle.
pub open spec fn same_family(s0: Seq<Piece>, s: Seq<Piece>) -> bool {
    &&& wf(s)
    &&& (forall|i: int| 0 <= i < 8 && i != 3 && i != 7 ==> (#[trigger] s[i]).kind == s0[i].kind)
    &&& (s[3].kind == Kind::Chick || s[3].kind == Kind::Hen)
    &&& (s[7].kind == Kind::Chick || s[7].kind == Kind::Hen)
}

/// Playing any generated move stays in the family.
pub proof fn lemma_family_step(s0: Seq<Piece>, s: Seq<Piece>, turn: bool, m: Move)
    requires
        kind_disciplined(s0),
        same_family(s0, s),
        spec_moves(s, turn).contains(m),
    ensures
        same_family(s0, spec_play(s, m)),
{
    lemma_moves_ok(s, turn, 8);
    assert(move_ok(s, turn, m));
    lemma_play_preserves_wf(s, turn, m);
    lemma_play_preserves_kinds(s, m);
}

/// What a stored entry certifies about the minimax value of the position it
/// keys, read at the entry's own depth: an exact value, a lower bound from a
/// fail-high, or an upper bound from a fail-low.
pub open spec fn entry_ok(e: (u8, i32, Flag), mm: int) -> bool {
    match e.2 {
        Flag::Exact => mm == e.1 as int,
        Flag::Alpha => mm >= e.1 as int,
        Flag::Beta => mm <= e.1 as int,
    }
}

/// A table is sound for a game when every entry certifies the minimax value
/// of every family position that encodes to its key.
pub open spec fn table_ok(t: TableModel, s0: Seq<Piece>) -> bool {
    forall|s: Seq<Piece>, turn: bool|
        (same_family(s0, s) && t.contains_key(#[trigger] spec_encode(s, turn)))
            ==> entry_ok(
            t[spec_encode(s, turn)],
            spec_minimax(t[spec_encode(s, turn)].0, turn, s),
        )
}

/// Fail-soft correctness of a score against a window: below alpha it is an
/// upper bound, above beta a lower bound, and strictly inside the window it
/// is the exact value.
pub open spec fn result_ok(r: int, mm: int, alpha: int, beta: int) -> bool {
    &&& (r <= alpha ==> mm <= r)
    &&& (r >= beta ==> mm >= r)
    &&& (alpha < r < beta ==> mm == r)
}

proof fn lemma_mm_loop_bounds(depth: u8, turn: bool, s: Seq<Piece>, moves: Seq<Move>, k: int, best: int)
    requires
        i32::MIN <= best <= i32::MAX,
    ensures
        i32::MIN <= spec_mm_loop(depth, turn, s, moves, k, best) <= i32::MAX,
    decreases depth, 0int, moves.len() - k,
{
    if !(k < 0 || k >= moves.len() || depth == 0) {
        lemma_mm_bounds((depth - 1) as u8, !turn, spec_play(s, moves[k]));
        let c = spec_minimax((depth - 1) as u8, !turn, spec_play(s, moves[k]));
        let best2 = if !turn {
            if c > best {
                c
            } else {
                best
            }
        } else {
            if c < best {
                c
            } else {
                best
            }
        };
        lemma_mm_loop_bounds(depth, turn, s, moves, k + 1, best2);
    }
}

/// Every minimax value fits the score type.
pub proof fn lemma_mm_bounds(depth: u8, turn: bool, s: Seq<Piece>)
    ensures
        i32::MIN <= spec_minimax(depth, turn, s) <= i32::MAX,
    decreases depth, 1int, 0int,
{
    match spec_terminal(s, turn, depth) {
        Some(_) => {},
        None => {
            if depth == 0 {
                lemma_eval_bounds(s);
            } else {
                let init: int = if !turn {
                    i32::MIN as int
                } else {
                    i32::MAX as int
                };
                lemma_mm_loop_bounds(depth, turn, s, spec_moves(s, turn), 0, init);
            }
        },
    }
}

/// The maximizing accumulator never loses ground, the minimizing one never
/// gains any.
proof fn lemma_mm_loop_acc(depth: u8, turn: bool, s: Seq<Piece>, moves: Seq<Move>, k: int, best: int)
    ensures
        !turn ==> spec_mm_loop(depth, turn, s, moves, k, best) >= best,
        turn ==> spec_mm_loop(depth, turn, s, moves, k, best) <= best,
    decreases depth, 0int, moves.len() - k,
{
    if !(k < 0 || k >= moves.len() || depth == 0) {
        let c = spec_minimax((depth - 1) as u8, !turn, spec_play(s, moves[k]));
        let best2 = if !turn {
            if c > best {
                c
            } else {
                best
            }
        } else {
            if c < best {
                c
            } else {
                best
            }
        };
        lemma_mm_loop_acc(depth, turn, s, moves, k + 1, best2);
    }
}

/// Storing a sound entry keeps the table sound: the key can only be read
/// back for this very position and side, by collision-freedom.
proof fn lemma_table_insert(
    t: TableModel,
    s0: Seq<Piece>,
    s: Seq<Piece>,
    turn: bool,
    e: (u8, i32, Flag),
)
    requires
        kind_disciplined(s0),
        same_family(s0, s),
        table_ok(t, s0),
        entry_ok(e, spec_minimax(e.0, turn, s)),
    ensures
        table_ok(t.insert(spec_encode(s, turn), e), s0),
{
    let key = spec_encode(s, turn);
    let t2 = t.insert(key, e);
    assert forall|s2: Seq<Piece>, turn2: bool|
        (same_family(s0, s2) && t2.contains_key(#[trigger] spec_encode(s2, turn2))) implies entry_ok(
        t2[spec_encode(s2, turn2)],
        spec_minimax(t2[spec_encode(s2, turn2)].0, turn2, s2),
    ) by {
        let key2 = spec_encode(s2, turn2);
        if key2 == key {
            lemma_encode_injective(s2, turn2, s, turn);
            assert(s2 == s && turn2 == turn);
            assert(t2[key2] == e);
        } else {
            assert(t2[key2] == t[key2] && t.contains_key(key2));
            assert(entry_ok(t[key2], spec_minimax(t[key2].0, turn2, s2)));
        }
    }
}

/// Soundness of the maximizing node's move loop: the fail-soft best is
/// bound-correct against the window base `alpha0` and `beta`, the returned
/// alpha is the base joined with the best, and the table stays sound. The
/// ghost `p` carries the exact maximum of the minimax values already folded
/// into `best`.
#[verifier::rlimit(100)]
proof fn lemma_max_loop_sound(
    t: TableModel,
    depth: u8,
    s: Seq<Piece>,
    moves: Seq<Move>,
    k: int,
    best: i32,
    alpha: i32,
    beta: i32,
    s0: Seq<Piece>,
    alpha0: i32,
    p: int,
)
    requires
        kind_disciplined(s0),
        same_family(s0, s),
        table_ok(t, s0),
        depth >= 1,
        moves == spec_moves(s, false),
        0 <= k,
        alpha0 as int <= alpha as int,
        (alpha as int) < beta as int,
        alpha == max_i32(alpha0, best),
        p <= best as int,
        best as int > alpha0 as int ==> p == best as int,
        i32::MIN as int <= p,
    ensures
        ({
            let r = spec_max_loop(t, depth, s, moves, k, best, alpha, beta);
            let v = spec_mm_loop(depth, false, s, moves, k, p);
            &&& table_ok(r.2, s0)
            &&& (r.0 as int <= alpha0 as int ==> v <= r.0 as int)
            &&& (r.0 as int >= beta as int ==> v >= r.0 as int)
            &&& ((alpha0 as int) < r.0 as int && (r.0 as int) < beta as int ==> v == r.0 as int)
            &&& r.1 == max_i32(alpha0, r.0)
            &&& r.0 as int >= best as int
        }),
    decreases depth, 0int, moves.len() - k,
{
    let r = spec_max_loop(t, depth, s, moves, k, best, alpha, beta);
    let v = spec_mm_loop(depth, false, s, moves, k, p);
    if k >= moves.len() {
        assert(r == (best, alpha, t));
        assert(v == p);
    } else {
        let m = moves[k];
        assert(moves.contains(m)) by {
            assert(moves[k] == m);
        }
        lemma_family_step(s0, s, false, m);
        let sp = spec_play(s, m);
        let mmc = spec_minimax((depth - 1) as u8, true, sp);
        lemma_mm_bounds((depth - 1) as u8, true, sp);
        lemma_ab_sound(t, (depth - 1) as u8, true, alpha, beta, sp, s0);
        let c = spec_ab(t, (depth - 1) as u8, true, alpha, beta, sp);
        let score = c.0;
        assert(result_ok(score as int, mmc, alpha as int, beta as int));
        let best2 = max_i32(best, score);
        let alpha2 = max_i32(alpha, score);
        let p2: int = if mmc > p {
            mmc
        } else {
            p
        };
        assert(v == spec_mm_loop(depth, false, s, moves, k + 1, p2));
        if alpha2 as int >= beta as int {
            // a fail-high cutoff: the child score is at or above beta
            assert(score as int >= beta as int);
            assert(mmc >= score as int);
            assert(best2 == score);
            lemma_mm_loop_acc(depth, false, s, moves, k + 1, p2);
            assert(v >= p2);
            assert(v >= mmc);
        } else {
            assert((score as int) < beta as int);
            assert(mmc <= score as int);
            assert(p2 <= best2 as int);
            if best2 as int > alpha0 as int {
                if best2 == best {
                    assert(p2 == best2 as int);
                } else {
                    assert(best2 == score && score as int > best as int);
                    assert(score as int > alpha as int);
                    assert(mmc == score as int);
                    assert(p2 == best2 as int);
                }
            }
            lemma_max_loop_sound(c.1, depth, s, moves, k + 1, best2, alpha2, beta, s0, alpha0, p2);
        }
    }
}

/// Soundness of the minimizing node's move loop, symmetric to the
/// maximizing one: `p` carries the exact minimum folded so far.
#[verifier::rlimit(100)]
proof fn lemma_min_loop_sound(
    t: TableModel,
    depth: u8,
    s: Seq<Piece>,
    moves: Seq<Move>,
    k: int,
    best: i32,
    alpha: i32,
    beta: i32,
    s0: Seq<Piece>,
    beta0: i32,
    p: int,
)
    requires
        kind_disciplined(s0),
        same_family(s0, s),
        table_ok(t, s0),
        depth >= 1,
        moves == spec_moves(s, true),
        0 <= k,
        beta as int <= beta0 as int,
        (alpha as int) < beta as int,
        beta == min_i32(beta0, best),
        p >= best as int,
        (best as int) < beta0 as int ==> p == best as int,
        p <= i32::MAX as int,
    ensures
        ({
            let r = spec_min_loop(t, depth, s, moves, k, best, alpha, beta);
            let v = spec_mm_loop(depth, true, s, moves, k, p);
            &&& table_ok(r.2, s0)
            &&& (r.0 as int >= beta0 as int ==> v >= r.0 as int)
            &&& (r.0 as int <= alpha as int ==> v <= r.0 as int)
            &&& ((alpha as int) < r.0 as int && (r.0 as int) < beta0 as int ==> v == r.0 as int)
            &&& r.1 == min_i32(beta0, r.0)
            &&& r.0 as int <= best as int
        }),
    decreases depth, 0int, moves.len() - k,
{
    let r = spec_min_loop(t, depth, s, moves, k, best, alpha, beta);
    let v = spec_mm_loop(depth, true, s, moves, k, p);
    if k >= moves.len() {
        assert(r == (best, beta, t));
        assert(v == p);
    } else {
        let m = moves[k];
        assert(moves.contains(m)) by {
            assert(moves[k] == m);
        }
        lemma_family_step(s0, s, true, m);
        let sp = spec_play(s, m);
        let mmc = spec_minimax((depth - 1) as u8, false, sp);
        lemma_mm_bounds((depth - 1) as u8, false, sp);
        lemma_ab_sound(t, (depth - 1) as u8, false, alpha, beta, sp, s0);
        let c = spec_ab(t, (depth - 1) as u8, false, alpha, beta, sp);
        let score = c.0;
        assert(result_ok(score as int, mmc, alpha as int, beta as int));
        let best2 = min_i32(best, score);
        let beta2 = min_i32(beta, score);
        let p2: int = if mmc < p {
            mmc
        } else {
            p
        };
        assert(v == spec_mm_loop(depth, true, s, moves, k + 1, p2));
        if alpha as int >= beta2 as int {
            // a fail-low cutoff: the child score is at or below alpha
            assert(score as int <= alpha as int);
            assert(mmc <= score as int);
            assert(best2 == score);
            lemma_mm_loop_acc(depth, true, s, moves, k + 1, p2);
            assert(v <= p2);
            assert(v <= mmc);
        } else {
            assert(score as int > alpha as int);
            assert(mmc >= score as int);
            assert(p2 >= best2 as int);
            if (best2 as int) < beta0 as int {
                if best2 == best {
                    assert(p2 == best2 as int);
                } else {
                    assert(best2 == score && (score as int) < best as int);
                    assert((score as int) < beta as int);
                    assert(mmc == score as int);
                    assert(p2 == best2 as int);
                }
            }
            lemma_min_loop_sound(c.1, depth, s, moves, k + 1, best2, alpha, beta2, s0, beta0, p2);
        }
    }
}

/// Soundness of one alpha-beta node against the unpruned minimax value: the
/// result is fail-soft correct for the window, and the table it leaves
/// behind is sound for the whole game.
#[verifier::rlimit(100)]
pub proof fn lemma_ab_sound(
    t: TableModel,
    depth: u8,
    turn: bool,
    alpha: i32,
    beta: i32,
    s: Seq<Piece>,
    s0: Seq<Piece>,
)
    requires
        kind_disciplined(s0),
        same_family(s0, s),
        table_ok(t, s0),
        (alpha as int) < beta as int,
    ensures
        table_ok(spec_ab(t, depth, turn, alpha, beta, s).1, s0),
        result_ok(
            spec_ab(t, depth, turn, alpha, beta, s).0 as int,
            spec_minimax(depth, turn, s),
            alpha as int,
            beta as int,
        ),
    decreases depth, 1int, 0int,
{
    let key = spec_encode(s, turn);
    let mm = spec_minimax(depth, turn, s);
    lemma_mm_bounds(depth, turn, s);
    if t.contains_key(key) {
        assert(entry_ok(t[key], spec_minimax(t[key].0, turn, s)));
    }
    if t.contains_key(key) && t[key].0 == depth && t[key].2 == Flag::Exact {
        assert(mm == t[key].1 as int);
    } else {
        let alpha1 = if t.contains_key(key) && t[key].0 == depth && t[key].2 == Flag::Alpha {
            max_i32(alpha, t[key].1)
        } else {
            alpha
        };
        let beta1 = if t.contains_key(key) && t[key].0 == depth && t[key].2 == Flag::Beta {
            min_i32(beta, t[key].1)
        } else {
            beta
        };
        assert(alpha1 as int > alpha as int ==> mm >= alpha1 as int);
        assert((beta1 as int) < beta as int ==> mm <= beta1 as int);
        if t.contains_key(key) && alpha1 as int >= beta1 as int {
            // the tightened window inverted: the stored score is returned,
            // and the tightening entry makes it bound-correct
            let sc = t[key].1;
            if t[key].0 == depth && t[key].2 == Flag::Alpha {
                assert(sc as int >= beta as int);
                assert(mm >= sc as int);
            } else if t[key].0 == depth && t[key].2 == Flag::Beta {
                assert(sc as int <= alpha as int);
                assert(mm <= sc as int);
            } else {
                assert(alpha1 == alpha && beta1 == beta);
                assert(false);
            }
        } else {
            match spec_terminal(s, turn, depth) {
                Some(sc) => {
                    assert(mm == sc);
                    assert(-100256 < sc < 100256);
                    assert((sc as i32) as int == sc);
                },
                None => {
                    if depth == 0 {
                        lemma_eval_bounds(s);
                        assert(mm == spec_evaluate(s));
                        assert((spec_evaluate(s) as i32) as int == spec_evaluate(s));
                    } else {
                        let moves = spec_moves(s, turn);
                        if !turn {
                            assert(mm == spec_mm_loop(depth, false, s, moves, 0, i32::MIN as int));
                            lemma_max_loop_sound(
                                t,
                                depth,
                                s,
                                moves,
                                0,
                                i32::MIN,
                                alpha1,
                                beta1,
                                s0,
                                alpha1,
                                i32::MIN as int,
                            );
                            let r = spec_max_loop(t, depth, s, moves, 0, i32::MIN, alpha1, beta1);
                            let fb = r.0;
                            let fa = r.1;
                            let flag = if fb as int <= alpha as int {
                                Flag::Beta
                            } else if fb as int >= beta1 as int {
                                Flag::Alpha
                            } else {
                                Flag::Exact
                            };
                            // the stored entry is bound-correct; where the
                            // window was tightened the tightening entry
                            // upgrades a fail into an exact value
                            if flag == Flag::Exact {
                                if fb as int <= alpha1 as int {
                                    assert(mm <= fb as int);
                                    assert(alpha1 as int > alpha as int);
                                    assert(mm >= alpha1 as int);
                                    assert(mm == fb as int);
                                } else {
                                    assert(mm == fb as int);
                                }
                            }
                            assert(entry_ok((depth, fb, flag), mm));
                            lemma_table_insert(r.2, s0, s, turn, (depth, fb, flag));
                            // the returned alpha is fail-soft correct for
                            // the caller's window
                            if fb as int >= beta1 as int {
                                assert(fa == fb);
                                assert(mm >= fb as int);
                                if (fa as int) < beta as int {
                                    assert((beta1 as int) < beta as int);
                                    assert(mm <= beta1 as int);
                                    assert(mm == fa as int);
                                }
                            } else if fb as int <= alpha1 as int {
                                assert(fa == alpha1);
                                assert(mm <= fb as int);
                                if alpha1 as int > alpha as int {
                                    assert(mm >= alpha1 as int);
                                    assert(mm == fa as int);
                                }
                            } else {
                                assert(fa == fb);
                                assert(mm == fb as int);
                            }
                        } else {
                            assert(mm == spec_mm_loop(depth, true, s, moves, 0, i32::MAX as int));
                            lemma_min_loop_sound(
                                t,
                                depth,
                                s,
                                moves,
                                0,
                                i32::MAX,
                                alpha1,
                                beta1,
                                s0,
                                beta1,
                                i32::MAX as int,
                            );
                            let r = spec_min_loop(t, depth, s, moves, 0, i32::MAX, alpha1, beta1);
                            let fb = r.0;
                            let fa = r.1;
                            let flag = if fb as int >= beta as int {
                                Flag::Alpha
                            } else if fb as int <= alpha1 as int {
                                Flag::Beta
                            } else {
                                Flag::Exact
                            };
                            if flag == Flag::Exact {
                                if fb as int >= beta1 as int {
                                    assert(mm >= fb as int);
                                    assert((beta1 as int) < beta as int);
                                    assert(mm <= beta1 as int);
                                    assert(mm == fb as int);
                                } else {
                                    assert(mm == fb as int);
                                }
                            }
                            assert(entry_ok((depth, fb, flag), mm));
                            lemma_table_insert(r.2, s0, s, turn, (depth, fb, flag));
                            if fb as int <= alpha1 as int {
                                assert(fa == fb);
                                assert(mm <= fb as int);
                                if (fa as int) > alpha as int {
                                    assert(alpha1 as int > alpha as int);
                                    assert(mm >= alpha1 as int);
                                    assert(mm == fa as int);
                                }
                            } else if fb as int >= beta1 as int {
                                assert(fa == beta1);
                                assert(mm >= fb as int);
                                if (beta1 as int) < beta as int {
                                    assert(mm <= beta1 as int);
                                    assert(mm == fa as int);
                                }
                            } else {
                                assert(fa == fb);
                                assert(mm == fb as int);
                            }
                        }
                    }
                },
            }
        }
    }
}

/// A fresh table is vacuously sound.
proof fn lemma_empty_table_ok(s0: Seq<Piece>)
    ensures
        table_ok(Map::empty(), s0),
{
    assert forall|s2: Seq<Piece>, turn2: bool|
        (same_family(s0, s2) && Map::<u64, (u8, i32, Flag)>::empty().contains_key(
            #[trigger] spec_encode(s2, turn2),
        )) implies entry_ok(
        Map::<u64, (u8, i32, Flag)>::empty()[spec_encode(s2, turn2)],
        spec_minimax(Map::<u64, (u8, i32, Flag)>::empty()[spec_encode(s2, turn2)].0, turn2, s2),
    ) by {
        assert(!Map::<u64, (u8, i32, Flag)>::empty().contains_key(spec_encode(s2, turn2)));
    }
}

/// Alpha-beta equivalence: over the full window and a fresh table, the
/// pruned, memoized engine computes exactly the unpruned minimax value of
/// any well-formed position of a disciplined game.
pub proof fn lemma_ab_equals_minimax(depth: u8, turn: bool, s: Seq<Piece>)
    requires
        wf(s),
        kind_disciplined(s),
        s[3].kind == Kind::Chick || s[3].kind == Kind::Hen,
        s[7].kind == Kind::Chick || s[7].kind == Kind::Hen,
    ensures
        spec_ab(Map::empty(), depth, turn, i32::MIN, i32::MAX, s).0 as int == spec_minimax(
            depth,
            turn,
            s,
        ),
{
    assert(same_family(s, s));
    lemma_empty_table_ok(s);
    lemma_ab_sound(Map::empty(), depth, turn, i32::MIN, i32::MAX, s, s);
    lemma_mm_bounds(depth, turn, s);
    let r = spec_ab(Map::empty(), depth, turn, i32::MIN, i32::MAX, s).0;
    let mm = spec_minimax(depth, turn, s);
    if r as int <= i32::MIN as int {
        assert(mm <= r as int && mm >= i32::MIN as int);
    } else if r as int >= i32::MAX as int {
        assert(mm >= r as int && mm <= i32::MAX as int);
    }
}

/// Once the running bound has reached its side's far extreme, no further
/// candidate can strictly improve it: the scan's bound and move freeze.
proof fn lemma_scan_frozen(
    t: TableModel,
    depth: u8,
    turn: bool,
    cands: Seq<(Move, Seq<Piece>)>,
    k: int,
    bound: i32,
    best: Option<Move>,
)
    requires
        !turn ==> bound == i32::MAX,
        turn ==> bound == i32::MIN,
    ensures
        root_scan(t, depth, turn, cands, k, bound, best).0 == bound,
        root_scan(t, depth, turn, cands, k, bound, best).2 == best,
    decreases cands.len() - k,
{
    if !(k < 0 || k >= cands.len() || depth == 0) {
        let c = spec_ab(
            t,
            (depth - 1) as u8,
            !turn,
            if !turn {
                bound
            } else {
                i32::MIN
            },
            if !turn {
                i32::MAX
            } else {
                bound
            },
            cands[k].1,
        );
        lemma_scan_frozen(c.1, depth, turn, cands, k + 1, bound, best);
    }
}

/// The root scan returns the exact minimax value of the move it adopts, and
/// that value dominates every candidate it scanned: every child score that
/// strictly improves the bound is exact for the window it was searched with,
/// and every other child's value is bounded by the running bound.
#[verifier::rlimit(100)]
proof fn lemma_root_scan_best(
    t: TableModel,
    depth: u8,
    turn: bool,
    s: Seq<Piece>,
    s0: Seq<Piece>,
    cands: Seq<(Move, Seq<Piece>)>,
    k: int,
    bound: i32,
    best: Option<Move>,
)
    requires
        kind_disciplined(s0),
        same_family(s0, s),
        table_ok(t, s0),
        depth >= 1,
        0 <= k <= cands.len(),
        forall|j: int|
            0 <= j < cands.len() ==> spec_moves(s, turn).contains((#[trigger] cands[j]).0)
                && cands[j].1 == spec_play(s, cands[j].0),
        best is Some ==> bound as int == spec_minimax(
            (depth - 1) as u8,
            !turn,
            spec_play(s, best.unwrap()),
        ),
        best is None ==> (!turn ==> bound == i32::MIN) && (turn ==> bound == i32::MAX),
    ensures
        ({
            let r = root_scan(t, depth, turn, cands, k, bound, best);
            &&& (r.2 is Some ==> r.0 as int == spec_minimax(
                (depth - 1) as u8,
                !turn,
                spec_play(s, r.2.unwrap()),
            ))
            &&& (!turn ==> bound as int <= r.0 as int)
            &&& (turn ==> bound as int >= r.0 as int)
            &&& (!turn ==> forall|j: int|
                k <= j < cands.len() ==> spec_minimax(
                    (depth - 1) as u8,
                    !turn,
                    (#[trigger] cands[j]).1,
                ) <= r.0 as int)
            &&& (turn ==> forall|j: int|
                k <= j < cands.len() ==> spec_minimax(
                    (depth - 1) as u8,
                    !turn,
                    (#[trigger] cands[j]).1,
                ) >= r.0 as int)
            &&& (best is Some ==> r.2 is Some)
            &&& (r.2 is None ==> r.0 == bound && best is None)
        }),
    decreases cands.len() - k,
{
    let r = root_scan(t, depth, turn, cands, k, bound, best);
    if k >= cands.len() {
        assert(r == (bound, t, best));
    } else {
        let m = cands[k].0;
        let sp = cands[k].1;
        assert(spec_moves(s, turn).contains(m) && sp == spec_play(s, m));
        lemma_family_step(s0, s, turn, m);
        let mmc = spec_minimax((depth - 1) as u8, !turn, sp);
        lemma_mm_bounds((depth - 1) as u8, !turn, sp);
        if !turn {
            if bound == i32::MAX {
                lemma_scan_frozen(t, depth, turn, cands, k, bound, best);
                assert(best is Some);
                assert forall|j: int| k <= j < cands.len() implies spec_minimax(
                    (depth - 1) as u8,
                    !turn,
                    (#[trigger] cands[j]).1,
                ) <= r.0 as int by {
                    lemma_mm_bounds((depth - 1) as u8, !turn, cands[j].1);
                }
            } else {
                lemma_ab_sound(t, (depth - 1) as u8, true, bound, i32::MAX, sp, s0);
                let c = spec_ab(t, (depth - 1) as u8, true, bound, i32::MAX, sp);
                let score = c.0;
                assert(result_ok(score as int, mmc, bound as int, i32::MAX as int));
                if score > bound {
                    assert(mmc == score as int);
                    lemma_root_scan_best(c.1, depth, turn, s, s0, cands, k + 1, score, Some(m));
                    assert(spec_minimax((depth - 1) as u8, !turn, cands[k].1) <= r.0 as int);
                } else {
                    assert(mmc <= score as int && score as int <= bound as int);
                    lemma_root_scan_best(c.1, depth, turn, s, s0, cands, k + 1, bound, best);
                    assert(spec_minimax((depth - 1) as u8, !turn, cands[k].1) <= r.0 as int);
                }
            }
        } else {
            if bound == i32::MIN {
                lemma_scan_frozen(t, depth, turn, cands, k, bound, best);
                assert(best is Some);
                assert forall|j: int| k <= j < cands.len() implies spec_minimax(
                    (depth - 1) as u8,
                    !turn,
                    (#[trigger] cands[j]).1,
                ) >= r.0 as int by {
                    lemma_mm_bounds((depth - 1) as u8, !turn, cands[j].1);
                }
            } else {
                lemma_ab_sound(t, (depth - 1) as u8, false, i32::MIN, bound, sp, s0);
                let c = spec_ab(t, (depth - 1) as u8, false, i32::MIN, bound, sp);
                let score = c.0;
                assert(result_ok(score as int, mmc, i32::MIN as int, bound as int));
                if score < bound {
                    assert(mmc == score as int);
                    lemma_root_scan_best(c.1, depth, turn, s, s0, cands, k + 1, score, Some(m));
                    assert(spec_minimax((depth - 1) as u8, !turn, cands[k].1) >= r.0 as int);
                } else {
                    assert(mmc >= score as int && score as int >= bound as int);
                    lemma_root_scan_best(c.1, depth, turn, s, s0, cands, k + 1, bound, best);
                    assert(spec_minimax((depth - 1) as u8, !turn, cands[k].1) >= r.0 as int);
                }
            }
        }
    }
}

/// Whenever the novel phase adopts a move, that move is optimal: its one-ply
/// deeper minimax value is the phase's bound, and no novel candidate has a
/// strictly better value for the side to move.
pub proof fn lemma_novel_phase_optimal(s: Seq<Piece>, played: Seq<Seq<Piece>>, depth: u8, turn: bool)
    requires
        wf(s),
        kind_disciplined(s),
        s[3].kind == Kind::Chick || s[3].kind == Kind::Hen,
        s[7].kind == Kind::Chick || s[7].kind == Kind::Hen,
        depth >= 1,
    ensures
        ({
            let n = spec_root_novel(s, played, depth, turn);
            let novel = novel_list(s, played, turn);
            &&& (n.2 is Some ==> n.0 as int == spec_minimax(
                (depth - 1) as u8,
                !turn,
                spec_play(s, n.2.unwrap()),
            ))
            &&& (n.2 is Some && !turn ==> forall|j: int|
                0 <= j < novel.len() ==> spec_minimax(
                    (depth - 1) as u8,
                    !turn,
                    (#[trigger] novel[j]).1,
                ) <= n.0 as int)
            &&& (n.2 is Some && turn ==> forall|j: int|
                0 <= j < novel.len() ==> spec_minimax(
                    (depth - 1) as u8,
                    !turn,
                    (#[trigger] novel[j]).1,
                ) >= n.0 as int)
        }),
{
    assert(same_family(s, s));
    lemma_empty_table_ok(s);
    lemma_novel_list_members(s, played, turn);
    let novel = novel_list(s, played, turn);
    lemma_root_scan_best(
        Map::empty(),
        depth,
        turn,
        s,
        s,
        novel,
        0,
        if !turn {
            i32::MIN
        } else {
            i32::MAX
        },
        None,
    );
}

} // verus!
