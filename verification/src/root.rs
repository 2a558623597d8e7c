use vstd::prelude::*;
use std::collections::HashMap;
use crate::model::{Move, Piece, Pieces, wf};
use crate::movegen::{spec_moves, possible_moves, move_ok};
use crate::apply::{spec_play, play_move, lemma_play_preserves_wf};
use crate::search::{spec_ab, alphabeta, Table, TableModel};

verus! {

broadcast use vstd::std_specs::hash::group_hash_axioms, vstd::array::group_array_axioms;

/// The mathematical content of a game history: each recorded position as a
/// sequence of tokens.
pub open spec fn views_of(played: Seq<Pieces>) -> Seq<Seq<Piece>> {
    played.map_values(|p: Pieces| p@)
}

/// Whether a position already occurred in the game history.
pub open spec fn occurs(played: Seq<Seq<Piece>>, q: Seq<Piece>) -> bool {
    exists|i: int| 0 <= i < played.len() && played[i] == q
}

/// Root candidates: every legal move paired with its successor position, in
/// generation order.
pub open spec fn candidates(s: Seq<Piece>, turn: bool) -> Seq<(Move, Seq<Piece>)> {
    Seq::new(
        spec_moves(s, turn).len(),
        |k: int| (spec_moves(s, turn)[k], spec_play(s, spec_moves(s, turn)[k])),
    )
}

/// Of the first `n` candidates, those whose successor is not in the history,
/// keeping their order.
pub open spec fn novel_upto(
    c: Seq<(Move, Seq<Piece>)>,
    played: Seq<Seq<Piece>>,
    n: int,
) -> Seq<(Move, Seq<Piece>)>
    decreases n,
{
    if n <= 0 {
        Seq::empty()
    } else {
        novel_upto(c, played, n - 1) + if !occurs(played, c[n - 1].1) {
            seq![c[n - 1]]
        } else {
            Seq::empty()
        }
    }
}

/// Of the first `n` candidates, those whose successor repeats the history.
pub open spec fn rep_upto(
    c: Seq<(Move, Seq<Piece>)>,
    played: Seq<Seq<Piece>>,
    n: int,
) -> Seq<(Move, Seq<Piece>)>
    decreases n,
{
    if n <= 0 {
        Seq::empty()
    } else {
        rep_upto(c, played, n - 1) + if occurs(played, c[n - 1].1) {
            seq![c[n - 1]]
        } else {
            Seq::empty()
        }
    }
}

/// The root's scoring pass over a candidate list from index `k` on: each
/// successor is searched one ply shallower for the other side, and a strict
/// improvement of the running bound adopts the move. The maximizing side
/// widens alpha against an open beta, the minimizing side narrows beta
/// against an open alpha.
pub open spec fn root_scan(
    t: TableModel,
    depth: u8,
    turn: bool,
    cands: Seq<(Move, Seq<Piece>)>,
    k: int,
    bound: i32,
    best: Option<Move>,
) -> (i32, TableModel, Option<Move>)
    decreases cands.len() - k,
{
    if k < 0 || k >= cands.len() || depth == 0 {
        (bound, t, best)
    } else {
        let c = spec_ab(
            t,
            (depth - 1) as u8,
            !turn,
            if !turn {
                bound
            } else {
                i32::MIN
            },
            if !turn {
                i32::MAX
            } else {
                bound
            },
            cands[k].1,
        );
        if !turn {
            if c.0 > bound {
                root_scan(c.1, depth, turn, cands, k + 1, c.0, Some(cands[k].0))
            } else {
                root_scan(c.1, depth, turn, cands, k + 1, bound, best)
            }
        } else {
            if c.0 < bound {
                root_scan(c.1, depth, turn, cands, k + 1, c.0, Some(cands[k].0))
            } else {
                root_scan(c.1, depth, turn, cands, k + 1, bound, best)
            }
        }
    }
}

/// The candidates whose successor does not repeat the history, in order.
pub open spec fn novel_list(s: Seq<Piece>, played: Seq<Seq<Piece>>, turn: bool) -> Seq<
    (Move, Seq<Piece>),
> {
    novel_upto(candidates(s, turn), played, candidates(s, turn).len() as int)
}

/// The novel phase of the root selector: a fresh table, the side's open
/// bound, and the novel candidates in order.
pub open spec fn spec_root_novel(
    s: Seq<Piece>,
    played: Seq<Seq<Piece>>,
    depth: u8,
    turn: bool,
) -> (i32, TableModel, Option<Move>) {
    root_scan(
        Map::empty(),
        depth,
        turn,
        novel_list(s, played, turn),
        0,
        if !turn {
            i32::MIN
        } else {
            i32::MAX
        },
        None,
    )
}

/// The move the root selector picks: the best novel candidate if the novel
/// phase adopted any, otherwise the best among the repeating candidates,
/// scanned with the bound and table the novel phase left behind.
pub open spec fn spec_shogi_ai(
    s: Seq<Piece>,
    played: Seq<Seq<Piece>>,
    depth: u8,
    turn: bool,
) -> Option<Move> {
    let c = candidates(s, turn);
    let n = spec_root_novel(s, played, depth, turn);
    if n.2 is Some {
        n.2
    } else {
        root_scan(n.1, depth, turn, rep_upto(c, played, c.len() as int), 0, n.0, None).2
    }
}

/// Structural equality of two positions, token by token.
pub fn pieces_eq(x: &Pieces, y: &Pieces) -> (r: bool)
    ensures
        r == (x@ == y@),
{
    let mut eq = true;
    let mut i: usize = 0;
    while i < 8
        invariant
            i <= 8,
            eq ==> forall|j: int| 0 <= j < i ==> x@[j] == y@[j],
            !eq ==> x@ != y@,
        decreases 8 - i,
    {
        if !(x[i] == y[i]) {
            proof {
                if x@ == y@ {
                    assert(x@[i as int] == y@[i as int]);
                }
            }
            eq = false;
        }
        i += 1;
    }
    proof {
        if eq {
            assert(x@ =~= y@);
        }
    }
    eq
}

/// View of an executable candidate list.
pub open spec fn cand_views(v: Seq<(Move, Pieces)>) -> Seq<(Move, Seq<Piece>)> {
    v.map_values(|c: (Move, Pieces)| (c.0, c.1@))
}

/// Root move selection: generate the legal moves, partition their successors
/// by whether they repeat the history, search the novel ones first and return
/// the best of them; only when every legal move repeats fall back to the
/// repeating ones. The result is exactly `spec_shogi_ai` of the inputs, so
/// repeated calls on the same inputs return the same move.
#[verifier::rlimit(100)]
pub fn shogi_ai(pieces: Pieces, played: Vec<Pieces>, depth: u8, turn: bool) -> (r: Move)
    requires
        wf(pieces@),
        depth >= 1,
        spec_shogi_ai(pieces@, views_of(played@), depth, turn) is Some,
    ensures
        Some(r) == spec_shogi_ai(pieces@, views_of(played@), depth, turn),
{
    let ghost pv = views_of(played@);
    let ghost c = candidates(pieces@, turn);
    let mut table: Table = HashMap::new();
    let mvs = possible_moves(&pieces, turn);
    proof {
        assert(c.len() == mvs@.len());
    }
    let mut novel: Vec<(Move, Pieces)> = Vec::new();
    let mut rep: Vec<(Move, Pieces)> = Vec::new();
    for k in 0..mvs.len()
        invariant
            wf(pieces@),
            pv == views_of(played@),
            c == candidates(pieces@, turn),
            c.len() == mvs@.len(),
            mvs@ == spec_moves(pieces@, turn),
            forall|m: Move| #[trigger] mvs@.contains(m) ==> move_ok(pieces@, turn, m),
            cand_views(novel@) == novel_upto(c, pv, k as int),
            cand_views(rep@) == rep_upto(c, pv, k as int),
            forall|j: int|
                0 <= j < novel@.len() ==> mvs@.contains((#[trigger] novel@[j]).0) && novel@[j].1@
                    == spec_play(pieces@, novel@[j].0),
            forall|j: int|
                0 <= j < rep@.len() ==> mvs@.contains((#[trigger] rep@[j]).0) && rep@[j].1@
                    == spec_play(pieces@, rep@[j].0),
    {
        let m = mvs[k];
        proof {
            assert(mvs@.contains(m)) by {
                assert(mvs@[k as int] == m);
            }
        }
        let np = play_move(&pieces, m);
        proof {
            assert(c[k as int] == (m, np@));
        }
        let mut found = false;
        let mut i: usize = 0;
        while i < played.len()
            invariant
                i <= played@.len(),
                pv == views_of(played@),
                found == exists|j: int| 0 <= j < i && pv[j] == np@,
            decreases played@.len() - i,
        {
            let entry = played[i];
            if pieces_eq(&entry, &np) {
                proof {
                    assert(pv[i as int] == np@);
                }
                found = true;
            }
            i += 1;
        }
        proof {
            assert(found == occurs(pv, np@));
        }
        if found {
            rep.push((m, np));
            proof {
                assert(cand_views(rep@) =~~= rep_upto(c, pv, k + 1));
                assert(cand_views(novel@) =~~= novel_upto(c, pv, k + 1));
            }
        } else {
            novel.push((m, np));
            proof {
                assert(cand_views(novel@) =~~= novel_upto(c, pv, k + 1));
                assert(cand_views(rep@) =~~= rep_upto(c, pv, k + 1));
            }
        }
    }
    let ghost nv = cand_views(novel@);
    let ghost rv = cand_views(rep@);
    let ghost fin1 = root_scan(
        table@,
        depth,
        turn,
        nv,
        0,
        if !turn {
            i32::MIN
        } else {
            i32::MAX
        },
        None,
    );
    let mut best_move: Option<Move> = None;
    let mut a = i32::MIN;
    let mut b = i32::MAX;
    for k in 0..novel.len()
        invariant
            wf(pieces@),
            depth >= 1,
            nv == cand_views(novel@),
            mvs@ == spec_moves(pieces@, turn),
            forall|m: Move| #[trigger] mvs@.contains(m) ==> move_ok(pieces@, turn, m),
            forall|j: int|
                0 <= j < novel@.len() ==> mvs@.contains((#[trigger] novel@[j]).0) && novel@[j].1@
                    == spec_play(pieces@, novel@[j].0),
            !turn ==> b == i32::MAX && fin1 == root_scan(
                table@,
                depth,
                turn,
                nv,
                k as int,
                a,
                best_move,
            ),
            turn ==> a == i32::MIN && fin1 == root_scan(
                table@,
                depth,
                turn,
                nv,
                k as int,
                b,
                best_move,
            ),
    {
        let (m, np) = novel[k];
        proof {
            assert(novel@[k as int] == (m, np));
            assert(mvs@.contains(m));
            lemma_play_preserves_wf(pieces@, turn, m);
            assert(nv[k as int] == (m, np@));
        }
        if !turn {
            let score = alphabeta(&mut table, depth - 1, true, a, b, np);
            if score > a {
                a = score;
                best_move = Some(m);
            }
        } else {
            let score = alphabeta(&mut table, depth - 1, false, a, b, np);
            if score < b {
                b = score;
                best_move = Some(m);
            }
        }
    }
    proof {
        assert(fin1 == spec_root_novel(pieces@, pv, depth, turn));
        if !turn {
            assert(fin1 == (a, table@, best_move));
        } else {
            assert(fin1 == (b, table@, best_move));
        }
    }
    if let Some(m) = best_move {
        proof {
            assert(Some(m) == spec_shogi_ai(pieces@, pv, depth, turn));
        }
        return m;
    }
    let ghost fin2 = root_scan(
        table@,
        depth,
        turn,
        rv,
        0,
        if !turn {
            a
        } else {
            b
        },
        None,
    );
    for k in 0..rep.len()
        invariant
            wf(pieces@),
            depth >= 1,
            rv == cand_views(rep@),
            mvs@ == spec_moves(pieces@, turn),
            forall|m: Move| #[trigger] mvs@.contains(m) ==> move_ok(pieces@, turn, m),
            forall|j: int|
                0 <= j < rep@.len() ==> mvs@.contains((#[trigger] rep@[j]).0) && rep@[j].1@
                    == spec_play(pieces@, rep@[j].0),
            !turn ==> b == i32::MAX && fin2 == root_scan(
                table@,
                depth,
                turn,
                rv,
                k as int,
                a,
                best_move,
            ),
            turn ==> a == i32::MIN && fin2 == root_scan(
                table@,
                depth,
                turn,
                rv,
                k as int,
                b,
                best_move,
            ),
    {
        let (m, np) = rep[k];
        proof {
            assert(rep@[k as int] == (m, np));
            assert(mvs@.contains(m));
            lemma_play_preserves_wf(pieces@, turn, m);
            assert(rv[k as int] == (m, np@));
        }
        if !turn {
            let score = alphabeta(&mut table, depth - 1, true, a, b, np);
            if score > a {
                a = score;
                best_move = Some(m);
            }
        } else {
            let score = alphabeta(&mut table, depth - 1, false, a, b, np);
            if score < b {
                b = score;
                best_move = Some(m);
            }
        }
    }
    proof {
        if !turn {
            assert(fin2 == (a, table@, best_move));
        } else {
            assert(fin2 == (b, table@, best_move));
        }
        assert(best_move == spec_shogi_ai(pieces@, pv, depth, turn));
    }
    match best_move {
        Some(m) => m,
        None => {
            proof {
                assert(false);
            }
            Move { from: 0, to: 0 }
        },
    }
}

/// Every novel candidate pairs a generated legal move with its successor,
/// and that successor does not occur in the history.
pub proof fn lemma_novel_list_members(s: Seq<Piece>, played: Seq<Seq<Piece>>, turn: bool)
    ensures
        forall|j: int|
            0 <= j < novel_list(s, played, turn).len() ==> {
                let x = #[trigger] novel_list(s, played, turn)[j];
                &&& spec_moves(s, turn).contains(x.0)
                &&& x.1 == spec_play(s, x.0)
                &&& !occurs(played, x.1)
            },
{
    let c = candidates(s, turn);
    let novel = novel_list(s, played, turn);
    lemma_novel_members(c, played, c.len() as int);
    assert forall|j: int| 0 <= j < novel.len() implies {
        let x = #[trigger] novel_list(s, played, turn)[j];
        &&& spec_moves(s, turn).contains(x.0)
        &&& x.1 == spec_play(s, x.0)
        &&& !occurs(played, x.1)
    } by {
        let x = novel[j];
        assert(novel.contains(x));
        assert(c.contains(x) && !occurs(played, x.1));
        let i = choose|i: int| 0 <= i < c.len() && c[i] == x;
        assert(x == (spec_moves(s, turn)[i], spec_play(s, spec_moves(s, turn)[i])));
        assert(spec_moves(s, turn).contains(x.0)) by {
            assert(spec_moves(s, turn)[i] == x.0);
        }
    }
}

proof fn lemma_scan_keeps_some(
    t: TableModel,
    depth: u8,
    turn: bool,
    cands: Seq<(Move, Seq<Piece>)>,
    k: int,
    bound: i32,
    x: Move,
)
    requires
        0 <= k,
    ensures
        root_scan(t, depth, turn, cands, k, bound, Some(x)).2 is Some,
    decreases cands.len() - k,
{
    if k < cands.len() && depth != 0 {
        let c = spec_ab(
            t,
            (depth - 1) as u8,
            !turn,
            if !turn {
                bound
            } else {
                i32::MIN
            },
            if !turn {
                i32::MAX
            } else {
                bound
            },
            cands[k].1,
        );
        let adopt = if !turn {
            c.0 > bound
        } else {
            c.0 < bound
        };
        if adopt {
            lemma_scan_keeps_some(c.1, depth, turn, cands, k + 1, c.0, cands[k].0);
        } else {
            lemma_scan_keeps_some(c.1, depth, turn, cands, k + 1, bound, x);
        }
    }
}

/// As soon as the first novel candidate's search score is not the open
/// bound's own sentinel, the novel phase adopts a move — so the selector is
/// then guaranteed to answer from the novel candidates.
pub proof fn lemma_novel_phase_adopts(s: Seq<Piece>, played: Seq<Seq<Piece>>, depth: u8, turn: bool)
    requires
        depth >= 1,
        novel_list(s, played, turn).len() > 0,
        !turn ==> spec_ab(
            Map::empty(),
            (depth - 1) as u8,
            true,
            i32::MIN,
            i32::MAX,
            novel_list(s, played, turn)[0].1,
        ).0 > i32::MIN,
        turn ==> spec_ab(
            Map::empty(),
            (depth - 1) as u8,
            false,
            i32::MIN,
            i32::MAX,
            novel_list(s, played, turn)[0].1,
        ).0 < i32::MAX,
    ensures
        spec_root_novel(s, played, depth, turn).2 is Some,
{
    let novel = novel_list(s, played, turn);
    let c = spec_ab(
        Map::empty(),
        (depth - 1) as u8,
        !turn,
        i32::MIN,
        i32::MAX,
        novel[0].1,
    );
    lemma_scan_keeps_some(c.1, depth, turn, novel, 1, c.0, novel[0].0);
}

/// Determinism of the root selection: the chosen move is a function of the
/// position, the history, the depth and the side to move alone, so two calls
/// on the same inputs agree.
pub proof fn lemma_root_deterministic(
    s: Seq<Piece>,
    played: Seq<Seq<Piece>>,
    depth: u8,
    turn: bool,
    m1: Move,
    m2: Move,
)
    requires
        Some(m1) == spec_shogi_ai(s, played, depth, turn),
        Some(m2) == spec_shogi_ai(s, played, depth, turn),
    ensures
        m1 == m2,
{
}

proof fn lemma_scan_move_from(
    t: TableModel,
    depth: u8,
    turn: bool,
    cands: Seq<(Move, Seq<Piece>)>,
    k: int,
    bound: i32,
    best: Option<Move>,
    m: Move,
)
    requires
        0 <= k,
        root_scan(t, depth, turn, cands, k, bound, best).2 == Some(m),
    ensures
        best == Some(m) || exists|j: int| k <= j < cands.len() && (#[trigger] cands[j]).0 == m,
    decreases cands.len() - k,
{
    if k < cands.len() && depth != 0 {
        let c = spec_ab(
            t,
            (depth - 1) as u8,
            !turn,
            if !turn {
                bound
            } else {
                i32::MIN
            },
            if !turn {
                i32::MAX
            } else {
                bound
            },
            cands[k].1,
        );
        let adopt = if !turn {
            c.0 > bound
        } else {
            c.0 < bound
        };
        if adopt {
            lemma_scan_move_from(c.1, depth, turn, cands, k + 1, c.0, Some(cands[k].0), m);
            if Some(cands[k].0) == Some::<Move>(m) {
                assert(cands[k].0 == m);
            }
        } else {
            lemma_scan_move_from(c.1, depth, turn, cands, k + 1, bound, best, m);
        }
    }
}

proof fn lemma_novel_members(c: Seq<(Move, Seq<Piece>)>, played: Seq<Seq<Piece>>, n: int)
    requires
        0 <= n <= c.len(),
    ensures
        forall|x: (Move, Seq<Piece>)|
            #[trigger] novel_upto(c, played, n).contains(x) ==> c.contains(x) && !occurs(
                played,
                x.1,
            ),
    decreases n,
{
    if n > 0 {
        lemma_novel_members(c, played, n - 1);
        assert forall|x: (Move, Seq<Piece>)|
            #[trigger] novel_upto(c, played, n).contains(x) implies c.contains(x) && !occurs(
            played,
            x.1,
        ) by {
            let l = novel_upto(c, played, n);
            let k = choose|k: int| 0 <= k < l.len() && l[k] == x;
            if k < novel_upto(c, played, n - 1).len() {
                assert(novel_upto(c, played, n - 1).contains(x));
            } else {
                assert(x == c[n - 1]);
                assert(c.contains(x)) by {
                    assert(c[n - 1] == x);
                }
            }
        }
    }
}

proof fn lemma_rep_members(c: Seq<(Move, Seq<Piece>)>, played: Seq<Seq<Piece>>, n: int)
    requires
        0 <= n <= c.len(),
    ensures
        forall|x: (Move, Seq<Piece>)|
            #[trigger] rep_upto(c, played, n).contains(x) ==> c.contains(x),
    decreases n,
{
    if n > 0 {
        lemma_rep_members(c, played, n - 1);
        assert forall|x: (Move, Seq<Piece>)|
            #[trigger] rep_upto(c, played, n).contains(x) implies c.contains(x) by {
            let l = rep_upto(c, played, n);
            let k = choose|k: int| 0 <= k < l.len() && l[k] == x;
            if k < rep_upto(c, played, n - 1).len() {
                assert(rep_upto(c, played, n - 1).contains(x));
            } else {
                assert(x == c[n - 1]);
                assert(c.contains(x)) by {
                    assert(c[n - 1] == x);
                }
            }
        }
    }
}

/// Whatever the selector returns is one of the generated legal moves; its
/// successor is the move's application.
pub proof fn lemma_chosen_move_is_legal(
    s: Seq<Piece>,
    played: Seq<Seq<Piece>>,
    depth: u8,
    turn: bool,
    m: Move,
)
    requires
        spec_shogi_ai(s, played, depth, turn) == Some(m),
    ensures
        spec_moves(s, turn).contains(m),
{
    let c = candidates(s, turn);
    let n = spec_root_novel(s, played, depth, turn);
    if n.2 is Some {
        lemma_anti_repetition(s, played, depth, turn, m);
    } else {
        let rep = rep_upto(c, played, c.len() as int);
        lemma_scan_move_from(n.1, depth, turn, rep, 0, n.0, None, m);
        let j = choose|j: int| 0 <= j < rep.len() && (#[trigger] rep[j]).0 == m;
        assert(rep.contains(rep[j]));
        lemma_rep_members(c, played, c.len() as int);
        let x = rep[j];
        assert(c.contains(x));
        let i = choose|i: int| 0 <= i < c.len() && c[i] == x;
        assert(x == (spec_moves(s, turn)[i], spec_play(s, spec_moves(s, turn)[i])));
        assert(spec_moves(s, turn).contains(m)) by {
            assert(spec_moves(s, turn)[i] == m);
        }
    }
}

/// Anti-repetition precedence: whenever the novel phase adopts any move, the
/// move the selector returns is a legal move whose successor position does
/// not occur in the history — a repeating move is never chosen while a novel
/// one was available, whatever the scores.
pub proof fn lemma_anti_repetition(
    s: Seq<Piece>,
    played: Seq<Seq<Piece>>,
    depth: u8,
    turn: bool,
    m: Move,
)
    requires
        spec_root_novel(s, played, depth, turn).2 is Some,
        spec_shogi_ai(s, played, depth, turn) == Some(m),
    ensures
        spec_moves(s, turn).contains(m),
        !occurs(played, spec_play(s, m)),
{
    let c = candidates(s, turn);
    let novel = novel_upto(c, played, c.len() as int);
    lemma_scan_move_from(
        Map::empty(),
        depth,
        turn,
        novel,
        0,
        if !turn {
            i32::MIN
        } else {
            i32::MAX
        },
        None,
        m,
    );
    let j = choose|j: int| 0 <= j < novel.len() && (#[trigger] novel[j]).0 == m;
    assert(novel.contains(novel[j]));
    lemma_novel_members(c, played, c.len() as int);
    let x = novel[j];
    assert(c.contains(x) && !occurs(played, x.1));
    let i = choose|i: int| 0 <= i < c.len() && c[i] == x;
    assert(x == (spec_moves(s, turn)[i], spec_play(s, spec_moves(s, turn)[i])));
    assert(spec_moves(s, turn).contains(m)) by {
        assert(spec_moves(s, turn)[i] == m);
    }
}

} // verus!
