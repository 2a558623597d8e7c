use vstd::prelude::*;
use crate::model::{Kind, Move, Piece, Pieces, wf};
use crate::board::{board_of, lemma_board_at, lemma_board_upto_len};
use crate::movegen::move_ok;

verus! {

broadcast use vstd::array::group_array_axioms;

/// Capture always resets promotion: a promoted pawn demotes to the pawn-like
/// kind, every other kind is kept.
pub open spec fn demote(k: Kind) -> Kind {
    if k == Kind::Hen {
        Kind::Chick
    } else {
        k
    }
}

/// First token index at or after `n` standing on square `to`, if any.
pub open spec fn first_at_from(s: Seq<Piece>, to: u8, n: int) -> Option<int>
    decreases 8 - n,
{
    if n < 0 || n >= 8 {
        None
    } else if s[n].position == to {
        Some(n)
    } else {
        first_at_from(s, to, n + 1)
    }
}

/// The token captured by a move to square `to`: the first token standing
/// there (under the position invariant it is the only one).
pub open spec fn capture_index(s: Seq<Piece>, to: u8) -> Option<int> {
    first_at_from(s, to, 0)
}

/// Whether a pawn-like board move into the opponent's farthest ranks promotes.
pub open spec fn promotes(mover: Piece, to: u8) -> bool {
    mover.kind == Kind::Chick && mover.position < 12 && ((mover.owner && to > 8) || (!mover.owner
        && to < 3))
}

/// The successor position of a move: the occupant of the destination, if any,
/// is captured (sent to hand, ownership flipped, demoted), the mover is
/// relocated to the destination, and a promoting pawn-like move turns the
/// mover into the promoted pawn.
pub open spec fn spec_play(s: Seq<Piece>, m: Move) -> Seq<Piece> {
    let mover = s[m.from as int];
    let to = m.to as u8;
    let s1 = match capture_index(s, to) {
        Some(j) => s.update(
            j,
            Piece { kind: demote(s[j].kind), position: 12, owner: mover.owner },
        ),
        None => s,
    };
    let moved = Piece { kind: s1[m.from as int].kind, position: to, owner: s1[m.from as int].owner };
    let s2 = s1.update(m.from as int, moved);
    if promotes(mover, to) {
        s2.update(m.from as int, Piece { kind: Kind::Hen, position: to, owner: moved.owner })
    } else {
        s2
    }
}

/// Move application, a pure function from a position and a move to the
/// successor position.
pub fn play_move(pieces: &Pieces, mov: Move) -> (r: Pieces)
    requires
        mov.from < 8,
        mov.to < 12,
    ensures
        r@ == spec_play(pieces@, mov),
{
    let to = mov.to as u8;
    let mover = pieces[mov.from];
    let mut new_pieces = *pieces;

    let mut cap: Option<usize> = None;
    let mut j: usize = 0;
    while j < 8
        invariant
            j <= 8,
            new_pieces@ == pieces@,
            mover == pieces@[mov.from as int],
            to == mov.to as u8,
            match cap {
                Some(c) => c < 8 && capture_index(pieces@, to) == Some(c as int),
                None => capture_index(pieces@, to) == first_at_from(pieces@, to, j as int),
            },
        decreases 8 - j,
    {
        if cap.is_none() && pieces[j].position == to {
            cap = Some(j);
        }
        j += 1;
    }

    if let Some(c) = cap {
        let mut captured = new_pieces[c];
        captured.position = 12;
        captured.owner = mover.owner;
        if captured.kind == Kind::Hen {
            captured.kind = Kind::Chick;
        }
        new_pieces[c] = captured;
    }
    let mut moved = new_pieces[mov.from];
    moved.position = to;
    new_pieces[mov.from] = moved;
    if mover.kind == Kind::Chick && mover.position < 12 && ((mover.owner && to > 8) || (!mover.owner
        && to < 3)) {
        let mut promoted = new_pieces[mov.from];
        promoted.kind = Kind::Hen;
        new_pieces[mov.from] = promoted;
    }
    assert(new_pieces@ =~= spec_play(pieces@, mov));
    new_pieces
}

/// `first_at_from` finds nothing iff no token at or after `n` stands on `to`.
pub proof fn lemma_first_at_none(s: Seq<Piece>, to: u8, n: int)
    requires
        0 <= n <= 8,
    ensures
        first_at_from(s, to, n) is None <==> forall|j: int|
            n <= j < 8 ==> (#[trigger] s[j]).position != to,
    decreases 8 - n,
{
    if n < 8 {
        lemma_first_at_none(s, to, n + 1);
    }
}

/// What `first_at_from` returns stands on `to`, and nothing before it does.
pub proof fn lemma_first_at_some(s: Seq<Piece>, to: u8, n: int, c: int)
    requires
        0 <= n <= 8,
        first_at_from(s, to, n) == Some(c),
    ensures
        n <= c < 8,
        s[c].position == to,
    decreases 8 - n,
{
    if n < 8 && s[n].position != to {
        lemma_first_at_some(s, to, n + 1, c);
    }
}

/// Under the position invariant, a move to an occupied square captures
/// exactly the token standing there.
pub proof fn lemma_capture_unique(s: Seq<Piece>, to: u8, j: int)
    requires
        wf(s),
        to < 12,
        0 <= j < 8,
        s[j].position == to,
    ensures
        capture_index(s, to) == Some(j),
{
    match capture_index(s, to) {
        Some(c) => {
            lemma_first_at_some(s, to, 0, c);
            if c != j {
                assert(s[c].position != s[j].position);
            }
        },
        None => {
            lemma_first_at_none(s, to, 0);
        },
    }
}

/// Legality of application: a generated move keeps the position well formed —
/// all eight tokens survive, the mover stands on its destination owned by the
/// side that moved, a captured token goes to the capturer's hand, every other
/// token is untouched, and no square holds two tokens.
pub proof fn lemma_play_preserves_wf(s: Seq<Piece>, turn: bool, m: Move)
    requires
        wf(s),
        move_ok(s, turn, m),
    ensures
        wf(spec_play(s, m)),
        spec_play(s, m).len() == 8,
        spec_play(s, m)[m.from as int].position == m.to as u8,
        spec_play(s, m)[m.from as int].owner == turn,
        forall|j: int|
            0 <= j < 8 && j != m.from as int && s[j].position != m.to as u8 ==> spec_play(s, m)[j]
                == s[j],
        forall|j: int|
            0 <= j < 8 && j != m.from as int && s[j].position == m.to as u8 ==> (spec_play(s, m)[j].position
                == 12 && spec_play(s, m)[j].owner == turn && spec_play(s, m)[j].kind == demote(
                s[j].kind,
            )),
{
    let to = m.to as u8;
    let i = m.from as int;
    let mover = s[i];
    let r = spec_play(s, m);
    lemma_board_upto_len(s, 8);
    lemma_board_at(s, m.to as int);
    if mover.position == 12 {
        // a drop: the destination is empty, nothing is captured
        assert(board_of(s)[m.to as int] == 0);
        lemma_first_at_none(s, to, 0);
        assert(capture_index(s, to) is None);
        assert(r =~= s.update(i, Piece { kind: mover.kind, position: to, owner: mover.owner }));
        assert forall|a: int, b: int|
            0 <= a < 8 && 0 <= b < 8 && a != b && (#[trigger] r[a]).position < 12 implies r[a].position
            != (#[trigger] r[b]).position by {
            if a != i && b != i {
                assert(s[a].position != to);
            }
        }
    } else {
        // a board move: the destination never holds the mover's own side
        assert(mover.position != to);
        match capture_index(s, to) {
            Some(c) => {
                lemma_first_at_some(s, to, 0, c);
                assert(c != i);
                assert forall|a: int, b: int|
                    0 <= a < 8 && 0 <= b < 8 && a != b && (#[trigger] r[a]).position < 12 implies r[a].position
                    != (#[trigger] r[b]).position by {
                    if a != i && a != c && b != i && b != c {
                        assert(s[a].position != s[b].position);
                    }
                    if a != i && a != c && (b == i || b == c) {
                        if s[a].position == to {
                            assert(s[a].position != s[c].position);
                        }
                    }
                    if a == i && b != i && b != c {
                        if s[b].position == to {
                            assert(s[b].position != s[c].position);
                        }
                    }
                }
            },
            None => {
                lemma_first_at_none(s, to, 0);
                assert forall|a: int, b: int|
                    0 <= a < 8 && 0 <= b < 8 && a != b && (#[trigger] r[a]).position < 12 implies r[a].position
                    != (#[trigger] r[b]).position by {
                    if a != i && b != i {
                        assert(s[a].position != s[b].position);
                    }
                    if a == i {
                        assert(s[b].position != to);
                    }
                    if b == i {
                        assert(s[a].position != to);
                    }
                }
            },
        }
    }
}

/// Capturing a promoted pawn always hands the capturer a pawn-like token, and
/// demotion is idempotent: capturing the very same token again, after it was
/// dropped back, demotes it to the same pawn-like kind.
pub proof fn lemma_capture_demotes(s: Seq<Piece>, m: Move, j: int)
    requires
        wf(s),
        m.from < 8,
        m.to < 12,
        0 <= j < 8,
        j != m.from as int,
        s[j].position == m.to as u8,
    ensures
        spec_play(s, m)[j].position == 12,
        spec_play(s, m)[j].owner == s[m.from as int].owner,
        spec_play(s, m)[j].kind == demote(s[j].kind),
        s[j].kind == Kind::Hen ==> spec_play(s, m)[j].kind == Kind::Chick,
        demote(demote(s[j].kind)) == demote(s[j].kind),
{
    lemma_capture_unique(s, m.to as u8, j);
}

/// Play preserves the kind discipline that the encoder's collision-freedom
/// rests on: a token that is neither pawn-like nor promoted keeps its kind
/// forever, and a pawn-like or promoted token only ever cycles within that
/// pair (promotion on entering the far ranks, demotion on capture).
pub proof fn lemma_play_preserves_kinds(s: Seq<Piece>, m: Move)
    requires
        s.len() == 8,
        m.from < 8,
    ensures
        forall|i: int|
            0 <= i < 8 && (#[trigger] s[i]).kind != Kind::Chick && s[i].kind != Kind::Hen
                ==> spec_play(s, m)[i].kind == s[i].kind,
        forall|i: int|
            0 <= i < 8 && ((#[trigger] s[i]).kind == Kind::Chick || s[i].kind == Kind::Hen) ==> (
            spec_play(s, m)[i].kind == Kind::Chick || spec_play(s, m)[i].kind == Kind::Hen),
{
    match capture_index(s, m.to as u8) {
        Some(c) => {
            lemma_first_at_some(s, m.to as u8, 0, c);
        },
        None => {},
    }
}

/// A drop never promotes: a token played from hand keeps its kind.
pub proof fn lemma_drop_keeps_kind(s: Seq<Piece>, m: Move)
    requires
        wf(s),
        m.from < 8,
        m.to < 12,
        s[m.from as int].position == 12,
    ensures
        spec_play(s, m)[m.from as int].kind == s[m.from as int].kind,
{
    let to = m.to as u8;
    match capture_index(s, to) {
        Some(c) => {
            lemma_first_at_some(s, to, 0, c);
        },
        None => {},
    }
}

} // verus!
