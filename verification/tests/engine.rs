use shogi::model::{Kind, Move, Piece, Pieces};
use shogi::movegen::possible_moves;
use shogi::apply::play_move;
use shogi::eval::evaluate_position;
use shogi::encode::encode_pieces;
use shogi::search::{alphabeta, mate_value, minimax, Table};
use shogi::root::{pieces_eq, shogi_ai};

fn piece(kind: Kind, position: u8, owner: bool) -> Piece {
    Piece { kind, position, owner }
}

/// The standard initial setup: each side's home rank holds elephant, lion,
/// giraffe, with the pawn-like chick in front of the lion.
fn initial() -> Pieces {
    [
        piece(Kind::Elephant, 11, false),
        piece(Kind::Lion, 10, false),
        piece(Kind::Giraffe, 9, false),
        piece(Kind::Chick, 7, false),
        piece(Kind::Elephant, 0, true),
        piece(Kind::Lion, 1, true),
        piece(Kind::Giraffe, 2, true),
        piece(Kind::Chick, 4, true),
    ]
}

fn is_wf(p: &Pieces) -> bool {
    for i in 0..8 {
        if p[i].position > 12 {
            return false;
        }
        for j in 0..8 {
            if i != j && p[i].position < 12 && p[i].position == p[j].position {
                return false;
            }
        }
    }
    true
}

#[test]
fn initial_moves_of_each_side() {
    let p = initial();
    let up = possible_moves(&p, true);
    assert_eq!(up.len(), 4);
    for m in &up {
        assert!(m.from >= 4 && m.from < 8);
        assert!(p[m.from].position < 12);
    }
    assert!(up.iter().any(|m| m.from == 7 && m.to == 7));
    let down = possible_moves(&p, false);
    assert_eq!(down.len(), 4);
    for m in &down {
        assert!(m.from < 4);
    }
    assert!(down.iter().any(|m| m.from == 3 && m.to == 4));
}

#[test]
fn drops_only_from_canonical_token() {
    // both pawn-like tokens captured and held by the same side: only the
    // original index below four may emit drop moves
    let p = [
        piece(Kind::Elephant, 11, false),
        piece(Kind::Lion, 10, false),
        piece(Kind::Giraffe, 9, false),
        piece(Kind::Chick, 12, false),
        piece(Kind::Elephant, 0, true),
        piece(Kind::Lion, 1, true),
        piece(Kind::Giraffe, 2, true),
        piece(Kind::Chick, 12, false),
    ];
    let moves = possible_moves(&p, false);
    let drops: Vec<&Move> = moves.iter().filter(|m| p[m.from].position == 12).collect();
    // six empty squares, one set of drops
    assert_eq!(drops.len(), 6);
    for d in &drops {
        assert_eq!(d.from, 3);
        assert!(p.iter().all(|q| q.position != d.to as u8));
    }
}

#[test]
fn capture_flips_owner_and_sends_to_hand() {
    let p = initial();
    // the pawn-like piece of the side to move captures the enemy's
    let m = Move { from: 7, to: 7 };
    let after = play_move(&p, m);
    assert_eq!(after[7].position, 7);
    assert_eq!(after[3].position, 12);
    assert!(after[3].owner);
    assert_eq!(after[3].kind, Kind::Chick);
    assert!(is_wf(&after));
}

#[test]
fn capturing_a_promoted_pawn_demotes_it() {
    // a promoted pawn next to the enemy royal piece is captured: it arrives
    // in the capturer's hand as a pawn-like piece; dropped and captured
    // again, it stays pawn-like
    let p = [
        piece(Kind::Elephant, 11, false),
        piece(Kind::Lion, 10, false),
        piece(Kind::Giraffe, 9, false),
        piece(Kind::Chick, 4, false),
        piece(Kind::Elephant, 0, true),
        piece(Kind::Lion, 1, true),
        piece(Kind::Giraffe, 2, true),
        piece(Kind::Hen, 7, true),
    ];
    let captured = play_move(&p, Move { from: 1, to: 7 });
    assert_eq!(captured[7].position, 12);
    assert!(!captured[7].owner);
    assert_eq!(captured[7].kind, Kind::Chick);
    // drop it back: a drop never promotes
    let dropped = play_move(&captured, Move { from: 7, to: 6 });
    assert_eq!(dropped[7].position, 6);
    assert_eq!(dropped[7].kind, Kind::Chick);
    // captured once more: still pawn-like
    let recaptured = play_move(&dropped, Move { from: 5, to: 6 });
    assert_eq!(recaptured[7].position, 12);
    assert_eq!(recaptured[7].kind, Kind::Chick);
    assert!(recaptured[7].owner);
}

#[test]
fn pawn_promotes_on_entering_far_rank() {
    let p = [
        piece(Kind::Elephant, 11, false),
        piece(Kind::Lion, 10, false),
        piece(Kind::Giraffe, 0, false),
        piece(Kind::Chick, 4, false),
        piece(Kind::Elephant, 2, true),
        piece(Kind::Lion, 1, true),
        piece(Kind::Giraffe, 5, true),
        piece(Kind::Chick, 6, true),
    ];
    // the advancing side's pawn-like piece steps from row two into row three
    let after = play_move(&p, Move { from: 7, to: 9 });
    assert_eq!(after[7].kind, Kind::Hen);
    assert_eq!(after[7].position, 9);
    // the other side's pawn moving toward row zero promotes below square 3
    let q = play_move(&p, Move { from: 3, to: 1 });
    assert_eq!(q[3].kind, Kind::Hen);
    // the enemy royal piece on square 1 was captured on the way
    assert_eq!(q[5].position, 12);
}

#[test]
fn every_generated_move_keeps_the_position_well_formed() {
    let p = initial();
    for turn in [false, true] {
        for m in possible_moves(&p, turn) {
            let after = play_move(&p, m);
            assert!(is_wf(&after));
            assert_eq!(after[m.from].position, m.to as u8);
            assert_eq!(after[m.from].owner, turn);
        }
    }
}

#[test]
fn evaluation_of_the_initial_position_is_balanced() {
    assert_eq!(evaluate_position(&initial()), 0);
}

#[test]
fn evaluation_counts_material_and_mobility() {
    // only the two royal pieces on the board: material cancels; one royal
    // reaches eight squares, the other five, one of them enemy-held squares
    // still counting
    let p = [
        piece(Kind::Elephant, 12, false),
        piece(Kind::Lion, 4, false),
        piece(Kind::Giraffe, 12, false),
        piece(Kind::Chick, 12, false),
        piece(Kind::Elephant, 12, true),
        piece(Kind::Lion, 1, true),
        piece(Kind::Giraffe, 12, true),
        piece(Kind::Chick, 12, true),
    ];
    assert_eq!(evaluate_position(&p), 3);
}

#[test]
fn encoding_separates_turn_and_promotion() {
    let p = initial();
    assert_ne!(encode_pieces(&p, true), encode_pieces(&p, false));
    assert_eq!(encode_pieces(&p, true), encode_pieces(&p, true));
    let mut promoted = p;
    promoted[3].kind = Kind::Hen;
    assert_ne!(encode_pieces(&p, true), encode_pieces(&promoted, true));
    let mut moved = p;
    moved[7].position = 7;
    moved[3].position = 12;
    assert_ne!(encode_pieces(&p, true), encode_pieces(&moved, true));
}

#[test]
fn encoding_packs_five_bits_per_token() {
    // eight identical in-hand tokens: each contributes the code 12, so the
    // key is 12 * (32^8 + ... + 32), with the turn and promotion flags in
    // the low bits
    let p = [piece(Kind::Chick, 12, false); 8];
    assert_eq!(encode_pieces(&p, false), 13619756937600);
    assert_eq!(encode_pieces(&p, true), 13619756937601);
    let mut q = p;
    q[3].kind = Kind::Hen;
    assert_eq!(encode_pieces(&q, false), 13619756937602);
    q[7].kind = Kind::Hen;
    assert_eq!(encode_pieces(&q, false), 13619756937606);
}

#[test]
fn pruned_search_equals_full_minimax() {
    let p = initial();
    for turn in [false, true] {
        let mut table: Table = Table::new();
        let pruned = alphabeta(&mut table, 3, turn, i32::MIN, i32::MAX, p);
        let full = minimax(3, turn, p);
        assert_eq!(pruned, full);
    }
}

#[test]
fn root_selector_returns_a_board_move_from_the_initial_setup() {
    let p = initial();
    for turn in [false, true] {
        let m = shogi_ai(p, vec![], 4, turn);
        assert!(m.from < 8);
        assert!(m.to < 12);
        assert_eq!(p[m.from].owner, turn);
        assert!(p[m.from].position < 12);
    }
}

#[test]
fn engine_takes_the_immediate_win() {
    // the side to move can capture the enemy royal piece outright
    let p = [
        piece(Kind::Elephant, 11, false),
        piece(Kind::Lion, 10, false),
        piece(Kind::Giraffe, 4, false),
        piece(Kind::Chick, 12, false),
        piece(Kind::Elephant, 0, true),
        piece(Kind::Lion, 1, true),
        piece(Kind::Giraffe, 2, true),
        piece(Kind::Chick, 5, true),
    ];
    let m = shogi_ai(p, vec![], 2, false);
    assert_eq!(m.from, 2);
    assert_eq!(m.to, 1);
    let after = play_move(&p, m);
    assert_eq!(after[5].position, 12);
}

#[test]
fn root_selector_is_deterministic() {
    let p = initial();
    let m1 = shogi_ai(p, vec![], 3, true);
    let m2 = shogi_ai(p, vec![], 3, true);
    assert_eq!(m1.from, m2.from);
    assert_eq!(m1.to, m2.to);
}

#[test]
fn root_selector_never_repeats_while_a_novel_move_exists() {
    let p = initial();
    for m in possible_moves(&p, true) {
        // forbid exactly this move's successor; some other legal move stays
        let seen = play_move(&p, m);
        let choice = shogi_ai(p, vec![seen], 3, true);
        let successor = play_move(&p, choice);
        assert!(!pieces_eq(&successor, &seen));
    }
}

#[test]
fn root_selector_works_at_depth_one() {
    let p = initial();
    let m = shogi_ai(p, vec![], 1, false);
    assert!(m.from < 4);
}

#[test]
fn try_rule_is_terminal_at_every_depth() {
    // the side to move's royal piece already stands in the opponent's
    // farthest rank band: an immediate win at any depth, no moves searched
    let p = [
        piece(Kind::Elephant, 11, false),
        piece(Kind::Lion, 0, false),
        piece(Kind::Giraffe, 9, false),
        piece(Kind::Chick, 7, false),
        piece(Kind::Elephant, 5, true),
        piece(Kind::Lion, 4, true),
        piece(Kind::Giraffe, 2, true),
        piece(Kind::Chick, 6, true),
    ];
    for depth in 0u8..5 {
        let mut table: Table = Table::new();
        let score = alphabeta(&mut table, depth, false, i32::MIN, i32::MAX, p);
        assert_eq!(score, 100000 + depth as i32);
        assert_eq!(minimax(depth, false, p), 100000 + depth as i32);
    }
}

#[test]
fn captured_royal_is_terminal() {
    let mut p = initial();
    p[1].position = 12;
    for depth in 0u8..4 {
        let mut table: Table = Table::new();
        // the side whose royal piece is gone has lost, whoever moves
        assert_eq!(
            alphabeta(&mut table, depth, false, i32::MIN, i32::MAX, p),
            -100000 - depth as i32
        );
        let mut table2: Table = Table::new();
        assert_eq!(
            alphabeta(&mut table2, depth, true, i32::MIN, i32::MAX, p),
            -100000 - depth as i32
        );
    }
}

#[test]
fn nearer_wins_outrank_deeper_wins() {
    assert!(mate_value(false, 4) > mate_value(false, 2));
    assert!(mate_value(false, 2) > 0);
    assert!(mate_value(true, 4) < mate_value(true, 2));
    assert!(mate_value(true, 2) < 0);
    assert_eq!(mate_value(false, 3), 100003);
    assert_eq!(mate_value(true, 3), -100003);
}
