use shogi::{Move, Position};

fn perft(pos: &mut Position, depth: usize) -> usize {
    if depth == 0 {
        return 1;
    }
    let mut cnt = 0;
    for m in pos.all_move_candidates(pos.side_to_move()) {
        if depth == 1 {
            if pos.is_legal(m) {
                cnt += 1;
            }
        } else if pos.make_move(m).is_ok() {
            cnt += perft(pos, depth - 1);
            pos.unmake_move().expect("failed to unmake a move");
        }
    }
    cnt
}

#[test]
fn start_position_has_thirty_legal_moves() {
    let mut pos = Position::new();
    pos.set_sfen("lnsgkgsnl/1r5b1/ppppppppp/9/9/9/PPPPPPPPP/1B5R1/LNSGKGSNL b - 1")
        .expect("failed to parse SFEN string");
    let candidates = pos.all_move_candidates(pos.side_to_move());
    assert_eq!(30, candidates.len());
    assert_eq!(30, candidates.iter().filter(|m| pos.is_legal(**m)).count());
}

#[test]
fn perft_two_plies() {
    let mut pos = Position::new();
    pos.set_sfen("l6nl/5+P1gk/2np1S3/p1p4Pp/3P2Sp1/1PPb2P1P/P5GS1/R8/LN4bKL w RGgsn5p 1")
        .expect("failed to parse SFEN string");
    assert_eq!(28684, perft(&mut pos, 2));
}

#[test]
fn legality_check_agrees_with_making_the_move() {
    let sfens = [
        "l6nl/5+P1gk/2np1S3/p1p4Pp/3P2Sp1/1PPb2P1P/P5GS1/R8/LN4bKL w GR5pnsg 1",
        "9/3r5/9/9/6B2/9/9/9/3K5 b P 1",
        "9/9/7sp/6ppk/9/7G1/9/9/9 b P 1",
        "7nk/9/7S1/6b2/9/9/9/9/9 b P 1",
    ];
    for sfen in sfens.iter() {
        let mut pos = Position::new();
        pos.set_sfen(sfen).expect("failed to parse SFEN string");
        for m in pos.all_move_candidates(pos.side_to_move()) {
            let mut after = pos.clone();
            assert_eq!(pos.is_legal(m), after.make_move(m).is_ok(), "{:?} in {}", m, sfen);
        }
    }
}

#[test]
fn candidates_promote_in_zone() {
    let mut pos = Position::new();
    pos.set_sfen("4k4/9/9/4P4/9/9/9/9/4K4 b - 1")
        .expect("failed to parse SFEN string");
    let moves = pos.all_move_candidates(pos.side_to_move());
    let pawn_moves: Vec<Move> = moves
        .iter()
        .filter(|m| matches!(m, Move::Normal { from, .. } if from.index() == 39))
        .cloned()
        .collect();
    assert_eq!(2, pawn_moves.len());
    assert!(matches!(pawn_moves[0], Move::Normal { promote: false, .. }));
    assert!(matches!(pawn_moves[1], Move::Normal { promote: true, .. }));
}

#[test]
fn drop_candidates_skip_unplaceable_squares() {
    let mut pos = Position::new();
    pos.set_sfen("4k4/9/9/9/9/9/9/9/4K4 b N 1")
        .expect("failed to parse SFEN string");
    let moves = pos.all_move_candidates(pos.side_to_move());
    let drops = moves.iter().filter(|m| matches!(m, Move::Drop { .. })).count();
    // A knight cannot be dropped on the two farthest ranks; two squares hold kings.
    assert_eq!(81 - 18 - 1, drops);
}

#[test]
fn candidates_hold_no_move_twice() {
    let mut pos = Position::new();
    pos.set_sfen("l6nl/5+P1gk/2np1S3/p1p4Pp/3P2Sp1/1PPb2P1P/P5GS1/R8/LN4bKL w GR5pnsg 1")
        .expect("failed to parse SFEN string");
    for c in [shogi::Color::Black, shogi::Color::White] {
        let v = pos.all_move_candidates(c);
        assert!(!v.is_empty());
        for i in 0..v.len() {
            for j in (i + 1)..v.len() {
                assert_ne!(v[i], v[j]);
            }
        }
    }
}
