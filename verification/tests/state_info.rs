use shogi::packed_state_info::{PackedStateInfo, SerializedStateInfo};
use shogi::{Color, Piece, PieceType, Position, Square, StateInfo};

fn sq(name: &str) -> Square {
    let cs: Vec<char> = name.chars().collect();
    Square::from_sfen(cs[0], cs[1]).unwrap()
}

fn all_squares() -> Vec<Square> {
    (0..81u8).map(|i| Square::from_index(i).unwrap()).collect()
}

#[test]
fn in_check() {
    let test_cases = [
        ("lnsgkgsnl/1r5b1/ppppppppp/9/9/9/PPPPPPPPP/1B5R1/LNSGKGSNL b - 1", false, false),
        ("9/3r5/9/9/6B2/9/9/9/3K5 b P 1", true, false),
        (
            "ln2r1knl/2gb1+Rg2/4Pp1p1/p1pp1sp1p/1N2pN1P1/2P2PP2/PP1G1S2R/1SG6/LK6L w 2PSp 1",
            false,
            true,
        ),
        ("lnsg1gsnl/1r5b1/ppppppppp/9/9/9/PPPPPPPPP/1B5R1/LNSG1GSNL b - 1", false, false),
    ];

    let mut state = StateInfo::default();
    for case in test_cases.iter() {
        state.set_sfen(case.0).expect("failed to parse SFEN string");
        assert_eq!(case.1, state.in_check(Color::Black));
        assert_eq!(case.2, state.in_check(Color::White));
    }
}

#[test]
fn find_king() {
    let test_cases = [
        (
            "lnsgkgsnl/1r5b1/ppppppppp/9/9/9/PPPPPPPPP/1B5R1/LNSGKGSNL b - 1",
            Some(sq("5i")),
            Some(sq("5a")),
        ),
        ("9/3r5/9/9/6B2/9/9/9/3K5 b P 1", Some(sq("6i")), None),
        (
            "ln2r1knl/2gb1+Rg2/4Pp1p1/p1pp1sp1p/1N2pN1P1/2P2PP2/PP1G1S2R/1SG6/LK6L w 2PSp 1",
            Some(sq("8i")),
            Some(sq("3a")),
        ),
        ("lnsg1gsnl/1r5b1/ppppppppp/9/9/9/PPPPPPPPP/1B5R1/LNSG1GSNL b - 1", None, None),
    ];

    let mut state = StateInfo::default();
    for case in test_cases.iter() {
        state.set_sfen(case.0).expect("failed to parse SFEN string");
        assert_eq!(case.1, state.find_king(Color::Black));
        assert_eq!(case.2, state.find_king(Color::White));
    }
}

#[test]
fn player_bb() {
    let cases: Vec<(&str, Vec<Square>, Vec<Square>)> = vec![
        (
            "R6gk/9/8p/9/4p4/9/9/8L/B8 b - 1",
            vec![sq("9a"), sq("1h"), sq("9i")],
            vec![sq("2a"), sq("1a"), sq("1c"), sq("5e")],
        ),
        ("9/3r5/9/9/6B2/9/9/9/3K5 b P 1", vec![sq("3e"), sq("6i")], vec![sq("6b")]),
    ];

    let mut state = StateInfo::default();
    for case in cases.iter() {
        state.set_sfen(case.0).expect("failed to parse SFEN string");
        let black = state.player_bb(Color::Black);
        let white = state.player_bb(Color::White);

        assert_eq!(case.1.len(), black.count() as usize);
        for s in case.1.iter() {
            assert!(black.contains(*s));
        }

        assert_eq!(case.2.len(), white.count() as usize);
        for s in case.2.iter() {
            assert!(white.contains(*s));
        }
    }
}

#[test]
fn pinned_bb() {
    let cases: Vec<(&str, Vec<Square>, Vec<Square>)> = vec![(
        "R6gk/9/8p/9/4p4/9/9/8L/B8 b - 1",
        vec![],
        vec![sq("2a"), sq("1c"), sq("5e")],
    )];

    let mut state = StateInfo::default();
    for case in cases.iter() {
        state.set_sfen(case.0).expect("failed to parse SFEN string");
        let black = state.pinned_bb(Color::Black);
        let white = state.pinned_bb(Color::White);

        assert_eq!(case.1.len(), black.count() as usize);
        for s in case.1.iter() {
            assert!(black.contains(*s));
        }

        assert_eq!(case.2.len(), white.count() as usize);
        for s in case.2.iter() {
            assert!(white.contains(*s));
        }
    }
}

#[test]
fn move_candidates() {
    let mut state = StateInfo::default();
    state
        .set_sfen("lnsgkgsnl/1r5b1/ppppppppp/9/9/9/PPPPPPPPP/1B5R1/LNSGKGSNL b - 1")
        .expect("failed to parse SFEN string");

    let mut sum = 0;
    for s in all_squares() {
        let pc = state.piece_at(s);

        if let Some(pc) = *pc {
            if pc.color == state.side_to_move() {
                sum += state.move_candidates(s, pc).count();
            }
        }
    }

    assert_eq!(30, sum);
}

#[test]
fn try_declare_winning() {
    let mut state = StateInfo::default();

    state
        .set_sfen("lnsgkgsnl/1r5b1/ppppppppp/9/9/9/PPPPPPPPP/1B5R1/LNSGKGSNL b - 1")
        .expect("failed to parse SFEN string");
    assert!(!state.try_declare_winning(Color::Black));
    assert!(!state.try_declare_winning(Color::White));

    state
        .set_sfen("1K7/+NG+N+NGG3/P+S+P+P+PS3/9/7s1/9/+b+rppp+p+s1+p/3+p1+bk2/9 b R4L7Pgnp 1")
        .expect("failed to parse SFEN string");
    assert!(state.try_declare_winning(Color::Black));
    assert!(!state.try_declare_winning(Color::White));

    state
        .set_sfen("1K6l/1+N7/+PG2+Ns1p1/2+N5p/6p2/3+b4P/4+p+p+bs1/+r1s4+lk/1g1g3+r1 w Gns2l11p 1")
        .expect("failed to parse SFEN string");
    assert!(!state.try_declare_winning(Color::Black));
    assert!(state.try_declare_winning(Color::White));

    state
        .set_sfen("1K6l/1+N7/+PG2+Ns1p1/2+N5p/6p2/3+b4P/4+p+p+bs1/+r1s4+lk/1g1g3+r1 b Gns2l11p 1")
        .expect("failed to parse SFEN string");
    assert!(!state.try_declare_winning(Color::Black));
    assert!(!state.try_declare_winning(Color::White));

    state
        .set_sfen("1K6l/1+N7/+PG2+Ns1p1/2+N5p/6p2/3+b4P/4+p+p+bs1/+r1s4+l1/1g1g3+r1 b Gns2l11p 1")
        .expect("failed to parse SFEN string");
    assert!(!state.try_declare_winning(Color::Black));
    assert!(!state.try_declare_winning(Color::White));

    state
        .set_sfen("1K6l/1+N7/+PG2+Ns1p1/2+N5p/6p2/1k1+b4P/4+p+p+bs1/+r1s4+l1/1g1g3+r1 b Gns2l11p 1")
        .expect("failed to parse SFEN string");
    assert!(!state.try_declare_winning(Color::Black));
    assert!(!state.try_declare_winning(Color::White));
}

#[test]
fn packed_words_of_start_position() {
    let mut state = StateInfo::default();
    state
        .set_sfen("lnsgkgsnl/1r5b1/ppppppppp/9/9/9/PPPPPPPPP/1B5R1/LNSGKGSNL b - 1")
        .expect("failed to parse SFEN string");
    let packed = PackedStateInfo::from_state_info(&state).expect("the start position packs");
    let restored = packed.to_state_info(7);
    assert_eq!(7, restored.ply());
    assert_eq!(
        "lnsgkgsnl/1r5b1/ppppppppp/9/9/9/PPPPPPPPP/1B5R1/LNSGKGSNL b - 7",
        restored.generate_sfen()
    );
    let again = PackedStateInfo::from_state_info(&restored).expect("the restored state packs");
    assert_eq!(packed, again);
}

#[test]
fn packing_refused() {
    let mut state = StateInfo::default();
    // A king is missing.
    state
        .set_sfen("lnsg1gsnl/1r5b1/ppppppppp/9/9/9/PPPPPPPPP/1B5R1/LNSGKGSNL b - 1")
        .expect("failed to parse SFEN string");
    assert!(PackedStateInfo::from_state_info(&state).is_none());
    // Not a full set of pieces.
    state
        .set_sfen("4k4/9/9/9/9/9/9/9/4K4 b - 1")
        .expect("failed to parse SFEN string");
    assert!(PackedStateInfo::from_state_info(&state).is_none());
    let serialized = SerializedStateInfo::from_state_info(&state);
    assert_eq!("4k4/9/9/9/9/9/9/9/4K4 b -", serialized.to_sfen());
    // A full set, all in hand but the kings.
    state
        .set_sfen("4k4/9/9/9/9/9/9/9/4K4 b 2R2B4G4S4N4L18P 1")
        .expect("failed to parse SFEN string");
    let packed = PackedStateInfo::from_state_info(&state).expect("a full set packs");
    let restored = packed.to_state_info(1);
    assert_eq!("4k4/9/9/9/9/9/9/9/4K4 b 2R2B4G4S4N4L18P 1", restored.generate_sfen());
    // More than 40 pieces on the board.
    state
        .set_sfen("lnsgkgsnl/1r5b1/ppppppppp/9/9/PPPPPPPPP/PPPPPPPPP/1B5R1/LNSGKGSNL w - 1")
        .expect("failed to parse SFEN string");
    assert!(PackedStateInfo::from_state_info(&state).is_none());
}

#[test]
fn serialized_to_sfen() {
    let mut state = StateInfo::default();
    state
        .set_sfen("lnsgk+Lpnl/1p5+B1/p1+Pps1ppp/9/9/9/P+r1PPpPPP/1R7/LNSGKGSN1 w BGP2p 1024")
        .expect("failed to parse SFEN string");
    let serialized = SerializedStateInfo::from_state_info(&state);
    assert!(matches!(serialized, SerializedStateInfo::Packed(_)));
    assert_eq!("lnsgk+Lpnl/1p5+B1/p1+Pps1ppp/9/9/9/P+r1PPpPPP/1R7/LNSGKGSN1 w BGP2p", serialized.to_sfen());
}
