use shogi::{Color, Hand, Move, MoveError, Piece, PieceType, Position, SfenError, Square};

fn sq(name: &str) -> Square {
    let cs: Vec<char> = name.chars().collect();
    Square::from_sfen(cs[0], cs[1]).unwrap()
}

const START: &str = "lnsgkgsnl/1r5b1/ppppppppp/9/9/9/PPPPPPPPP/1B5R1/LNSGKGSNL b - 1";

#[test]
fn sfen_errors() {
    let mut pos = Position::new();
    assert_eq!(Err(SfenError::MissingDataFields), pos.set_sfen(""));
    assert_eq!(Err(SfenError::MissingDataFields), pos.set_sfen("9/9/9/9/9/9/9/9/9 b -"));
    assert_eq!(Err(SfenError::IllegalPieceType), pos.set_sfen("9/9/9/9/4x4/9/9/9/9 b - 1"));
    assert_eq!(Err(SfenError::IllegalPieceType), pos.set_sfen("9/9/9/9/4+G4/9/9/9/9 b - 1"));
    assert_eq!(Err(SfenError::IllegalPieceType), pos.set_sfen("9/9/9/9/9/9/9/9/9 b x 1"));
    assert_eq!(Err(SfenError::IllegalSideToMove), pos.set_sfen("9/9/9/9/9/9/9/9/9 c - 1"));
    assert_eq!(Err(SfenError::IllegalPlyNumber), pos.set_sfen("9/9/9/9/9/9/9/9/9 b - x"));
    assert_eq!(Err(SfenError::IllegalBoardState), pos.set_sfen("9/9/9/9/9/9/9/9/9/9 b - 1"));
    assert_eq!(Err(SfenError::IllegalBoardState), pos.set_sfen("91/9/9/9/9/9/9/9/9 b - 1"));
    assert_eq!(Err(SfenError::IllegalMove), pos.set_sfen(&format!("{} moves 7g7z", START)));
}

#[test]
fn moves_after_sfen_are_played_until_one_fails() {
    let mut pos = Position::new();
    pos.set_sfen(&format!("{} moves 7g7f 3c3d 7f7e 7e7a", START))
        .expect("failed to parse SFEN string");
    assert_eq!(3, pos.move_history().len());
    assert_eq!(format!("{} moves 7g7f 3c3d 7f7e", START), pos.to_sfen());
    assert_eq!(4, pos.ply());
}

#[test]
fn move_records_read_as_sfen() {
    let mut pos = Position::new();
    pos.set_sfen("lnsgkgsnl/1r5b1/ppppppppp/9/9/9/PPPPPPPPP/1B5R1/LNSGKGSNL b P 1")
        .expect("failed to parse SFEN string");
    pos.make_move(Move::Normal { from: sq("7g"), to: sq("7f"), promote: false }).unwrap();
    pos.make_move(Move::Normal { from: sq("3c"), to: sq("3d"), promote: false }).unwrap();
    pos.make_move(Move::Normal { from: sq("8h"), to: sq("2b"), promote: true }).unwrap();
    assert_eq!("7g7f", pos.move_history()[0].to_sfen());
    assert_eq!("3c3d", pos.move_history()[1].to_sfen());
    assert_eq!("8h2b+", pos.move_history()[2].to_sfen());
    assert!(pos.move_history()[2].matches_move(&Move::Normal { from: sq("8h"), to: sq("2b"), promote: true }));
    assert!(!pos.move_history()[2].matches_move(&Move::Normal { from: sq("8h"), to: sq("2b"), promote: false }));
}

#[test]
fn move_errors() {
    let mut pos = Position::new();
    // Leaving the king in check.
    pos.set_sfen("9/3r5/9/9/6B2/9/9/9/3K5 b P 1").unwrap();
    assert_eq!(Err(MoveError::InCheck), pos.make_move(Move::Normal { from: sq("6i"), to: sq("6h"), promote: false }));
    // A second pawn on a file.
    pos.set_sfen("4k4/9/9/9/4P4/9/9/9/4K4 b P 1").unwrap();
    assert_eq!(Err(MoveError::Nifu), pos.make_move(Move::Drop { to: sq("5c"), piece_type: PieceType::Pawn }));
    // Mate by a pawn drop.
    pos.set_sfen("9/9/7sp/6ppk/9/7G1/9/9/9 b P 1").unwrap();
    assert_eq!(Err(MoveError::Uchifuzume), pos.make_move(Move::Drop { to: sq("1e"), piece_type: PieceType::Pawn }));
    // A piece that could never move again.
    pos.set_sfen("4k4/9/9/9/9/9/9/9/4K4 b N 1").unwrap();
    assert_eq!(
        Err(MoveError::NonMovablePiece),
        pos.make_move(Move::Drop { to: sq("1b"), piece_type: PieceType::Knight })
    );
    // Moving a piece of the other side, or from an empty square.
    pos.set_sfen(START).unwrap();
    assert!(matches!(
        pos.make_move(Move::Normal { from: sq("3c"), to: sq("3d"), promote: false }),
        Err(MoveError::Inconsistent(_))
    ));
    assert!(matches!(
        pos.make_move(Move::Normal { from: sq("5e"), to: sq("5d"), promote: false }),
        Err(MoveError::Inconsistent(_))
    ));
    // A drop of a piece not in hand.
    assert!(matches!(
        pos.make_move(Move::Drop { to: sq("5e"), piece_type: PieceType::Pawn }),
        Err(MoveError::Inconsistent(_))
    ));
}

#[test]
fn unmake_without_history_does_nothing() {
    let mut pos = Position::new();
    pos.set_sfen(START).unwrap();
    assert_eq!(Ok(()), pos.unmake_move());
    assert_eq!(START, pos.to_sfen());
}

#[test]
fn make_then_unmake_restores_the_position() {
    let mut pos = Position::new();
    pos.set_sfen("l6nl/5+P1gk/2np1S3/p1p4Pp/3P2Sp1/1PPb2P1P/P5GS1/R8/LN4bKL w GR5pnsg 1").unwrap();
    let before = pos.state().generate_sfen();
    for m in pos.all_move_candidates(pos.side_to_move()) {
        if pos.make_move(m).is_ok() {
            pos.unmake_move().expect("failed to unmake a move");
            assert_eq!(before, pos.state().generate_sfen());
        }
    }
}

#[test]
fn pieces_flip_and_promote_back() {
    for pt in [
        PieceType::Rook,
        PieceType::Bishop,
        PieceType::Silver,
        PieceType::Knight,
        PieceType::Lance,
        PieceType::Pawn,
    ] {
        let promoted = pt.promote().unwrap();
        assert_eq!(Some(pt), promoted.unpromote());
    }
    assert_eq!(None, PieceType::Gold.promote());
    assert_eq!(None, PieceType::King.promote());
    let p = Piece { piece_type: PieceType::Lance, color: Color::Black };
    assert_eq!(p, p.flip().flip());
    assert_eq!(Color::White, p.flip().color);
    assert_eq!(Color::Black, Color::Black.flip().flip());
}

#[test]
fn hand_counts_step_up_and_down() {
    let mut hand = Hand::new();
    let p = Piece { piece_type: PieceType::Silver, color: Color::White };
    hand.increment(p);
    hand.increment(p);
    assert_eq!(2, hand.get(p));
    hand.decrement(p);
    assert_eq!(1, hand.get(p));
    hand.set(p, 4);
    assert_eq!(4, hand.get(p));
    // A king cannot be held.
    let k = Piece { piece_type: PieceType::King, color: Color::Black };
    hand.set(k, 3);
    assert_eq!(0, hand.get(k));
}

#[test]
fn declaring_needs_the_king_in_the_zone() {
    let mut pos = Position::new();
    pos.set_sfen("1K7/+NG+N+NGG3/P+S+P+P+PS3/9/7s1/9/+b+rppp+p+s1+p/3+p1+bk2/9 b R4L7Pgnp 1").unwrap();
    assert!(pos.try_declare_winning(Color::Black));
    assert!(!pos.try_declare_winning(Color::White));
}

#[test]
fn generated_sfen_reads_back() {
    let texts = [
        START,
        "lnsgk+Lpnl/1p5+B1/p1+Pps1ppp/9/9/9/P+r1PPpPPP/1R7/LNSGKGSN1 w BGP2p 1024",
        "4k4/9/9/9/9/9/9/9/4K4 b 2R2B4G4S4N4L18P 65535",
        "4k4/9/9/9/9/9/9/9/4K4 w 2r2b4g4s4n4l18p 12",
    ];
    for text in texts.iter() {
        let mut state = shogi::StateInfo::new();
        state.set_sfen(text).expect("failed to parse SFEN string");
        let generated = state.generate_sfen();
        assert_eq!(*text, generated);
        let mut again = shogi::StateInfo::new();
        again.set_sfen(&generated).expect("failed to parse generated SFEN");
        assert_eq!(generated, again.generate_sfen());
    }
}

#[test]
fn failed_sfen_keeps_fields_read_before() {
    let mut pos = Position::new();
    // The board is read, then the side to move is refused: the board stays.
    assert_eq!(Err(SfenError::IllegalSideToMove), pos.set_sfen("4k4/9/9/9/9/9/9/9/4K4 x - 1"));
    assert_eq!(Some(Piece { piece_type: PieceType::King, color: Color::White }), *pos.piece_at(sq("5a")));
    assert_eq!(Color::Black, pos.side_to_move());
    // The hand field is read up to a letter that names no piece.
    assert_eq!(Err(SfenError::IllegalPieceType), pos.set_sfen("4k4/9/9/9/9/9/9/9/4K4 w 2Px 7"));
    assert_eq!(Color::White, pos.side_to_move());
    assert_eq!(2, pos.hand(Piece { piece_type: PieceType::Pawn, color: Color::Black }));
    assert_eq!(1, pos.ply());
    // A board field with short rows leaves the squares it does not cover as they were.
    pos.set_sfen(START).unwrap();
    pos.set_sfen("9 b - 1").unwrap();
    assert_eq!(None, *pos.piece_at(sq("5a")));
    assert_eq!(Some(Piece { piece_type: PieceType::Pawn, color: Color::Black }), *pos.piece_at(sq("7g")));
}

#[test]
fn sfen_text_grows_by_one_move_at_a_time() {
    let mut pos = Position::new();
    assert_eq!("9/9/9/9/9/9/9/9/9 b - 1", pos.to_sfen());
    pos.set_sfen(START).unwrap();
    assert_eq!(START, pos.to_sfen());
    pos.make_move(Move::Normal { from: sq("7g"), to: sq("7f"), promote: false }).unwrap();
    assert_eq!(format!("{} moves 7g7f", START), pos.to_sfen());
    pos.make_move(Move::Normal { from: sq("3c"), to: sq("3d"), promote: false }).unwrap();
    assert_eq!(format!("{} moves 7g7f 3c3d", START), pos.to_sfen());
}
