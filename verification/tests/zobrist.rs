use shogi::zobrist::Zobrist;
use shogi::{Color, Piece, PieceType, Square};

fn sq(name: &str) -> Square {
    let cs: Vec<char> = name.chars().collect();
    Square::from_sfen(cs[0], cs[1]).unwrap()
}

#[test]
fn test_zobrist_init() {
    let z = Zobrist::init();

    let black_pawn = Piece { piece_type: PieceType::Pawn, color: Color::Black };
    let white_pawn = Piece { piece_type: PieceType::Pawn, color: Color::White };
    let black_rook = Piece { piece_type: PieceType::Rook, color: Color::Black };

    assert_ne!(z.board_hash(black_pawn, sq("5e")), z.board_hash(white_pawn, sq("5e")));
    assert_ne!(z.board_hash(black_pawn, sq("5e")), z.board_hash(black_rook, sq("5e")));

    assert_ne!(z.board_hash(black_pawn, sq("5e")), z.board_hash(black_pawn, sq("5f")));

    assert_ne!(z.hand_hash(black_pawn, 0), z.hand_hash(black_pawn, 1));
    assert_ne!(z.hand_hash(black_pawn, 1), z.hand_hash(black_pawn, 2));
}
