use shogi::packed_state_info::{PackedStateInfo, SerializedStateInfo};
use shogi::{Color, Piece, PieceType, Position, Square};

fn all_squares() -> Vec<Square> {
    (0..81u8).map(|i| Square::from_index(i).unwrap()).collect()
}

#[test]
fn packed_position_roundtrip() {
    let test_cases = [
        "lnsgkgsnl/1r5b1/ppppppppp/9/9/9/PPPPPPPPP/1B5R1/LNSGKGSNL b - 1",
        "lnsgk+Lpnl/1p5+B1/p1+Pps1ppp/9/9/9/P+r1PPpPPP/1R7/LNSGKGSN1 w BGP2p 1024",
        "l6nl/5+P1gk/2np1S3/p1p4Pp/3P2Sp1/1PPb2P1P/P5GS1/R8/LN4bKL w GR5pnsg 1",
    ];

    for (i, &sfen) in test_cases.iter().enumerate() {
        let mut source_pos = Position::new();
        source_pos
            .set_sfen(sfen)
            .unwrap_or_else(|_| panic!("failed to parse SFEN at case #{i}"));

        let serialized = SerializedStateInfo::from_state_info(source_pos.state());
        let restored_state = serialized.to_state_info(1);
        let packed = PackedStateInfo::from_state_info(source_pos.state())
            .unwrap_or_else(|| panic!("failed to pack case #{i}"));
        let unpacked = packed.to_state_info(1);
        for s in all_squares() {
            assert_eq!(restored_state.piece_at(s), unpacked.piece_at(s));
        }

        for s in all_squares() {
            assert_eq!(
                source_pos.piece_at(s),
                restored_state.piece_at(s),
                "piece mismatch at {:?} in case #{i} (SFEN: {sfen})",
                s
            );
        }

        for pt in [
            PieceType::Rook,
            PieceType::Bishop,
            PieceType::Gold,
            PieceType::Silver,
            PieceType::Knight,
            PieceType::Lance,
            PieceType::Pawn,
        ] {
            for c in [Color::Black, Color::White] {
                let piece = Piece { piece_type: pt, color: c };
                assert_eq!(
                    source_pos.hand(piece),
                    restored_state.hand(piece),
                    "hand mismatch for {piece:?} in case #{i} (SFEN: {sfen})"
                );
            }
        }

        assert_eq!(
            source_pos.side_to_move(),
            restored_state.side_to_move(),
            "side_to_move mismatch in case #{i} (SFEN: {sfen})"
        );

        assert_eq!(
            source_pos.state().occupied_bb(),
            restored_state.occupied_bb(),
            "occupied_bb mismatch in case #{i} (SFEN: {sfen})"
        );
        for c in [Color::Black, Color::White] {
            assert_eq!(
                source_pos.player_bb(c),
                restored_state.player_bb(c),
                "color_bb[{c:?}] mismatch in case #{i} (SFEN: {sfen})"
            );
        }
    }
}
