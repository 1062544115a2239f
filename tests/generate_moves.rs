use oxide::board::Board;
use oxide::chess_move::{Move, MoveFlag};
use oxide::definitions::{Piece, Side, Square};
use oxide::fen::{board_to_fen, fen_to_board};
use oxide::generate_moves::{
    is_in_check, is_square_threatened, legal_moves, loud_moves, quiet_moves, MoveContainer,
};
use oxide::perft::perft;

fn moves_of(fen: &str) -> Vec<Move> {
    let board = fen_to_board(fen).unwrap();
    let mut moves: Vec<Move> = vec![];
    legal_moves(&board, &mut moves);
    moves
}

fn has(moves: &[Move], from: Square, to: Square, flag: MoveFlag) -> bool {
    moves
        .iter()
        .any(|m| m.from == from && m.to == to && m.flag == flag)
}

#[test]
fn perft_depth_zero_is_one() {
    for fen in [
        "rnbqkbnr/pppppppp/8/8/8/8/PPPPPPPP/RNBQKBNR w KQkq - 0 1",
        "7k/6Q1/6K1/8/8/8/8/8 b - - 0 1",
    ] {
        let board = fen_to_board(fen).unwrap();
        assert_eq!(perft(&board, 0), 1);
    }
}

#[test]
fn perft_initial_position() {
    let board =
        fen_to_board("rnbqkbnr/pppppppp/8/8/8/8/PPPPPPPP/RNBQKBNR w KQkq - 0 1").unwrap();
    assert_eq!(perft(&board, 1), 20);
    assert_eq!(perft(&board, 2), 400);
    assert_eq!(perft(&board, 3), 8902);
}

#[test]
fn perft_kiwipete() {
    let board = fen_to_board(
        "r3k2r/p1ppqpb1/bn2pnp1/3PN3/1p2P3/2N2Q1p/PPPBBPPP/R3K2R w KQkq - 0 1",
    )
    .unwrap();
    assert_eq!(perft(&board, 1), 48);
    assert_eq!(perft(&board, 2), 2039);
}

#[test]
fn perft_position_three() {
    let board = fen_to_board("8/2p5/3p4/KP5r/1R3p1k/8/4P1P1/8 w - - 0 11").unwrap();
    assert_eq!(perft(&board, 1), 14);
    assert_eq!(perft(&board, 2), 191);
    assert_eq!(perft(&board, 3), 2812);
}

#[test]
fn perft_position_four() {
    let board = fen_to_board(
        "r3k2r/Pppp1ppp/1b3nbN/nP6/BBP1P3/q4N2/Pp1P2PP/R2Q1RK1 w kq - 0 1",
    )
    .unwrap();
    assert_eq!(perft(&board, 1), 6);
    assert_eq!(perft(&board, 2), 264);
    assert_eq!(perft(&board, 3), 9467);
}

#[test]
fn perft_castling_position() {
    let board = fen_to_board("r3k2r/8/8/8/8/8/8/R3K2R w KQkq - 0 1").unwrap();
    assert_eq!(perft(&board, 1), 26);
    assert_eq!(perft(&board, 2), 568);
}

#[test]
fn perft_small_endgames() {
    let board = fen_to_board("4k3/8/8/8/8/8/8/4K2R w K - 0 1").unwrap();
    assert_eq!(perft(&board, 1), 15);
    assert_eq!(perft(&board, 2), 66);
    let board = fen_to_board("K1k5/8/P7/8/8/8/8/8 w - - 0 1").unwrap();
    assert_eq!(perft(&board, 6), 2217);
}

#[test]
fn checkmate_has_no_moves() {
    let board = fen_to_board("7k/6Q1/6K1/8/8/8/8/8 b - - 0 1").unwrap();
    let mut moves: Vec<Move> = vec![];
    legal_moves(&board, &mut moves);
    assert!(moves.is_empty());
    assert!(is_in_check(&board, Side::Black));
}

#[test]
fn stalemate_has_no_moves() {
    let board = fen_to_board("7k/5Q2/6K1/8/8/8/8/8 b - - 0 1").unwrap();
    let mut moves: Vec<Move> = vec![];
    legal_moves(&board, &mut moves);
    assert!(moves.is_empty());
    assert!(!is_in_check(&board, Side::Black));
}

#[test]
fn en_passant_exposing_the_king_is_not_generated() {
    let moves = moves_of("8/8/8/KPp4r/8/8/8/7k w - c6 0 1");
    assert!(!has(&moves, Square::B5, Square::C6, MoveFlag::EnPassant));
    assert!(moves.iter().all(|m| m.flag != MoveFlag::EnPassant));
    let moves = moves_of("8/8/8/1Pp4r/K7/8/8/7k w - c6 0 1");
    assert!(has(&moves, Square::B5, Square::C6, MoveFlag::EnPassant));
}

#[test]
fn promotion_gives_four_moves() {
    let moves = moves_of("8/P7/8/8/8/8/8/k6K w - - 0 1");
    let promotions: Vec<&Move> = moves
        .iter()
        .filter(|m| m.from == Square::A7 && m.to == Square::A8)
        .collect();
    assert_eq!(promotions.len(), 4);
    for flag in [
        MoveFlag::KnightPromotion,
        MoveFlag::BishopPromotion,
        MoveFlag::RookPromotion,
        MoveFlag::QueenPromotion,
    ] {
        assert!(has(&moves, Square::A7, Square::A8, flag));
    }
    let moves = moves_of("1n6/P7/8/8/8/8/8/k6K w - - 0 1");
    let captures: Vec<&Move> = moves
        .iter()
        .filter(|m| m.from == Square::A7 && m.to == Square::B8)
        .collect();
    assert_eq!(captures.len(), 4);
    assert!(has(&moves, Square::A7, Square::B8, MoveFlag::QueenPromotionCapture));
}

#[test]
fn castling_needs_three_safe_squares() {
    let moves = moves_of("4k3/8/8/8/8/8/8/4K2R w K - 0 1");
    assert!(has(&moves, Square::E1, Square::G1, MoveFlag::KingCastle));
    // the king's own square is attacked
    let moves = moves_of("4r2k/8/8/8/8/8/8/4K2R w K - 0 1");
    assert!(!has(&moves, Square::E1, Square::G1, MoveFlag::KingCastle));
    // the square the king passes is attacked
    let moves = moves_of("5r1k/8/8/8/8/8/8/4K2R w K - 0 1");
    assert!(!has(&moves, Square::E1, Square::G1, MoveFlag::KingCastle));
    // the square the king lands on is attacked
    let moves = moves_of("6rk/8/8/8/8/8/8/4K2R w K - 0 1");
    assert!(!has(&moves, Square::E1, Square::G1, MoveFlag::KingCastle));
    // a piece stands between king and rook
    let moves = moves_of("7k/8/8/8/8/8/8/4KN1R w K - 0 1");
    assert!(!has(&moves, Square::E1, Square::G1, MoveFlag::KingCastle));
}

#[test]
fn queen_side_castle_for_black() {
    let moves = moves_of("r3k3/8/8/8/8/8/8/4K3 b q - 0 1");
    assert!(has(&moves, Square::E8, Square::C8, MoveFlag::QueenCastle));
    let moves = moves_of("r3k3/8/8/8/8/8/8/3RK3 b q - 0 1");
    assert!(!has(&moves, Square::E8, Square::C8, MoveFlag::QueenCastle));
}

#[test]
fn every_generated_move_leaves_the_king_safe() {
    for fen in [
        "r3k2r/p1ppqpb1/bn2pnp1/3PN3/1p2P3/2N2Q1p/PPPBBPPP/R3K2R w KQkq - 0 1",
        "8/2p5/3p4/KP5r/1R3p1k/8/4P1P1/8 w - - 0 11",
        "r3k2r/Pppp1ppp/1b3nbN/nP6/BBP1P3/q4N2/Pp1P2PP/R2Q1RK1 w kq - 0 1",
    ] {
        let board = fen_to_board(fen).unwrap();
        let mut moves: Vec<Move> = vec![];
        legal_moves(&board, &mut moves);
        for m in moves {
            let mut after = board;
            after.make_move(&m);
            assert!(!is_in_check(&after, board.stm));
        }
    }
}

#[test]
fn quiet_and_loud_split_the_moves() {
    let board = fen_to_board(
        "r3k2r/p1ppqpb1/bn2pnp1/3PN3/1p2P3/2N2Q1p/PPPBBPPP/R3K2R w KQkq - 0 1",
    )
    .unwrap();
    let everything = oxide::definitions::BB::full();
    let mut quiet: Vec<Move> = vec![];
    quiet_moves(&board, &mut quiet, &everything);
    let mut loud: Vec<Move> = vec![];
    loud_moves(&board, &mut loud, &everything);
    assert_eq!(quiet.len() + loud.len(), 48);
    assert!(loud.iter().all(|m| m.is_capture() || m.is_promotion()));
    assert!(quiet.iter().all(|m| !m.is_capture()));
}

#[test]
fn threats() {
    let board = fen_to_board("4k3/8/8/8/8/8/8/R3K3 w Q - 0 1").unwrap();
    assert!(is_square_threatened(&board, Square::E2, Side::Black));
    assert!(is_square_threatened(&board, Square::A8, Side::Black));
    assert!(!is_square_threatened(&board, Square::B7, Side::Black));
    assert!(!is_in_check(&board, Side::White));
}

#[test]
fn vec_is_a_move_container() {
    let mut moves: Vec<Move> = vec![];
    let m = Move {
        from: Square::E2,
        to: Square::E4,
        flag: MoveFlag::PawnDoubleMove,
    };
    MoveContainer::push(&mut moves, m);
    assert_eq!(moves, vec![m]);
}

#[test]
fn make_move_updates_the_state() {
    let mut board = Board::new();
    board.set_square(Square::E2, Piece::WhitePawn);
    board.set_square(Square::E1, Piece::WhiteKing);
    board.set_square(Square::E8, Piece::BlackKing);
    board.set_square(Square::H8, Piece::BlackRook);
    board.make_move(&Move {
        from: Square::E2,
        to: Square::E4,
        flag: MoveFlag::PawnDoubleMove,
    });
    assert_eq!(board.en_passant, Some(Square::E3));
    assert_eq!(board.stm, Side::Black);
    assert_eq!(board.fullmove_number, 1);
    assert_eq!(board.get_square(Square::E4), Some(Piece::WhitePawn));
    assert_eq!(board.get_square(Square::E2), None);
    board.make_move(&Move {
        from: Square::E8,
        to: Square::G8,
        flag: MoveFlag::KingCastle,
    });
    assert_eq!(board.get_square(Square::F8), Some(Piece::BlackRook));
    assert_eq!(board.get_square(Square::H8), None);
    assert_eq!(board.fullmove_number, 2);
    assert_eq!(board.halfmove_clock, 1);
    assert!(!board.black_king_castle && !board.black_queen_castle);
    assert!(board.white_king_castle && board.white_queen_castle);
    assert_eq!(board_to_fen(&board), "5rk1/8/8/8/4P3/8/8/4K3 w KQ - 1 2");
}

#[test]
fn en_passant_capture_removes_the_pawn() {
    let mut board = fen_to_board("4k3/8/8/3Pp3/8/8/8/4K3 w - e6 0 1").unwrap();
    board.make_move(&Move {
        from: Square::D5,
        to: Square::E6,
        flag: MoveFlag::EnPassant,
    });
    assert_eq!(board_to_fen(&board), "4k3/8/4P3/8/8/8/8/4K3 b - - 0 1");
}

#[test]
fn promotion_places_the_new_piece() {
    let mut board = fen_to_board("1n2k3/P7/8/8/8/8/8/4K3 w - - 5 1").unwrap();
    board.make_move(&Move {
        from: Square::A7,
        to: Square::B8,
        flag: MoveFlag::QueenPromotionCapture,
    });
    assert_eq!(board_to_fen(&board), "1Q2k3/8/8/8/8/8/8/4K3 b - - 0 1");
}

#[test]
fn move_text() {
    let m = Move {
        from: Square::E2,
        to: Square::E4,
        flag: MoveFlag::PawnDoubleMove,
    };
    assert_eq!(m.to_string(), "e2e4");
    assert!(!m.is_capture() && !m.is_promotion() && !m.is_castle());
    let m = Move {
        from: Square::E1,
        to: Square::C1,
        flag: MoveFlag::QueenCastle,
    };
    assert!(m.is_castle());
    let m = Move {
        from: Square::B7,
        to: Square::A8,
        flag: MoveFlag::RookPromotionCapture,
    };
    assert!(m.is_capture() && m.is_promotion());
}

#[test]
fn board_queries() {
    let board =
        fen_to_board("rnbqkbnr/pppppppp/8/8/8/8/PPPPPPPP/RNBQKBNR w KQkq - 0 1").unwrap();
    assert_eq!(board.get_king(Side::White), Square::E1);
    assert_eq!(board.get_king(Side::Black), Square::E8);
    assert_eq!(board.get_pieces(Side::White).0, 0xffff);
    assert_eq!(board.occupied_squares().0, 0xffff_0000_0000_ffff);
    assert_eq!(board.empty_squares().0, 0x0000_ffff_ffff_0000);
    assert_eq!(board.get_piece_bb(Piece::BlackKnight).0, (1u64 << 57) | (1u64 << 62));
    let mut board = board;
    board.clear_square(Square::D1);
    assert_eq!(board.get_square(Square::D1), None);
}

#[test]
fn pinned_en_passant_position_has_four_moves() {
    let moves = moves_of("8/8/8/KPp4r/8/8/8/7k w - c6 0 1");
    assert_eq!(moves.len(), 4);
    assert!(has(&moves, Square::A5, Square::A4, MoveFlag::Quiet));
    assert!(has(&moves, Square::A5, Square::A6, MoveFlag::Quiet));
    assert!(has(&moves, Square::A5, Square::B6, MoveFlag::Quiet));
    assert!(has(&moves, Square::B5, Square::B6, MoveFlag::Quiet));
}

#[test]
fn promotion_position_has_seven_moves() {
    let moves = moves_of("4k3/P7/8/8/8/8/8/K7 w - - 0 1");
    assert_eq!(moves.len(), 7);
}

#[test]
fn queen_side_castle_appears_once() {
    let board = fen_to_board("1r2k3/8/8/8/8/8/8/R3K3 w Q - 0 1").unwrap();
    let mut moves: Vec<Move> = vec![];
    legal_moves(&board, &mut moves);
    let castles: Vec<&Move> = moves.iter().filter(|m| m.is_castle()).collect();
    assert_eq!(castles.len(), 1);
    assert!(has(&moves, Square::E1, Square::C1, MoveFlag::QueenCastle));
}

#[test]
fn generated_moves_are_distinct() {
    let moves = moves_of("r3k2r/p1ppqpb1/bn2pnp1/3PN3/1p2P3/2N2Q1p/PPPBBPPP/R3K2R w KQkq - 0 1");
    for i in 0..moves.len() {
        for j in i + 1..moves.len() {
            assert_ne!(moves[i], moves[j]);
        }
    }
}

#[test]
fn perft_divide_counts_sum_to_perft() {
    let board = fen_to_board(
        "r3k2r/p1ppqpb1/bn2pnp1/3PN3/1p2P3/2N2Q1p/PPPBBPPP/R3K2R w KQkq - 0 1",
    )
    .unwrap();
    let counts = oxide::perft::perft_divide_counts(&board, 2);
    assert_eq!(counts.len(), 48);
    let total: u64 = counts.iter().map(|(_, n)| *n).sum();
    assert_eq!(total, 2039);
    assert_eq!(perft(&board, 2), 2039);
}

#[test]
fn perft_without_a_king_is_zero() {
    let board = Board::new();
    assert_eq!(perft(&board, 0), 1);
    assert_eq!(perft(&board, 3), 0);
}
