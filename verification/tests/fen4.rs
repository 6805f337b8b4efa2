use freyja_engine::board::Board;
use freyja_engine::types::{Piece, PieceType, Player, Square};

// ── FEN4 round-trip tests (10+ required by acceptance criteria) ──

#[test]
fn test_fen4_roundtrip_starting_position() {
    let board = Board::starting_position();
    let fen = board.to_fen4();
    let parsed = Board::from_fen4(&fen).unwrap();
    assert!(board.same_position(&parsed));
    assert_eq!(parsed.zobrist_hash(), parsed.compute_full_hash());
}

#[test]
fn test_fen4_roundtrip_empty_board() {
    let board = Board::empty();
    let fen = board.to_fen4();
    let parsed = Board::from_fen4(&fen).unwrap();
    assert!(board.same_position(&parsed));
}

#[test]
fn test_fen4_roundtrip_single_piece() {
    let mut board = Board::empty();
    board.refresh_hash();
    let sq = Square::new(5, 5).unwrap();
    board.set_piece(sq, Piece::new(PieceType::King, Player::Red));
    let fen = board.to_fen4();
    let parsed = Board::from_fen4(&fen).unwrap();
    assert!(board.same_position(&parsed));
}

#[test]
fn test_fen4_roundtrip_blue_to_move() {
    let mut board = Board::starting_position();
    board.set_side_to_move(Player::Blue);
    let fen = board.to_fen4();
    let parsed = Board::from_fen4(&fen).unwrap();
    assert!(board.same_position(&parsed));
    assert_eq!(parsed.side_to_move(), Player::Blue);
}

#[test]
fn test_fen4_roundtrip_yellow_to_move() {
    let mut board = Board::starting_position();
    board.set_side_to_move(Player::Yellow);
    let fen = board.to_fen4();
    let parsed = Board::from_fen4(&fen).unwrap();
    assert!(board.same_position(&parsed));
}

#[test]
fn test_fen4_roundtrip_green_to_move() {
    let mut board = Board::starting_position();
    board.set_side_to_move(Player::Green);
    let fen = board.to_fen4();
    let parsed = Board::from_fen4(&fen).unwrap();
    assert!(board.same_position(&parsed));
}

#[test]
fn test_fen4_roundtrip_no_castling_rights() {
    let mut board = Board::starting_position();
    board.set_castling_rights(0);
    let fen = board.to_fen4();
    let parsed = Board::from_fen4(&fen).unwrap();
    assert!(board.same_position(&parsed));
    assert_eq!(parsed.castling_rights(), 0);
}

#[test]
fn test_fen4_roundtrip_partial_castling_rights() {
    let mut board = Board::starting_position();
    board.set_castling_rights(0b10100101); // Red KS, Red QS off, Blue KS, etc.
    let fen = board.to_fen4();
    let parsed = Board::from_fen4(&fen).unwrap();
    assert!(board.same_position(&parsed));
}

#[test]
fn test_fen4_roundtrip_with_en_passant() {
    let mut board = Board::starting_position();
    let ep_sq = Square::new(2, 3).unwrap(); // d3
    board.set_en_passant(Some(ep_sq), Some(Player::Red));
    let fen = board.to_fen4();
    let parsed = Board::from_fen4(&fen).unwrap();
    assert!(board.same_position(&parsed));
    assert_eq!(parsed.en_passant(), Some(ep_sq));
    assert_eq!(parsed.en_passant_pushing_player(), Some(Player::Red));
}

#[test]
fn test_fen4_roundtrip_promoted_queen() {
    let mut board = Board::empty();
    board.refresh_hash();
    let sq = Square::new(6, 6).unwrap();
    board.set_piece(sq, Piece::new(PieceType::PromotedQueen, Player::Yellow));
    let fen = board.to_fen4();
    let parsed = Board::from_fen4(&fen).unwrap();
    assert!(board.same_position(&parsed));
}

#[test]
fn test_fen4_roundtrip_all_piece_types() {
    let mut board = Board::empty();
    board.refresh_hash();
    let pieces = [
        (PieceType::Pawn, Player::Red, 3, 3),
        (PieceType::Knight, Player::Blue, 4, 4),
        (PieceType::Bishop, Player::Yellow, 5, 5),
        (PieceType::Rook, Player::Green, 6, 6),
        (PieceType::Queen, Player::Red, 7, 7),
        (PieceType::King, Player::Blue, 8, 8),
        (PieceType::PromotedQueen, Player::Green, 9, 9),
    ];
    for (pt, player, rank, file) in pieces {
        let sq = Square::new(rank, file).unwrap();
        board.set_piece(sq, Piece::new(pt, player));
    }
    let fen = board.to_fen4();
    let parsed = Board::from_fen4(&fen).unwrap();
    assert!(board.same_position(&parsed));
}

#[test]
fn test_fen4_roundtrip_minimal_pieces() {
    // Just two kings
    let mut board = Board::empty();
    board.refresh_hash();
    board.set_piece(
        Square::new(0, 7).unwrap(),
        Piece::new(PieceType::King, Player::Red),
    );
    board.set_piece(
        Square::new(13, 6).unwrap(),
        Piece::new(PieceType::King, Player::Yellow),
    );
    let fen = board.to_fen4();
    let parsed = Board::from_fen4(&fen).unwrap();
    assert!(board.same_position(&parsed));
}

#[test]
fn test_fen4_parse_invalid_format() {
    assert!(Board::from_fen4("garbage").is_err());
    assert!(Board::from_fen4("").is_err());
}

#[test]
fn test_fen4_zobrist_matches_after_parse() {
    let board = Board::starting_position();
    let fen = board.to_fen4();
    let parsed = Board::from_fen4(&fen).unwrap();
    assert_eq!(parsed.zobrist_hash(), parsed.compute_full_hash());
}
