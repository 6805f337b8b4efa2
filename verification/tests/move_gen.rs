use freyja_engine::board::Board;
use freyja_engine::legal::{generate_legal_moves, perft};
use freyja_engine::makemove::{make_move, unmake_move};
use freyja_engine::moves::{Move, MoveFlags};
use freyja_engine::types::{Piece, PieceType, Player, Square};

// ── Move encoding roundtrip ──

#[test]
fn test_move_encoding_normal() {
    let from = Square::new(3, 5).unwrap();
    let to = Square::new(5, 5).unwrap();
    let mv = Move::new(from, to, PieceType::Rook);
    assert_eq!(mv.from_sq(), from);
    assert_eq!(mv.to_sq(), to);
    assert_eq!(mv.piece_type(), PieceType::Rook);
    assert_eq!(mv.captured(), None);
    assert_eq!(mv.promotion(), None);
    assert_eq!(mv.flags(), MoveFlags::Normal);
}

#[test]
fn test_move_encoding_capture() {
    let from = Square::new(3, 5).unwrap();
    let to = Square::new(4, 6).unwrap();
    let mv = Move::capture(from, to, PieceType::Pawn, PieceType::Knight);
    assert_eq!(mv.from_sq(), from);
    assert_eq!(mv.to_sq(), to);
    assert_eq!(mv.piece_type(), PieceType::Pawn);
    assert_eq!(mv.captured(), Some(PieceType::Knight));
    assert!(mv.is_capture());
}

#[test]
fn test_move_encoding_promotion() {
    let from = Square::new(7, 5).unwrap();
    let to = Square::new(8, 5).unwrap();
    let mv = Move::new_promotion(from, to, None, PieceType::PromotedQueen);
    assert_eq!(mv.piece_type(), PieceType::Pawn);
    assert_eq!(mv.promotion(), Some(PieceType::PromotedQueen));
    assert_eq!(mv.captured(), None);
}

#[test]
fn test_move_encoding_promotion_capture() {
    let from = Square::new(7, 5).unwrap();
    let to = Square::new(8, 6).unwrap();
    let mv = Move::new_promotion(from, to, Some(PieceType::Rook), PieceType::PromotedQueen);
    assert_eq!(mv.promotion(), Some(PieceType::PromotedQueen));
    assert_eq!(mv.captured(), Some(PieceType::Rook));
}

#[test]
fn test_move_encoding_double_push() {
    let from = Square::new(1, 5).unwrap();
    let to = Square::new(3, 5).unwrap();
    let mv = Move::double_push(from, to);
    assert_eq!(mv.flags(), MoveFlags::DoublePush);
    assert_eq!(mv.piece_type(), PieceType::Pawn);
}

#[test]
fn test_move_encoding_en_passant() {
    let from = Square::new(4, 5).unwrap();
    let to = Square::new(5, 6).unwrap();
    let mv = Move::en_passant(from, to);
    assert_eq!(mv.flags(), MoveFlags::EnPassant);
    assert!(mv.is_capture());
    assert_eq!(mv.captured(), Some(PieceType::Pawn));
}

#[test]
fn test_move_encoding_castle() {
    let from = Square(7);
    let to = Square(9);
    let mv = Move::castle(from, to);
    assert_eq!(mv.flags(), MoveFlags::Castle);
    assert_eq!(mv.piece_type(), PieceType::King);
}

// ── Starting position move generation ──

#[test]
fn test_starting_position_red_move_count() {
    let mut board = Board::starting_position();
    let moves = generate_legal_moves(&mut board);
    // 8 single pushes + 8 double pushes + 2 knights * 2 moves each = 20
    assert_eq!(moves.len(), 20, "Red should have 20 legal moves");
}

// ── make/unmake Zobrist round-trip ──

#[test]
fn test_make_unmake_zobrist_roundtrip_all_starting_moves() {
    let mut board = Board::starting_position();
    let original_hash = board.zobrist_hash();
    let original_board = board.clone();

    let moves = generate_legal_moves(&mut board);
    for mv in moves {
        let undo = make_move(&mut board, mv);
        unmake_move(&mut board, &undo);
        assert_eq!(
            board.zobrist_hash(),
            original_hash,
            "Zobrist mismatch after make/unmake of {:?}",
            mv
        );
        assert!(board.same_position(&original_board),
            "Board mismatch after make/unmake of {:?}",
            mv
        );
        board.assert_piece_list_sync();
    }
}

// ── Pawn push direction per player ──

#[test]
fn test_pawn_push_direction_red() {
    let mut board = Board::empty();
    let sq = Square::new(1, 4).unwrap();
    board.set_piece(sq, Piece::new(PieceType::Pawn, Player::Red));
    let king_sq = Square::new(0, 7).unwrap();
    board.set_piece(king_sq, Piece::new(PieceType::King, Player::Red));
    board.set_castling_rights(0);

    let moves = generate_legal_moves(&mut board);
    let targets: Vec<_> = moves
        .iter()
        .filter(|m| m.piece_type() == PieceType::Pawn)
        .map(|m| m.to_sq())
        .collect();
    assert!(
        targets.contains(&Square::new(2, 4).unwrap()),
        "Red pawn should push to e3"
    );
    assert!(
        targets.contains(&Square::new(3, 4).unwrap()),
        "Red pawn should double push to e4"
    );
}

#[test]
fn test_pawn_push_direction_blue() {
    let mut board = Board::empty();
    let sq = Square::new(4, 1).unwrap();
    board.set_piece(sq, Piece::new(PieceType::Pawn, Player::Blue));
    let king_sq = Square::new(6, 0).unwrap();
    board.set_piece(king_sq, Piece::new(PieceType::King, Player::Blue));
    board.set_side_to_move(Player::Blue);
    board.set_castling_rights(0);

    let moves = generate_legal_moves(&mut board);
    let targets: Vec<_> = moves
        .iter()
        .filter(|m| m.piece_type() == PieceType::Pawn)
        .map(|m| m.to_sq())
        .collect();
    assert!(
        targets.contains(&Square::new(4, 2).unwrap()),
        "Blue pawn should push east"
    );
    assert!(
        targets.contains(&Square::new(4, 3).unwrap()),
        "Blue pawn should double push east"
    );
}

#[test]
fn test_pawn_push_direction_yellow() {
    let mut board = Board::empty();
    let sq = Square::new(12, 4).unwrap();
    board.set_piece(sq, Piece::new(PieceType::Pawn, Player::Yellow));
    let king_sq = Square::new(13, 7).unwrap();
    board.set_piece(king_sq, Piece::new(PieceType::King, Player::Yellow));
    board.set_side_to_move(Player::Yellow);
    board.set_castling_rights(0);

    let moves = generate_legal_moves(&mut board);
    let targets: Vec<_> = moves
        .iter()
        .filter(|m| m.piece_type() == PieceType::Pawn)
        .map(|m| m.to_sq())
        .collect();
    assert!(
        targets.contains(&Square::new(11, 4).unwrap()),
        "Yellow pawn should push south"
    );
    assert!(
        targets.contains(&Square::new(10, 4).unwrap()),
        "Yellow pawn should double push south"
    );
}

#[test]
fn test_pawn_push_direction_green() {
    let mut board = Board::empty();
    let sq = Square::new(4, 12).unwrap();
    board.set_piece(sq, Piece::new(PieceType::Pawn, Player::Green));
    let king_sq = Square::new(7, 13).unwrap();
    board.set_piece(king_sq, Piece::new(PieceType::King, Player::Green));
    board.set_side_to_move(Player::Green);
    board.set_castling_rights(0);

    let moves = generate_legal_moves(&mut board);
    let targets: Vec<_> = moves
        .iter()
        .filter(|m| m.piece_type() == PieceType::Pawn)
        .map(|m| m.to_sq())
        .collect();
    assert!(
        targets.contains(&Square::new(4, 11).unwrap()),
        "Green pawn should push west"
    );
    assert!(
        targets.contains(&Square::new(4, 10).unwrap()),
        "Green pawn should double push west"
    );
}

// ── Castling per player ──

#[test]
fn test_castling_red_kingside() {
    let mut board = Board::empty();
    board.set_piece(Square(7), Piece::new(PieceType::King, Player::Red));
    board.set_piece(Square(10), Piece::new(PieceType::Rook, Player::Red));
    board.set_castling_rights(1);

    let moves = generate_legal_moves(&mut board);
    let castles: Vec<_> = moves
        .iter()
        .filter(|m| m.flags() == MoveFlags::Castle)
        .collect();
    assert_eq!(castles.len(), 1);
    assert_eq!(castles[0].to_sq(), Square(9));
}

#[test]
fn test_castling_red_queenside() {
    let mut board = Board::empty();
    board.set_piece(Square(7), Piece::new(PieceType::King, Player::Red));
    board.set_piece(Square(3), Piece::new(PieceType::Rook, Player::Red));
    board.set_castling_rights(2);

    let moves = generate_legal_moves(&mut board);
    let castles: Vec<_> = moves
        .iter()
        .filter(|m| m.flags() == MoveFlags::Castle)
        .collect();
    assert_eq!(castles.len(), 1);
    assert_eq!(castles[0].to_sq(), Square(5));
}

#[test]
fn test_castling_blue_kingside() {
    let mut board = Board::empty();
    board.set_piece(Square(84), Piece::new(PieceType::King, Player::Blue));
    board.set_piece(Square(42), Piece::new(PieceType::Rook, Player::Blue));
    board.set_castling_rights(4);
    board.set_side_to_move(Player::Blue);

    let moves = generate_legal_moves(&mut board);
    let castles: Vec<_> = moves
        .iter()
        .filter(|m| m.flags() == MoveFlags::Castle)
        .collect();
    assert_eq!(castles.len(), 1);
    assert_eq!(castles[0].to_sq(), Square(56));
}

#[test]
fn test_castling_blue_queenside() {
    let mut board = Board::empty();
    board.set_piece(Square(84), Piece::new(PieceType::King, Player::Blue));
    board.set_piece(Square(140), Piece::new(PieceType::Rook, Player::Blue));
    board.set_castling_rights(8);
    board.set_side_to_move(Player::Blue);

    let moves = generate_legal_moves(&mut board);
    let castles: Vec<_> = moves
        .iter()
        .filter(|m| m.flags() == MoveFlags::Castle)
        .collect();
    assert_eq!(castles.len(), 1);
    assert_eq!(castles[0].to_sq(), Square(112));
}

#[test]
fn test_castling_yellow_kingside() {
    let mut board = Board::empty();
    board.set_piece(Square(188), Piece::new(PieceType::King, Player::Yellow));
    board.set_piece(Square(185), Piece::new(PieceType::Rook, Player::Yellow));
    board.set_castling_rights(16);
    board.set_side_to_move(Player::Yellow);

    let moves = generate_legal_moves(&mut board);
    let castles: Vec<_> = moves
        .iter()
        .filter(|m| m.flags() == MoveFlags::Castle)
        .collect();
    assert_eq!(castles.len(), 1);
    assert_eq!(castles[0].to_sq(), Square(186));
}

#[test]
fn test_castling_yellow_queenside() {
    let mut board = Board::empty();
    board.set_piece(Square(188), Piece::new(PieceType::King, Player::Yellow));
    board.set_piece(Square(192), Piece::new(PieceType::Rook, Player::Yellow));
    board.set_castling_rights(32);
    board.set_side_to_move(Player::Yellow);

    let moves = generate_legal_moves(&mut board);
    let castles: Vec<_> = moves
        .iter()
        .filter(|m| m.flags() == MoveFlags::Castle)
        .collect();
    assert_eq!(castles.len(), 1);
    assert_eq!(castles[0].to_sq(), Square(190));
}

#[test]
fn test_castling_green_kingside() {
    let mut board = Board::empty();
    board.set_piece(Square(111), Piece::new(PieceType::King, Player::Green));
    board.set_piece(Square(153), Piece::new(PieceType::Rook, Player::Green));
    board.set_castling_rights(64);
    board.set_side_to_move(Player::Green);

    let moves = generate_legal_moves(&mut board);
    let castles: Vec<_> = moves
        .iter()
        .filter(|m| m.flags() == MoveFlags::Castle)
        .collect();
    assert_eq!(castles.len(), 1);
    assert_eq!(castles[0].to_sq(), Square(139));
}

#[test]
fn test_castling_green_queenside() {
    let mut board = Board::empty();
    board.set_piece(Square(111), Piece::new(PieceType::King, Player::Green));
    board.set_piece(Square(55), Piece::new(PieceType::Rook, Player::Green));
    board.set_castling_rights(128);
    board.set_side_to_move(Player::Green);

    let moves = generate_legal_moves(&mut board);
    let castles: Vec<_> = moves
        .iter()
        .filter(|m| m.flags() == MoveFlags::Castle)
        .collect();
    assert_eq!(castles.len(), 1);
    assert_eq!(castles[0].to_sq(), Square(83));
}

// ── En passant per player ──

#[test]
fn test_en_passant_red() {
    let mut board = Board::empty();
    let pawn_sq = Square::new(5, 5).unwrap();
    board.set_piece(pawn_sq, Piece::new(PieceType::Pawn, Player::Red));
    board.set_piece(
        Square::new(0, 7).unwrap(),
        Piece::new(PieceType::King, Player::Red),
    );
    let ep_sq = Square::new(6, 6).unwrap();
    board.set_en_passant(Some(ep_sq), Some(Player::Yellow));
    // Yellow pushes south (-1,0), pawn at (6+(-1),6+0) = (5,6)
    board.set_piece(
        Square::new(5, 6).unwrap(),
        Piece::new(PieceType::Pawn, Player::Yellow),
    );
    board.set_castling_rights(0);

    let moves = generate_legal_moves(&mut board);
    let ep_moves: Vec<_> = moves
        .iter()
        .filter(|m| m.flags() == MoveFlags::EnPassant)
        .collect();
    assert_eq!(ep_moves.len(), 1, "Red should have 1 EP move");
}

#[test]
fn test_en_passant_blue() {
    let mut board = Board::empty();
    board.set_piece(
        Square::new(5, 5).unwrap(),
        Piece::new(PieceType::Pawn, Player::Blue),
    );
    board.set_piece(
        Square::new(6, 0).unwrap(),
        Piece::new(PieceType::King, Player::Blue),
    );
    let ep_sq = Square::new(6, 6).unwrap();
    board.set_en_passant(Some(ep_sq), Some(Player::Green));
    // Green pushes west (0,-1), pawn at (6+0,6+(-1)) = (6,5)
    board.set_piece(
        Square::new(6, 5).unwrap(),
        Piece::new(PieceType::Pawn, Player::Green),
    );
    board.set_side_to_move(Player::Blue);
    board.set_castling_rights(0);

    let moves = generate_legal_moves(&mut board);
    let ep_moves: Vec<_> = moves
        .iter()
        .filter(|m| m.flags() == MoveFlags::EnPassant)
        .collect();
    assert_eq!(ep_moves.len(), 1, "Blue should have 1 EP move");
}

#[test]
fn test_en_passant_yellow() {
    let mut board = Board::empty();
    board.set_piece(
        Square::new(5, 5).unwrap(),
        Piece::new(PieceType::Pawn, Player::Yellow),
    );
    board.set_piece(
        Square::new(13, 7).unwrap(),
        Piece::new(PieceType::King, Player::Yellow),
    );
    let ep_sq = Square::new(4, 6).unwrap();
    board.set_en_passant(Some(ep_sq), Some(Player::Red));
    // Red pushes north (+1,0), pawn at (4+1,6+0) = (5,6)
    board.set_piece(
        Square::new(5, 6).unwrap(),
        Piece::new(PieceType::Pawn, Player::Red),
    );
    board.set_side_to_move(Player::Yellow);
    board.set_castling_rights(0);

    let moves = generate_legal_moves(&mut board);
    let ep_moves: Vec<_> = moves
        .iter()
        .filter(|m| m.flags() == MoveFlags::EnPassant)
        .collect();
    assert_eq!(ep_moves.len(), 1, "Yellow should have 1 EP move");
}

#[test]
fn test_en_passant_green() {
    let mut board = Board::empty();
    board.set_piece(
        Square::new(5, 5).unwrap(),
        Piece::new(PieceType::Pawn, Player::Green),
    );
    board.set_piece(
        Square::new(7, 13).unwrap(),
        Piece::new(PieceType::King, Player::Green),
    );
    let ep_sq = Square::new(6, 4).unwrap();
    board.set_en_passant(Some(ep_sq), Some(Player::Blue));
    // Blue pushes east (0,+1), pawn at (6+0,4+1) = (6,5)
    board.set_piece(
        Square::new(6, 5).unwrap(),
        Piece::new(PieceType::Pawn, Player::Blue),
    );
    board.set_side_to_move(Player::Green);
    board.set_castling_rights(0);

    let moves = generate_legal_moves(&mut board);
    let ep_moves: Vec<_> = moves
        .iter()
        .filter(|m| m.flags() == MoveFlags::EnPassant)
        .collect();
    assert_eq!(ep_moves.len(), 1, "Green should have 1 EP move");
}

// ── Knight center moves ──

#[test]
fn test_knight_center_8_moves() {
    let mut board = Board::empty();
    board.set_piece(
        Square::new(6, 6).unwrap(),
        Piece::new(PieceType::Knight, Player::Red),
    );
    board.set_piece(
        Square::new(0, 7).unwrap(),
        Piece::new(PieceType::King, Player::Red),
    );
    board.set_castling_rights(0);

    let moves = generate_legal_moves(&mut board);
    let knight_moves: Vec<_> = moves
        .iter()
        .filter(|m| m.piece_type() == PieceType::Knight)
        .collect();
    assert_eq!(
        knight_moves.len(),
        8,
        "Knight in center should have 8 moves"
    );
}

// ── Promotion per player ──

#[test]
fn test_promotion_red() {
    let mut board = Board::empty();
    board.set_piece(
        Square::new(7, 4).unwrap(),
        Piece::new(PieceType::Pawn, Player::Red),
    );
    board.set_piece(
        Square::new(0, 7).unwrap(),
        Piece::new(PieceType::King, Player::Red),
    );
    board.set_castling_rights(0);

    let moves = generate_legal_moves(&mut board);
    let promos: Vec<_> = moves.iter().filter(|m| m.promotion().is_some()).collect();
    assert_eq!(promos.len(), 4, "Red should have 4 promotion choices");
}

#[test]
fn test_promotion_blue() {
    let mut board = Board::empty();
    board.set_piece(
        Square::new(4, 7).unwrap(),
        Piece::new(PieceType::Pawn, Player::Blue),
    );
    board.set_piece(
        Square::new(6, 0).unwrap(),
        Piece::new(PieceType::King, Player::Blue),
    );
    board.set_side_to_move(Player::Blue);
    board.set_castling_rights(0);

    let moves = generate_legal_moves(&mut board);
    let promos: Vec<_> = moves.iter().filter(|m| m.promotion().is_some()).collect();
    assert_eq!(promos.len(), 4, "Blue should have 4 promotion choices");
}

#[test]
fn test_promotion_yellow() {
    let mut board = Board::empty();
    board.set_piece(
        Square::new(6, 4).unwrap(),
        Piece::new(PieceType::Pawn, Player::Yellow),
    );
    board.set_piece(
        Square::new(13, 7).unwrap(),
        Piece::new(PieceType::King, Player::Yellow),
    );
    board.set_side_to_move(Player::Yellow);
    board.set_castling_rights(0);

    let moves = generate_legal_moves(&mut board);
    let promos: Vec<_> = moves.iter().filter(|m| m.promotion().is_some()).collect();
    assert_eq!(promos.len(), 4, "Yellow should have 4 promotion choices");
}

#[test]
fn test_promotion_green() {
    let mut board = Board::empty();
    board.set_piece(
        Square::new(4, 6).unwrap(),
        Piece::new(PieceType::Pawn, Player::Green),
    );
    board.set_piece(
        Square::new(7, 13).unwrap(),
        Piece::new(PieceType::King, Player::Green),
    );
    board.set_side_to_move(Player::Green);
    board.set_castling_rights(0);

    let moves = generate_legal_moves(&mut board);
    let promos: Vec<_> = moves.iter().filter(|m| m.promotion().is_some()).collect();
    assert_eq!(promos.len(), 4, "Green should have 4 promotion choices");
}

// ── Pawn captures per player ──

#[test]
fn test_pawn_capture_red() {
    let mut board = Board::empty();
    let pawn_sq = Square::new(4, 5).unwrap();
    board.set_piece(pawn_sq, Piece::new(PieceType::Pawn, Player::Red));
    board.set_piece(
        Square::new(0, 7).unwrap(),
        Piece::new(PieceType::King, Player::Red),
    );
    // Enemy pieces on Red's capture diagonals: (+1,+1) and (+1,-1)
    board.set_piece(
        Square::new(5, 6).unwrap(),
        Piece::new(PieceType::Pawn, Player::Blue),
    );
    board.set_piece(
        Square::new(5, 4).unwrap(),
        Piece::new(PieceType::Pawn, Player::Yellow),
    );
    board.set_castling_rights(0);

    let moves = generate_legal_moves(&mut board);
    let captures: Vec<_> = moves
        .iter()
        .filter(|m| m.piece_type() == PieceType::Pawn && m.is_capture())
        .collect();
    assert_eq!(
        captures.len(),
        2,
        "Red pawn should capture on both diagonals"
    );
}

#[test]
fn test_pawn_capture_blue() {
    let mut board = Board::empty();
    let pawn_sq = Square::new(5, 4).unwrap();
    board.set_piece(pawn_sq, Piece::new(PieceType::Pawn, Player::Blue));
    board.set_piece(
        Square::new(6, 0).unwrap(),
        Piece::new(PieceType::King, Player::Blue),
    );
    // Blue captures: (+1,+1) and (-1,+1)
    board.set_piece(
        Square::new(6, 5).unwrap(),
        Piece::new(PieceType::Pawn, Player::Red),
    );
    board.set_piece(
        Square::new(4, 5).unwrap(),
        Piece::new(PieceType::Pawn, Player::Yellow),
    );
    board.set_side_to_move(Player::Blue);
    board.set_castling_rights(0);

    let moves = generate_legal_moves(&mut board);
    let captures: Vec<_> = moves
        .iter()
        .filter(|m| m.piece_type() == PieceType::Pawn && m.is_capture())
        .collect();
    assert_eq!(
        captures.len(),
        2,
        "Blue pawn should capture on both diagonals"
    );
}

#[test]
fn test_pawn_capture_yellow() {
    let mut board = Board::empty();
    let pawn_sq = Square::new(9, 5).unwrap();
    board.set_piece(pawn_sq, Piece::new(PieceType::Pawn, Player::Yellow));
    board.set_piece(
        Square::new(13, 7).unwrap(),
        Piece::new(PieceType::King, Player::Yellow),
    );
    // Yellow captures: (-1,+1) and (-1,-1)
    board.set_piece(
        Square::new(8, 6).unwrap(),
        Piece::new(PieceType::Pawn, Player::Red),
    );
    board.set_piece(
        Square::new(8, 4).unwrap(),
        Piece::new(PieceType::Pawn, Player::Green),
    );
    board.set_side_to_move(Player::Yellow);
    board.set_castling_rights(0);

    let moves = generate_legal_moves(&mut board);
    let captures: Vec<_> = moves
        .iter()
        .filter(|m| m.piece_type() == PieceType::Pawn && m.is_capture())
        .collect();
    assert_eq!(
        captures.len(),
        2,
        "Yellow pawn should capture on both diagonals"
    );
}

#[test]
fn test_pawn_capture_green() {
    let mut board = Board::empty();
    let pawn_sq = Square::new(5, 9).unwrap();
    board.set_piece(pawn_sq, Piece::new(PieceType::Pawn, Player::Green));
    board.set_piece(
        Square::new(7, 13).unwrap(),
        Piece::new(PieceType::King, Player::Green),
    );
    // Green captures: (+1,-1) and (-1,-1)
    board.set_piece(
        Square::new(6, 8).unwrap(),
        Piece::new(PieceType::Pawn, Player::Red),
    );
    board.set_piece(
        Square::new(4, 8).unwrap(),
        Piece::new(PieceType::Pawn, Player::Blue),
    );
    board.set_side_to_move(Player::Green);
    board.set_castling_rights(0);

    let moves = generate_legal_moves(&mut board);
    let captures: Vec<_> = moves
        .iter()
        .filter(|m| m.piece_type() == PieceType::Pawn && m.is_capture())
        .collect();
    assert_eq!(
        captures.len(),
        2,
        "Green pawn should capture on both diagonals"
    );
}

// ── Knight moves per player ──

#[test]
fn test_knight_red() {
    let mut board = Board::empty();
    board.set_piece(
        Square::new(3, 5).unwrap(),
        Piece::new(PieceType::Knight, Player::Red),
    );
    board.set_piece(
        Square::new(0, 7).unwrap(),
        Piece::new(PieceType::King, Player::Red),
    );
    board.set_castling_rights(0);

    let moves = generate_legal_moves(&mut board);
    let knight_moves: Vec<_> = moves
        .iter()
        .filter(|m| m.piece_type() == PieceType::Knight)
        .collect();
    assert_eq!(
        knight_moves.len(),
        8,
        "Red knight at (3,5) should have 8 moves"
    );
}

#[test]
fn test_knight_blue() {
    let mut board = Board::empty();
    board.set_piece(
        Square::new(5, 3).unwrap(),
        Piece::new(PieceType::Knight, Player::Blue),
    );
    board.set_piece(
        Square::new(6, 0).unwrap(),
        Piece::new(PieceType::King, Player::Blue),
    );
    board.set_side_to_move(Player::Blue);
    board.set_castling_rights(0);

    let moves = generate_legal_moves(&mut board);
    let knight_moves: Vec<_> = moves
        .iter()
        .filter(|m| m.piece_type() == PieceType::Knight)
        .collect();
    assert_eq!(
        knight_moves.len(),
        8,
        "Blue knight at (5,3) should have 8 moves"
    );
}

#[test]
fn test_knight_yellow() {
    let mut board = Board::empty();
    board.set_piece(
        Square::new(10, 8).unwrap(),
        Piece::new(PieceType::Knight, Player::Yellow),
    );
    board.set_piece(
        Square::new(13, 7).unwrap(),
        Piece::new(PieceType::King, Player::Yellow),
    );
    board.set_side_to_move(Player::Yellow);
    board.set_castling_rights(0);

    let moves = generate_legal_moves(&mut board);
    let knight_moves: Vec<_> = moves
        .iter()
        .filter(|m| m.piece_type() == PieceType::Knight)
        .collect();
    assert_eq!(
        knight_moves.len(),
        8,
        "Yellow knight at (10,8) should have 8 moves"
    );
}

#[test]
fn test_knight_green() {
    let mut board = Board::empty();
    board.set_piece(
        Square::new(8, 10).unwrap(),
        Piece::new(PieceType::Knight, Player::Green),
    );
    board.set_piece(
        Square::new(7, 13).unwrap(),
        Piece::new(PieceType::King, Player::Green),
    );
    board.set_side_to_move(Player::Green);
    board.set_castling_rights(0);

    let moves = generate_legal_moves(&mut board);
    let knight_moves: Vec<_> = moves
        .iter()
        .filter(|m| m.piece_type() == PieceType::Knight)
        .collect();
    assert_eq!(
        knight_moves.len(),
        8,
        "Green knight at (8,10) should have 8 moves"
    );
}

// ── Slider orientation per player ──

#[test]
fn test_rook_red() {
    let mut board = Board::empty();
    let rook_sq = Square::new(4, 7).unwrap();
    board.set_piece(rook_sq, Piece::new(PieceType::Rook, Player::Red));
    board.set_piece(
        Square::new(0, 3).unwrap(),
        Piece::new(PieceType::King, Player::Red),
    );
    board.set_castling_rights(0);

    let moves = generate_legal_moves(&mut board);
    let rook_moves: Vec<_> = moves
        .iter()
        .filter(|m| m.piece_type() == PieceType::Rook)
        .collect();
    // Rook on open board at (4,7): can slide in 4 directions
    assert!(
        rook_moves.len() > 10,
        "Red rook should have many moves on open board"
    );
}

#[test]
fn test_bishop_blue() {
    let mut board = Board::empty();
    let bishop_sq = Square::new(7, 4).unwrap();
    board.set_piece(bishop_sq, Piece::new(PieceType::Bishop, Player::Blue));
    board.set_piece(
        Square::new(6, 0).unwrap(),
        Piece::new(PieceType::King, Player::Blue),
    );
    board.set_side_to_move(Player::Blue);
    board.set_castling_rights(0);

    let moves = generate_legal_moves(&mut board);
    let bishop_moves: Vec<_> = moves
        .iter()
        .filter(|m| m.piece_type() == PieceType::Bishop)
        .collect();
    assert!(
        bishop_moves.len() > 5,
        "Blue bishop should have many moves on open board"
    );
}

#[test]
fn test_queen_yellow() {
    let mut board = Board::empty();
    let queen_sq = Square::new(7, 7).unwrap();
    board.set_piece(queen_sq, Piece::new(PieceType::Queen, Player::Yellow));
    board.set_piece(
        Square::new(13, 7).unwrap(),
        Piece::new(PieceType::King, Player::Yellow),
    );
    board.set_side_to_move(Player::Yellow);
    board.set_castling_rights(0);

    let moves = generate_legal_moves(&mut board);
    let queen_moves: Vec<_> = moves
        .iter()
        .filter(|m| m.piece_type() == PieceType::Queen)
        .collect();
    // Queen at center of board should have many moves in all 8 directions
    assert!(
        queen_moves.len() > 20,
        "Yellow queen at center should have many moves"
    );
}

#[test]
fn test_rook_green() {
    let mut board = Board::empty();
    let rook_sq = Square::new(7, 10).unwrap();
    board.set_piece(rook_sq, Piece::new(PieceType::Rook, Player::Green));
    board.set_piece(
        Square::new(7, 13).unwrap(),
        Piece::new(PieceType::King, Player::Green),
    );
    board.set_side_to_move(Player::Green);
    board.set_castling_rights(0);

    let moves = generate_legal_moves(&mut board);
    let rook_moves: Vec<_> = moves
        .iter()
        .filter(|m| m.piece_type() == PieceType::Rook)
        .collect();
    assert!(
        rook_moves.len() > 10,
        "Green rook should have many moves on open board"
    );
}

// ── King moves per player ──

#[test]
fn test_king_red() {
    let mut board = Board::empty();
    board.set_piece(
        Square::new(5, 5).unwrap(),
        Piece::new(PieceType::King, Player::Red),
    );
    board.set_castling_rights(0);

    let moves = generate_legal_moves(&mut board);
    let king_moves: Vec<_> = moves
        .iter()
        .filter(|m| m.piece_type() == PieceType::King)
        .collect();
    assert_eq!(king_moves.len(), 8, "King in center should have 8 moves");
}

#[test]
fn test_king_blue() {
    let mut board = Board::empty();
    board.set_piece(
        Square::new(5, 5).unwrap(),
        Piece::new(PieceType::King, Player::Blue),
    );
    board.set_side_to_move(Player::Blue);
    board.set_castling_rights(0);

    let moves = generate_legal_moves(&mut board);
    let king_moves: Vec<_> = moves
        .iter()
        .filter(|m| m.piece_type() == PieceType::King)
        .collect();
    assert_eq!(king_moves.len(), 8, "King in center should have 8 moves");
}

#[test]
fn test_king_yellow() {
    let mut board = Board::empty();
    board.set_piece(
        Square::new(8, 8).unwrap(),
        Piece::new(PieceType::King, Player::Yellow),
    );
    board.set_side_to_move(Player::Yellow);
    board.set_castling_rights(0);

    let moves = generate_legal_moves(&mut board);
    let king_moves: Vec<_> = moves
        .iter()
        .filter(|m| m.piece_type() == PieceType::King)
        .collect();
    assert_eq!(king_moves.len(), 8, "King in center should have 8 moves");
}

#[test]
fn test_king_green() {
    let mut board = Board::empty();
    board.set_piece(
        Square::new(8, 8).unwrap(),
        Piece::new(PieceType::King, Player::Green),
    );
    board.set_side_to_move(Player::Green);
    board.set_castling_rights(0);

    let moves = generate_legal_moves(&mut board);
    let king_moves: Vec<_> = moves
        .iter()
        .filter(|m| m.piece_type() == PieceType::King)
        .collect();
    assert_eq!(king_moves.len(), 8, "King in center should have 8 moves");
}

// ── make/unmake stress test: all move types from starting position ──

#[test]
fn test_make_unmake_all_starting_moves() {
    let mut board = Board::starting_position();
    let original = board.clone();
    let original_hash = board.zobrist_hash();

    let moves = generate_legal_moves(&mut board);
    for mv in &moves {
        let undo = make_move(&mut board, *mv);
        unmake_move(&mut board, &undo);
        assert!(board.same_position(&original),
            "Board not restored after make/unmake of {:?}",
            mv
        );
        assert_eq!(
            board.zobrist_hash(),
            original_hash,
            "Zobrist not restored after {:?}",
            mv
        );
        board.assert_piece_list_sync();
    }
}

// ── Perft ──

#[test]
fn test_perft_depth_1() {
    let mut board = Board::starting_position();
    assert_eq!(perft(&mut board, 1), 20);
}

#[test]
fn test_perft_depth_2() {
    let mut board = Board::starting_position();
    // Not 20*20=400: some Red moves block Blue double pushes or open lines.
    // Verified via perft divide: 395 is correct.
    assert_eq!(perft(&mut board, 2), 395);
}

#[test]
fn test_perft_preserves_board_state() {
    let mut board = Board::starting_position();
    let original = board.clone();
    let original_hash = board.zobrist_hash();

    let _ = perft(&mut board, 3);

    assert!(board.same_position(&original), "Board should be unchanged after perft");
    assert_eq!(
        board.zobrist_hash(),
        original_hash,
        "Zobrist should be unchanged after perft"
    );
    board.assert_piece_list_sync();
}

// ── Safety checks ──

#[test]
fn test_no_castling_when_in_check() {
    let mut board = Board::empty();
    board.set_piece(Square(7), Piece::new(PieceType::King, Player::Red));
    board.set_piece(Square(10), Piece::new(PieceType::Rook, Player::Red));
    board.set_castling_rights(1);
    // Enemy rook attacks h1
    board.set_piece(
        Square::new(7, 7).unwrap(),
        Piece::new(PieceType::Rook, Player::Blue),
    );

    let moves = generate_legal_moves(&mut board);
    let castles: Vec<_> = moves
        .iter()
        .filter(|m| m.flags() == MoveFlags::Castle)
        .collect();
    assert_eq!(castles.len(), 0, "Cannot castle while in check");
}

#[test]
fn test_no_moves_to_invalid_corners() {
    let mut board = Board::starting_position();
    let moves = generate_legal_moves(&mut board);
    for mv in &moves {
        assert!(
            mv.to_sq().is_valid(),
            "Move {:?} targets invalid square",
            mv
        );
        assert!(mv.from_sq().is_valid(), "Move {:?} from invalid square", mv);
    }
}

// ── make/unmake EP roundtrip ──

#[test]
fn test_make_unmake_en_passant_roundtrip() {
    let mut board = Board::empty();
    board.set_piece(
        Square::new(5, 5).unwrap(),
        Piece::new(PieceType::Pawn, Player::Red),
    );
    board.set_piece(
        Square::new(0, 7).unwrap(),
        Piece::new(PieceType::King, Player::Red),
    );
    let ep_sq = Square::new(6, 6).unwrap();
    board.set_en_passant(Some(ep_sq), Some(Player::Yellow));
    board.set_piece(
        Square::new(5, 6).unwrap(),
        Piece::new(PieceType::Pawn, Player::Yellow),
    );
    board.set_castling_rights(0);

    let original = board.clone();
    let original_hash = board.zobrist_hash();

    let moves = generate_legal_moves(&mut board);
    let ep_mv = moves
        .iter()
        .find(|m| m.flags() == MoveFlags::EnPassant)
        .unwrap();

    let undo = make_move(&mut board, *ep_mv);
    // After EP: our pawn moved to (6,6), enemy pawn at (5,6) removed
    assert!(
        board.piece_at(Square::new(5, 6).unwrap()).is_none(),
        "Captured pawn should be gone"
    );
    assert!(
        board.piece_at(Square::new(6, 6).unwrap()).is_some(),
        "Our pawn should be at EP target"
    );

    unmake_move(&mut board, &undo);
    assert!(board.same_position(&original), "Board should be restored after EP unmake");
    assert_eq!(
        board.zobrist_hash(),
        original_hash,
        "Zobrist should be restored"
    );
}

// ── make/unmake castle roundtrip ──

#[test]
fn test_make_unmake_castle_roundtrip() {
    let mut board = Board::empty();
    board.set_piece(Square(7), Piece::new(PieceType::King, Player::Red));
    board.set_piece(Square(10), Piece::new(PieceType::Rook, Player::Red));
    board.set_castling_rights(1);

    let original = board.clone();
    let original_hash = board.zobrist_hash();

    let moves = generate_legal_moves(&mut board);
    let castle_mv = moves
        .iter()
        .find(|m| m.flags() == MoveFlags::Castle)
        .unwrap();

    let undo = make_move(&mut board, *castle_mv);
    assert!(board.piece_at(Square(9)).is_some(), "King should be at j1");
    assert!(board.piece_at(Square(8)).is_some(), "Rook should be at i1");

    unmake_move(&mut board, &undo);
    assert!(board.same_position(&original),
        "Board should be restored after castle unmake"
    );
    assert_eq!(
        board.zobrist_hash(),
        original_hash,
        "Zobrist should be restored"
    );
}

// ── make/unmake promotion roundtrip ──

#[test]
fn test_make_unmake_promotion_roundtrip() {
    let mut board = Board::empty();
    board.set_piece(
        Square::new(7, 4).unwrap(),
        Piece::new(PieceType::Pawn, Player::Red),
    );
    board.set_piece(
        Square::new(0, 7).unwrap(),
        Piece::new(PieceType::King, Player::Red),
    );
    board.set_castling_rights(0);

    let original = board.clone();
    let original_hash = board.zobrist_hash();

    let moves = generate_legal_moves(&mut board);
    let promo_mv = moves.iter().find(|m| m.promotion().is_some()).unwrap();

    let undo = make_move(&mut board, *promo_mv);
    unmake_move(&mut board, &undo);
    assert!(board.same_position(&original));
    assert_eq!(board.zobrist_hash(), original_hash);
}
