use freyja_engine::board::Board;
use freyja_engine::types::{valid_squares_list, Piece, PieceType, Player, Square};

// ── Board construction ──

#[test]
fn test_board_clone_is_equal() {
    let board = Board::starting_position();
    let clone = board.clone();
    assert!(board.same_position(&clone));
}

#[test]
fn test_board_zero_heap_allocation() {
    let board = Board::starting_position();
    let _cloned = board.clone();
    let size = std::mem::size_of::<Board>();
    assert!(size > 0);
    assert!(
        size < 4096,
        "Board struct is {} bytes, expected < 4096",
        size
    );
}

// ── Starting position ──

#[test]
fn test_starting_position_piece_counts() {
    let board = Board::starting_position();
    for player in Player::all() {
        assert_eq!(
            board.piece_count(player),
            16,
            "{:?} should have 16 pieces",
            player
        );
    }
}

#[test]
fn test_starting_position_red_king_square() {
    let board = Board::starting_position();
    assert_eq!(board.king_square(Player::Red), 7); // h1
}

#[test]
fn test_starting_position_blue_king_square() {
    let board = Board::starting_position();
    assert_eq!(board.king_square(Player::Blue), 84); // a7
}

#[test]
fn test_starting_position_yellow_king_square() {
    let board = Board::starting_position();
    assert_eq!(board.king_square(Player::Yellow), 188); // g14
}

#[test]
fn test_starting_position_green_king_square() {
    let board = Board::starting_position();
    assert_eq!(board.king_square(Player::Green), 111); // n8
}

#[test]
fn test_starting_position_all_castling_rights() {
    let board = Board::starting_position();
    assert_eq!(board.castling_rights(), 0xFF);
}

#[test]
fn test_starting_position_side_to_move() {
    let board = Board::starting_position();
    assert_eq!(board.side_to_move(), Player::Red);
}

#[test]
fn test_starting_position_no_en_passant() {
    let board = Board::starting_position();
    assert!(board.en_passant().is_none());
}

// 4PC Verification Matrix: "Starting position correct" — Red
#[test]
fn test_starting_position_red_pieces() {
    let board = Board::starting_position();
    // Back rank: d1=R, e1=N, f1=B, g1=Q, h1=K, i1=B, j1=N, k1=R
    assert_eq!(
        board.piece_at(Square(3)),
        Some(Piece::new(PieceType::Rook, Player::Red))
    );
    assert_eq!(
        board.piece_at(Square(4)),
        Some(Piece::new(PieceType::Knight, Player::Red))
    );
    assert_eq!(
        board.piece_at(Square(5)),
        Some(Piece::new(PieceType::Bishop, Player::Red))
    );
    assert_eq!(
        board.piece_at(Square(6)),
        Some(Piece::new(PieceType::Queen, Player::Red))
    );
    assert_eq!(
        board.piece_at(Square(7)),
        Some(Piece::new(PieceType::King, Player::Red))
    );
    assert_eq!(
        board.piece_at(Square(8)),
        Some(Piece::new(PieceType::Bishop, Player::Red))
    );
    assert_eq!(
        board.piece_at(Square(9)),
        Some(Piece::new(PieceType::Knight, Player::Red))
    );
    assert_eq!(
        board.piece_at(Square(10)),
        Some(Piece::new(PieceType::Rook, Player::Red))
    );
    // Pawns: d2-k2
    for file in 3..=10u8 {
        let sq = Square(1 * 14 + file);
        assert_eq!(
            board.piece_at(sq),
            Some(Piece::new(PieceType::Pawn, Player::Red)),
            "Red pawn expected at file {}",
            file
        );
    }
}

// 4PC Verification Matrix: "Starting position correct" — Blue
#[test]
fn test_starting_position_blue_pieces() {
    let board = Board::starting_position();
    // Back file a: a4=R, a5=N, a6=B, a7=K, a8=Q, a9=B, a10=N, a11=R
    assert_eq!(
        board.piece_at(Square(42)),
        Some(Piece::new(PieceType::Rook, Player::Blue))
    );
    assert_eq!(
        board.piece_at(Square(56)),
        Some(Piece::new(PieceType::Knight, Player::Blue))
    );
    assert_eq!(
        board.piece_at(Square(70)),
        Some(Piece::new(PieceType::Bishop, Player::Blue))
    );
    assert_eq!(
        board.piece_at(Square(84)),
        Some(Piece::new(PieceType::King, Player::Blue))
    );
    assert_eq!(
        board.piece_at(Square(98)),
        Some(Piece::new(PieceType::Queen, Player::Blue))
    );
    assert_eq!(
        board.piece_at(Square(112)),
        Some(Piece::new(PieceType::Bishop, Player::Blue))
    );
    assert_eq!(
        board.piece_at(Square(126)),
        Some(Piece::new(PieceType::Knight, Player::Blue))
    );
    assert_eq!(
        board.piece_at(Square(140)),
        Some(Piece::new(PieceType::Rook, Player::Blue))
    );
    // Pawns: b4-b11
    for rank in 3..=10u8 {
        let sq = Square(rank * 14 + 1);
        assert_eq!(
            board.piece_at(sq),
            Some(Piece::new(PieceType::Pawn, Player::Blue)),
            "Blue pawn expected at rank {}",
            rank
        );
    }
}

// 4PC Verification Matrix: "Starting position correct" — Yellow
#[test]
fn test_starting_position_yellow_pieces() {
    let board = Board::starting_position();
    // Back rank 14: d14=R, e14=N, f14=B, g14=K, h14=Q, i14=B, j14=N, k14=R
    assert_eq!(
        board.piece_at(Square(185)),
        Some(Piece::new(PieceType::Rook, Player::Yellow))
    );
    assert_eq!(
        board.piece_at(Square(186)),
        Some(Piece::new(PieceType::Knight, Player::Yellow))
    );
    assert_eq!(
        board.piece_at(Square(187)),
        Some(Piece::new(PieceType::Bishop, Player::Yellow))
    );
    assert_eq!(
        board.piece_at(Square(188)),
        Some(Piece::new(PieceType::King, Player::Yellow))
    );
    assert_eq!(
        board.piece_at(Square(189)),
        Some(Piece::new(PieceType::Queen, Player::Yellow))
    );
    assert_eq!(
        board.piece_at(Square(190)),
        Some(Piece::new(PieceType::Bishop, Player::Yellow))
    );
    assert_eq!(
        board.piece_at(Square(191)),
        Some(Piece::new(PieceType::Knight, Player::Yellow))
    );
    assert_eq!(
        board.piece_at(Square(192)),
        Some(Piece::new(PieceType::Rook, Player::Yellow))
    );
    // Pawns: d13-k13 (rank 12)
    for file in 3..=10u8 {
        let sq = Square(12 * 14 + file);
        assert_eq!(
            board.piece_at(sq),
            Some(Piece::new(PieceType::Pawn, Player::Yellow)),
            "Yellow pawn expected at file {}",
            file
        );
    }
}

// 4PC Verification Matrix: "Starting position correct" — Green
#[test]
fn test_starting_position_green_pieces() {
    let board = Board::starting_position();
    // Back file n: n4=R, n5=N, n6=B, n7=Q, n8=K, n9=B, n10=N, n11=R
    assert_eq!(
        board.piece_at(Square(55)),
        Some(Piece::new(PieceType::Rook, Player::Green))
    );
    assert_eq!(
        board.piece_at(Square(69)),
        Some(Piece::new(PieceType::Knight, Player::Green))
    );
    assert_eq!(
        board.piece_at(Square(83)),
        Some(Piece::new(PieceType::Bishop, Player::Green))
    );
    assert_eq!(
        board.piece_at(Square(97)),
        Some(Piece::new(PieceType::Queen, Player::Green))
    );
    assert_eq!(
        board.piece_at(Square(111)),
        Some(Piece::new(PieceType::King, Player::Green))
    );
    assert_eq!(
        board.piece_at(Square(125)),
        Some(Piece::new(PieceType::Bishop, Player::Green))
    );
    assert_eq!(
        board.piece_at(Square(139)),
        Some(Piece::new(PieceType::Knight, Player::Green))
    );
    assert_eq!(
        board.piece_at(Square(153)),
        Some(Piece::new(PieceType::Rook, Player::Green))
    );
    // Pawns: m4-m11 (file 12)
    for rank in 3..=10u8 {
        let sq = Square(rank * 14 + 12);
        assert_eq!(
            board.piece_at(sq),
            Some(Piece::new(PieceType::Pawn, Player::Green)),
            "Green pawn expected at rank {}",
            rank
        );
    }
}

// ── Piece list sync ──

#[test]
fn test_piece_list_sync_starting_position() {
    let board = Board::starting_position();
    board.assert_piece_list_sync();
}

#[test]
fn test_piece_list_iteration_red() {
    let board = Board::starting_position();
    let red_pieces: Vec<_> = board.pieces(Player::Red);
    assert_eq!(red_pieces.len(), 16);
    let pawns = red_pieces
        .iter()
        .filter(|(pt, _)| *pt == PieceType::Pawn)
        .count();
    assert_eq!(pawns, 8);
    let kings = red_pieces
        .iter()
        .filter(|(pt, _)| *pt == PieceType::King)
        .count();
    assert_eq!(kings, 1);
}

// ── Zobrist ──

#[test]
fn test_zobrist_starting_position_matches_full_hash() {
    let board = Board::starting_position();
    assert_eq!(board.zobrist_hash(), board.compute_full_hash());
}

#[test]
fn test_set_remove_piece_zobrist_consistency() {
    let mut board = Board::empty();
    board.refresh_hash();

    let sq = Square::new(5, 5).unwrap();
    let piece = Piece::new(PieceType::Rook, Player::Red);

    board.set_piece(sq, piece);
    assert_eq!(board.zobrist_hash(), board.compute_full_hash());

    board.remove_piece(sq);
    assert_eq!(board.zobrist_hash(), board.compute_full_hash());
}

#[test]
fn test_set_piece_remove_piece_roundtrip() {
    let mut board = Board::empty();
    board.refresh_hash();
    let initial_hash = board.zobrist_hash();

    let sq = Square::new(7, 7).unwrap();
    let piece = Piece::new(PieceType::Queen, Player::Blue);

    board.set_piece(sq, piece);
    assert_ne!(board.zobrist_hash(), initial_hash);
    assert_eq!(board.piece_at(sq), Some(piece));

    let removed = board.remove_piece(sq);
    assert_eq!(removed, piece);
    assert_eq!(board.zobrist_hash(), initial_hash);
    assert!(board.piece_at(sq).is_none());
}

#[test]
fn test_zobrist_consistency_after_many_operations() {
    let mut board = Board::starting_position();
    let sq1 = Square::new(0, 3).unwrap(); // d1 = Red Rook
    let removed = board.remove_piece(sq1);
    assert_eq!(board.zobrist_hash(), board.compute_full_hash());

    let sq2 = Square::new(5, 5).unwrap(); // f6
    board.set_piece(sq2, removed);
    assert_eq!(board.zobrist_hash(), board.compute_full_hash());

    board.assert_piece_list_sync();
}

#[test]
fn test_castling_rights_zobrist() {
    let mut board = Board::starting_position();
    let original_hash = board.zobrist_hash();
    board.set_castling_rights(0xF0);
    assert_ne!(board.zobrist_hash(), original_hash);
    assert_eq!(board.zobrist_hash(), board.compute_full_hash());
}

#[test]
fn test_en_passant_zobrist() {
    let mut board = Board::starting_position();
    let original_hash = board.zobrist_hash();
    let ep_sq = Square::new(2, 3).unwrap(); // d3
    board.set_en_passant(Some(ep_sq), Some(Player::Red));
    assert_ne!(board.zobrist_hash(), original_hash);
    assert_eq!(board.zobrist_hash(), board.compute_full_hash());
    board.set_en_passant(None, None);
    assert_eq!(board.zobrist_hash(), original_hash);
}

#[test]
fn test_side_to_move_zobrist() {
    let mut board = Board::starting_position();
    let red_hash = board.zobrist_hash();
    board.set_side_to_move(Player::Blue);
    assert_ne!(board.zobrist_hash(), red_hash);
    assert_eq!(board.zobrist_hash(), board.compute_full_hash());
}

// 4PC Verification Matrix: "Zobrist side-to-move (4 values)"
#[test]
fn test_zobrist_side_to_move_all_different() {
    let mut hashes = [0u64; 4];
    for (i, &player) in Player::all().iter().enumerate() {
        let mut board = Board::starting_position();
        board.set_side_to_move(player);
        hashes[i] = board.zobrist_hash();
    }
    for i in 0..4 {
        for j in (i + 1)..4 {
            assert_ne!(
                hashes[i],
                hashes[j],
                "Zobrist collision for {:?} and {:?}",
                Player::all()[i],
                Player::all()[j]
            );
        }
    }
}

// ── Stress test ──

#[test]
fn test_zobrist_consistency_stress() {
    let mut board = Board::empty();
    board.refresh_hash();

    let valid_sqs: Vec<Square> = valid_squares_list().iter().map(|&idx| Square(idx)).collect();

    // Place 20 pieces on non-overlapping squares
    let mut placed = Vec::new();
    for i in 0..20 {
        let sq = valid_sqs[i * 7 % valid_sqs.len()];
        if board.piece_at(sq).is_none() {
            let pt = PieceType::from_index((i % 6) as u8).unwrap();
            let player = Player::from_index((i % 4) as u8).unwrap();
            board.set_piece(sq, Piece::new(pt, player));
            assert_eq!(
                board.zobrist_hash(),
                board.compute_full_hash(),
                "Zobrist mismatch after set_piece step {}",
                i
            );
            placed.push(sq);
        }
    }

    // Remove half
    for (i, &sq) in placed.iter().take(placed.len() / 2).enumerate() {
        board.remove_piece(sq);
        assert_eq!(
            board.zobrist_hash(),
            board.compute_full_hash(),
            "Zobrist mismatch after remove_piece step {}",
            i
        );
    }

    board.assert_piece_list_sync();
}
