use freyja_engine::types::{
    is_valid_square, valid_square_table, valid_squares_list, Piece, PieceType, Player, Square,
    INVALID_CORNER_COUNT, TOTAL_SQUARES, VALID_SQUARES,
};

#[test]
fn test_total_valid_squares_count() {
    let table = valid_square_table();
    let count = (0..TOTAL_SQUARES).filter(|&i| table[i]).count();
    assert_eq!(count, VALID_SQUARES);
}

#[test]
fn test_all_36_invalid_squares() {
    let table = valid_square_table();
    let invalid_indices: [u8; 36] = [
        0, 1, 2, 14, 15, 16, 28, 29, 30, // SW corner
        11, 12, 13, 25, 26, 27, 39, 40, 41, // SE corner
        154, 155, 156, 168, 169, 170, 182, 183, 184, // NW corner
        165, 166, 167, 179, 180, 181, 193, 194, 195, // NE corner
    ];
    for &idx in &invalid_indices {
        assert!(!table[idx as usize], "Square index {} should be invalid", idx);
    }
    let invalid_count = (0..TOTAL_SQUARES).filter(|&i| !table[i]).count();
    assert_eq!(invalid_count, INVALID_CORNER_COUNT);
}

#[test]
fn test_valid_squares_list_count() {
    let table = valid_square_table();
    let mut count = 0;
    for &idx in valid_squares_list().iter() {
        assert!(table[idx as usize], "Index {} in list should be valid", idx);
        count += 1;
    }
    assert_eq!(count, VALID_SQUARES);
}

#[test]
fn test_square_rank_file_roundtrip() {
    for rank in 0..14u8 {
        for file in 0..14u8 {
            if is_valid_square(rank, file) {
                let sq = Square::new(rank, file).unwrap();
                assert_eq!(sq.rank(), rank);
                assert_eq!(sq.file(), file);
                assert_eq!(sq.index(), rank * 14 + file);
            }
        }
    }
}

#[test]
fn test_square_invalid_corners_return_none() {
    assert!(Square::new(0, 0).is_none());
    assert!(Square::new(0, 13).is_none());
    assert!(Square::new(13, 0).is_none());
    assert!(Square::new(13, 13).is_none());
}

#[test]
fn test_square_from_notation() {
    assert_eq!(Square::from_notation("d1"), Some(Square(3)));
    assert_eq!(Square::from_notation("h1"), Some(Square(7)));
    assert_eq!(Square::from_notation("a7"), Some(Square(84)));
    assert_eq!(Square::from_notation("n8"), Some(Square(111)));
    assert_eq!(Square::from_notation("g14"), Some(Square(188)));
    assert_eq!(Square::from_notation("a1"), None);
    assert_eq!(Square::from_notation("n14"), None);
}

#[test]
fn test_square_display_notation_roundtrip() {
    for &idx in valid_squares_list().iter() {
        let sq = Square(idx);
        let notation = sq.to_notation();
        let parsed = Square::from_notation(&notation).unwrap();
        assert_eq!(sq, parsed, "Roundtrip failed for {}", notation);
    }
}

#[test]
fn test_specific_square_indices_from_rules_reference() {
    assert_eq!(Square::from_notation("h1").unwrap().index(), 7);
    assert_eq!(Square::from_notation("a7").unwrap().index(), 84);
    assert_eq!(Square::from_notation("g14").unwrap().index(), 188);
    assert_eq!(Square::from_notation("n8").unwrap().index(), 111);
}

#[test]
fn test_player_turn_order() {
    assert_eq!(Player::Red.next(), Player::Blue);
    assert_eq!(Player::Blue.next(), Player::Yellow);
    assert_eq!(Player::Yellow.next(), Player::Green);
    assert_eq!(Player::Green.next(), Player::Red);
}

#[test]
fn test_player_from_index() {
    assert_eq!(Player::from_index(0), Some(Player::Red));
    assert_eq!(Player::from_index(1), Some(Player::Blue));
    assert_eq!(Player::from_index(2), Some(Player::Yellow));
    assert_eq!(Player::from_index(3), Some(Player::Green));
    assert_eq!(Player::from_index(4), None);
}

#[test]
fn test_player_opponents() {
    let opps = Player::Red.opponents();
    assert!(!opps.contains(&Player::Red));
    assert_eq!(opps.len(), 3);
    assert!(opps.contains(&Player::Blue));
    assert!(opps.contains(&Player::Yellow));
    assert!(opps.contains(&Player::Green));
}

#[test]
fn test_player_char_roundtrip() {
    for player in Player::all() {
        let c = player.char();
        assert_eq!(Player::from_char(c), Some(player));
    }
}

#[test]
fn test_piece_type_count() {
    assert_eq!(PieceType::COUNT, 7);
}

#[test]
fn test_piece_type_is_slider() {
    assert!(!PieceType::Pawn.is_slider());
    assert!(!PieceType::Knight.is_slider());
    assert!(PieceType::Bishop.is_slider());
    assert!(PieceType::Rook.is_slider());
    assert!(PieceType::Queen.is_slider());
    assert!(!PieceType::King.is_slider());
    assert!(PieceType::PromotedQueen.is_slider());
}

#[test]
fn test_piece_type_from_index_roundtrip() {
    for i in 0..7u8 {
        let pt = PieceType::from_index(i).unwrap();
        assert_eq!(pt.index(), i as usize);
    }
    assert!(PieceType::from_index(7).is_none());
}

#[test]
fn test_piece_type_char_roundtrip() {
    for i in 0..7u8 {
        let pt = PieceType::from_index(i).unwrap();
        let c = pt.char();
        assert_eq!(PieceType::from_char(c), Some(pt));
    }
}

#[test]
fn test_piece_display() {
    let piece = Piece::new(PieceType::King, Player::Red);
    assert_eq!(piece.to_string(), "rK");
    let piece = Piece::new(PieceType::Queen, Player::Blue);
    assert_eq!(piece.to_string(), "bQ");
    let piece = Piece::new(PieceType::PromotedQueen, Player::Yellow);
    assert_eq!(piece.to_string(), "yD");
}

#[test]
fn square_notation_examples() {
    assert_eq!(Square(7).to_notation(), "h1");
    assert_eq!(Square(188).to_notation(), "g14");
    assert_eq!(Square::from_notation("z3"), None);
    assert_eq!(Square::from_notation("a"), None);
    assert_eq!(Square::from_notation("d15"), None);
}

#[test]
fn player_prev_is_inverse_of_next() {
    for p in Player::all() {
        assert_eq!(p.next().prev(), p);
    }
    assert_eq!(Player::Red.prev(), Player::Green);
}
