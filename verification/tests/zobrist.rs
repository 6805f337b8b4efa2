use freyja_engine::types::{valid_square_table, valid_squares_list, PieceType, PLAYERS, TOTAL_SQUARES};
use freyja_engine::zobrist::zobrist_keys;

#[test]
fn test_zobrist_keys_deterministic() {
    let keys1 = zobrist_keys();
    let keys2 = zobrist_keys();
    let table = valid_square_table();
    for pt in 0..PieceType::COUNT {
        for player in 0..PLAYERS {
            for sq in 0..TOTAL_SQUARES {
                if table[sq] {
                    assert_eq!(keys1.piece(pt, player, sq), keys2.piece(pt, player, sq));
                }
            }
        }
    }
    for p in 0..PLAYERS {
        assert_eq!(keys1.side_to_move(p), keys2.side_to_move(p));
    }
}

#[test]
fn test_zobrist_keys_no_duplicates() {
    let keys = zobrist_keys();
    let table = valid_square_table();
    let mut all_keys: Vec<u64> = Vec::new();
    for pt in 0..PieceType::COUNT {
        for player in 0..PLAYERS {
            for sq in 0..TOTAL_SQUARES {
                if table[sq] {
                    all_keys.push(keys.piece(pt, player, sq));
                }
            }
        }
    }
    for p in 0..PLAYERS {
        all_keys.push(keys.side_to_move(p));
    }
    for b in 0..8 {
        all_keys.push(keys.castling(b));
    }
    for &idx in valid_squares_list().iter() {
        all_keys.push(keys.en_passant(idx as usize));
    }
    let len_before = all_keys.len();
    all_keys.sort();
    all_keys.dedup();
    assert_eq!(all_keys.len(), len_before, "Found {} duplicate Zobrist keys", len_before - all_keys.len());
}

#[test]
fn test_zobrist_keys_nonzero() {
    let keys = zobrist_keys();
    let table = valid_square_table();
    for pt in 0..PieceType::COUNT {
        for player in 0..PLAYERS {
            for sq in 0..TOTAL_SQUARES {
                if table[sq] {
                    assert_ne!(keys.piece(pt, player, sq), 0);
                }
            }
        }
    }
    for i in 0..PLAYERS {
        assert_ne!(keys.side_to_move(i), 0);
    }
    for i in 0..8 {
        assert_ne!(keys.castling(i), 0);
    }
}
