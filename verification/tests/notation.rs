use freyja_engine::game_state::GameState;
use freyja_engine::notation::{parse_move_str, parse_promo_char, parse_square_prefix};
use freyja_engine::types::{PieceType, Square};

#[test]
fn test_parse_square_prefix_single_digit_rank() {
    let (sq, rest) = parse_square_prefix("d2d4").unwrap();
    assert_eq!(sq, Square::from_notation("d2").unwrap());
    assert_eq!(rest, "d4");
}

#[test]
fn test_parse_square_prefix_double_digit_rank() {
    // a14 is a corner square (invalid), use d14 which is valid
    let (sq, rest) = parse_square_prefix("d14d1").unwrap();
    assert_eq!(sq, Square::from_notation("d14").unwrap());
    assert_eq!(rest, "d1");
}

#[test]
fn test_parse_move_from_starting_position() {
    let mut gs = GameState::new_standard_ffa();
    let legal = gs.legal_moves();
    // Red's pawn d2->d4 should be a legal double-push
    let mv = parse_move_str("d2d4", &legal).unwrap();
    assert_eq!(mv.from_sq(), Square::from_notation("d2").unwrap());
    assert_eq!(mv.to_sq(), Square::from_notation("d4").unwrap());
}

#[test]
fn test_parse_move_single_push() {
    let mut gs = GameState::new_standard_ffa();
    let legal = gs.legal_moves();
    let mv = parse_move_str("d2d3", &legal).unwrap();
    assert_eq!(mv.from_sq(), Square::from_notation("d2").unwrap());
    assert_eq!(mv.to_sq(), Square::from_notation("d3").unwrap());
}

#[test]
fn test_parse_illegal_move() {
    let mut gs = GameState::new_standard_ffa();
    let legal = gs.legal_moves();
    assert!(parse_move_str("d2d5", &legal).is_err());
}

#[test]
fn test_parse_move_too_short() {
    assert!(parse_move_str("d2", &[]).is_err());
}

#[test]
fn test_parse_move_invalid_square() {
    assert!(parse_move_str("z2d4", &[]).is_err());
}

#[test]
fn test_parse_promo_char() {
    assert_eq!(parse_promo_char("q"), Some(PieceType::PromotedQueen));
    assert_eq!(parse_promo_char("r"), Some(PieceType::Rook));
    assert_eq!(parse_promo_char("b"), Some(PieceType::Bishop));
    assert_eq!(parse_promo_char("n"), Some(PieceType::Knight));
    assert_eq!(parse_promo_char("x"), None);
    assert_eq!(parse_promo_char("qq"), None);
}
