use freyja_engine::moves::Move;
use freyja_engine::output::{format_bestmove, format_eliminated, format_error, format_info, format_nextturn};
use freyja_engine::types::{Player, Square};

#[test]
fn test_bestmove_with_move() {
    let mv = Move::new(
        Square::from_notation("d2").unwrap(),
        Square::from_notation("d4").unwrap(),
        freyja_engine::types::PieceType::Pawn,
    );
    assert_eq!(format_bestmove(Some(mv)), "bestmove d2d4");
}

#[test]
fn test_bestmove_none() {
    assert_eq!(format_bestmove(None), "bestmove (none)");
}

#[test]
fn test_info_full() {
    let result = format_info(
        Some(5),
        Some([150, 120, 100, 140]),
        Some(50000),
        Some(100000),
        None,
    );
    assert_eq!(
        result,
        "info depth 5 score red 150 blue 120 yellow 100 green 140 nodes 50000 nps 100000"
    );
}

#[test]
fn test_info_depth_only() {
    assert_eq!(format_info(Some(3), None, None, None, None), "info depth 3");
}

#[test]
fn test_eliminated() {
    assert_eq!(
        format_eliminated(Player::Red, "checkmate"),
        "info string eliminated Red checkmate"
    );
}

#[test]
fn test_nextturn() {
    assert_eq!(format_nextturn(Player::Blue), "info string nextturn Blue");
}

#[test]
fn test_error() {
    assert_eq!(
        format_error("unknown command 'bogus'"),
        "info string error: unknown command 'bogus'"
    );
}
