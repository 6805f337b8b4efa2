use freyja_engine::move_order::{
    mvv_lva_score, order_captures_mvv_lva, order_moves, score_move, HistoryTable, KillerTable,
    TT_MOVE_SCORE,
};
use freyja_engine::moves::Move;
use freyja_engine::types::{PieceType, Player, Square};

fn make_quiet_move(from: u8, to: u8) -> Move {
    Move::new(Square(from), Square(to), PieceType::Knight)
}

fn make_capture_move(from: u8, to: u8, captured: PieceType) -> Move {
    Move::capture(Square(from), Square(to), PieceType::Pawn, captured)
}

#[test]
fn test_mvv_lva_queen_capture_by_pawn_highest() {
    let qxp = make_capture_move(10, 20, PieceType::Queen); // pawn captures queen
    let pxp = Move::capture(Square(10), Square(20), PieceType::Queen, PieceType::Pawn); // queen captures pawn

    assert!(
        mvv_lva_score(qxp) > mvv_lva_score(pxp),
        "PxQ should score higher than QxP"
    );
}

#[test]
fn test_killer_store_and_check() {
    let mut killers = KillerTable::new();
    let mv1 = make_quiet_move(10, 20);
    let mv2 = make_quiet_move(30, 40);
    let mv3 = make_quiet_move(50, 60);

    killers.store(5, Player::Red, mv1);
    assert!(killers.is_killer_no_stats(5, Player::Red, mv1));
    assert!(!killers.is_killer_no_stats(5, Player::Blue, mv1));
    assert!(!killers.is_killer_no_stats(6, Player::Red, mv1));

    // Store mv2 at same ply — mv1 shifts to slot 1
    killers.store(5, Player::Red, mv2);
    assert!(killers.is_killer_no_stats(5, Player::Red, mv1)); // slot 1
    assert!(killers.is_killer_no_stats(5, Player::Red, mv2)); // slot 0

    // Store mv3 — mv1 is evicted, mv2 shifts to slot 1
    killers.store(5, Player::Red, mv3);
    assert!(!killers.is_killer_no_stats(5, Player::Red, mv1)); // evicted
    assert!(killers.is_killer_no_stats(5, Player::Red, mv2)); // slot 1
    assert!(killers.is_killer_no_stats(5, Player::Red, mv3)); // slot 0
}

#[test]
fn test_killer_no_duplicate() {
    let mut killers = KillerTable::new();
    let mv1 = make_quiet_move(10, 20);
    let mv2 = make_quiet_move(30, 40);

    killers.store(5, Player::Red, mv1);
    killers.store(5, Player::Red, mv2);
    // Store mv1 again — should not shift since it's already slot 1
    // Actually, it's not slot 0, so it will be inserted in slot 0.
    // But the no-duplicate check only prevents re-storing slot 0.
    killers.store(5, Player::Red, mv1);
    // Both should still be present
    assert!(killers.is_killer_no_stats(5, Player::Red, mv1));
    assert!(killers.is_killer_no_stats(5, Player::Red, mv2));
}

#[test]
fn test_history_update_and_get() {
    let mut history = HistoryTable::new();
    assert_eq!(history.get(10, 20), 0);

    history.update(10, 20, 3); // bonus = 9
    assert_eq!(history.get(10, 20), 9);

    history.update(10, 20, 4); // bonus = 16
    assert_eq!(history.get(10, 20), 25);
}

#[test]
fn test_history_age() {
    let mut history = HistoryTable::new();
    history.update(10, 20, 10); // bonus = 100
    assert_eq!(history.get(10, 20), 100);

    history.age();
    assert_eq!(history.get(10, 20), 50);
}

#[test]
fn test_history_clear() {
    let mut history = HistoryTable::new();
    history.update(10, 20, 5);
    assert!(history.get(10, 20) > 0);

    history.clear();
    assert_eq!(history.get(10, 20), 0);
}

#[test]
fn test_score_move_tt_highest() {
    let killers = KillerTable::new();
    let history = HistoryTable::new();
    let mv = make_quiet_move(10, 20);

    let score_with_tt = score_move(mv, Some(mv), &killers, &history, 0, Player::Red);
    let score_without_tt = score_move(mv, None, &killers, &history, 0, Player::Red);

    assert!(score_with_tt > score_without_tt);
    assert_eq!(score_with_tt, TT_MOVE_SCORE);
}

#[test]
fn test_score_move_capture_over_quiet() {
    let killers = KillerTable::new();
    let history = HistoryTable::new();
    let capture = make_capture_move(10, 20, PieceType::Pawn);
    let quiet = make_quiet_move(10, 20);

    let cap_score = score_move(capture, None, &killers, &history, 0, Player::Red);
    let quiet_score = score_move(quiet, None, &killers, &history, 0, Player::Red);

    assert!(
        cap_score > quiet_score,
        "Captures should score higher than quiet moves"
    );
}

#[test]
fn test_order_moves_tt_first() {
    let killers = KillerTable::new();
    let history = HistoryTable::new();
    let mv1 = make_quiet_move(10, 20);
    let mv2 = make_quiet_move(30, 40);
    let mv3 = make_quiet_move(50, 60);

    let mut moves: Vec<Move> = Vec::new();
    moves.push(mv1);
    moves.push(mv2);
    moves.push(mv3);

    // mv2 is the TT move — should be first after ordering
    order_moves(&mut moves, Some(mv2), &killers, &history, 0, Player::Red);
    assert_eq!(moves[0], mv2, "TT move should be first");
}

#[test]
fn test_order_captures_mvv_lva() {
    let pxq = make_capture_move(10, 20, PieceType::Queen); // pawn captures queen
    let pxp = make_capture_move(30, 40, PieceType::Pawn); // pawn captures pawn

    let mut captures: Vec<Move> = Vec::new();
    captures.push(pxp);
    captures.push(pxq);

    order_captures_mvv_lva(&mut captures);
    assert_eq!(captures[0], pxq, "PxQ should come first");
}

#[test]
fn test_promotion_between_captures_and_killers() {
    let mut killers = KillerTable::new();
    let history = HistoryTable::new();
    let quiet = Move::new(Square(10), Square(20), PieceType::Knight);
    killers.store(3, Player::Red, quiet);
    let promo = Move::new_promotion(Square(100), Square(114), None, PieceType::Queen);
    let cap = Move::capture(Square(30), Square(44), PieceType::Queen, PieceType::Pawn);
    let s_promo = score_move(promo, None, &killers, &history, 3, Player::Red);
    let s_cap = score_move(cap, None, &killers, &history, 3, Player::Red);
    let s_killer = score_move(quiet, None, &killers, &history, 3, Player::Red);
    assert_eq!(s_promo, 95_000);
    assert!(s_cap > s_promo);
    assert!(s_promo > s_killer);
}
