use freyja_engine::board::Board;
use freyja_engine::mcts::{lcg_next, oma_choose, OmaPolicy, SequentialHalving};
use freyja_engine::moves::Move;
use freyja_engine::types::{PieceType, Square};

#[test]
fn test_lcg_produces_different_values() {
    let mut state = 12345u64;
    let a = lcg_next(&mut state);
    let b = lcg_next(&mut state);
    let c = lcg_next(&mut state);
    assert_ne!(a, b);
    assert_ne!(b, c);
}

#[test]
fn test_halving_16_candidates_4_rounds() {
    let candidates: Vec<usize> = (0..16).collect();
    let halving = SequentialHalving::new(candidates, 160, 0);
    assert_eq!(halving.total_rounds, 4);
    assert_eq!(halving.candidates.len(), 16);
}

#[test]
fn test_halving_2_candidates_1_round() {
    let candidates: Vec<usize> = (0..2).collect();
    let halving = SequentialHalving::new(candidates, 10, 0);
    assert_eq!(halving.total_rounds, 1);
}

#[test]
fn test_halving_single_candidate() {
    let candidates = vec![0usize];
    let halving = SequentialHalving::new(candidates, 10, 0);
    assert_eq!(halving.total_rounds, 1);
    assert_eq!(halving.winner(), 0);
}

#[test]
fn test_oma_policy_random_fallback() {
    let mut board = Board::starting_position();
    let mut rng1 = 111u64;
    let mut rng2 = 222u64;
    let mv1 = OmaPolicy::select_move(&mut board, None, &mut rng1);
    let mv2 = OmaPolicy::select_move(&mut board, None, &mut rng2);
    assert!(mv1.is_some());
    assert!(mv2.is_some());
}

#[test]
fn test_oma_board_preserved_after_select() {
    let mut board = Board::starting_position();
    let hash_before = board.zobrist_hash();
    let _ = OmaPolicy::select_move(&mut board, None, &mut 42u64);
    assert_eq!(
        board.zobrist_hash(),
        hash_before,
        "OmaPolicy::select_move must preserve board state"
    );
}

#[test]
fn lcg_step_value() {
    let mut state = 0u64;
    let a = lcg_next(&mut state);
    assert_eq!(a, 1442695040888963407);
    assert_eq!(state, a);
    let b = lcg_next(&mut state);
    assert_eq!(b, 1442695040888963407u64.wrapping_mul(6364136223846793005).wrapping_add(1442695040888963407));
}

#[test]
fn halving_rounds_and_budget() {
    let h = SequentialHalving::new((0..5).collect(), 100, 1);
    assert_eq!(h.total_rounds, 3);
    assert_eq!(h.sims_per_candidate, 100 / 15);
    let h = SequentialHalving::new(Vec::new(), 0, 0);
    assert_eq!(h.total_rounds, 1);
    assert_eq!(h.sims_per_candidate, 1);
    assert_eq!(h.winner(), 0);
}

#[test]
fn halving_advance_keeps_better_half() {
    let mut h = SequentialHalving::new((0..8).collect(), 240, 0);
    assert_eq!(h.total_rounds, 3);
    assert_eq!(h.sims_this_round(), 10);
    let more = h.advance_round_with(&vec![7, 6, 5, 4, 3, 2, 1, 0]);
    assert!(more);
    assert_eq!(h.current_candidates(), &vec![7, 6, 5, 4]);
    assert_eq!(h.round, 1);
    assert_eq!(h.sims_this_round(), 240 / (4 * 2));
    let more = h.advance_round_with(&vec![5, 7, 6, 4]);
    assert!(more);
    assert_eq!(h.current_candidates(), &vec![5, 7]);
    let more = h.advance_round_with(&vec![7, 5]);
    assert!(!more);
    assert_eq!(h.winner(), 7);
    let more = h.advance_round_with(&vec![7]);
    assert!(!more);
    assert_eq!(h.round, 3);
}

#[test]
fn oma_choice_priorities() {
    let quiet = Move::new(Square(17), Square(31), PieceType::Pawn);
    let quiet2 = Move::new(Square(18), Square(32), PieceType::Pawn);
    let cap_pawn = Move::capture(Square(60), Square(74), PieceType::Queen, PieceType::Pawn);
    let cap_queen = Move::capture(Square(61), Square(75), PieceType::Pawn, PieceType::Queen);
    let legals = vec![quiet, quiet2, cap_pawn, cap_queen];
    let mut rng = 5u64;
    let mate = Some(quiet2);
    assert_eq!(oma_choose(mate, &vec![cap_pawn, cap_queen], None, &legals, None, &mut rng), Some(quiet2));
    assert_eq!(oma_choose(None, &vec![cap_queen, cap_pawn], Some(quiet), &legals, None, &mut rng), Some(cap_queen));
    assert_eq!(oma_choose(None, &vec![], Some(quiet), &legals, None, &mut rng), Some(quiet));
    let mut hist = vec![0u32; 196 * 196];
    hist[18 * 196 + 32] = 7;
    assert_eq!(oma_choose(None, &vec![], None, &legals, Some(&hist), &mut rng), Some(quiet2));
    assert_eq!(rng, 5);
    let expected = {
        let mut s = 5u64;
        let v = lcg_next(&mut s);
        legals[((v >> 33) as usize) % legals.len()]
    };
    assert_eq!(oma_choose(None, &vec![], None, &legals, None, &mut rng), Some(expected));
    assert_ne!(rng, 5);
    assert_eq!(oma_choose(None, &vec![], None, &vec![], None, &mut rng), None);
}
