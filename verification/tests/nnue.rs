use freyja_engine::board::{Board, ALL_DIRS, DIAGONAL_DIRS, KNIGHT_OFFSETS, ORTHOGONAL_DIRS, PAWN_CAPTURE_DELTAS};
use freyja_engine::eval::{bfs_territory_enhanced, is_active_for_zones, Evaluator, SwarmInfo, ELIMINATED_SCORE};
use freyja_engine::game_state::GameState;
use freyja_engine::nnue::accumulator::Accumulator;
use freyja_engine::nnue::features::{
    collect_active_features, feature_index, relative_player, square_to_valid_index, valid_index_to_square,
    zone_feature_index, NUM_PIECE_SQ_FEATURES, NUM_PIECE_TYPES, NUM_VALID_SQUARES, NUM_ZONE_FEATURES,
    TOTAL_FEATURES, HIDDEN1_SIZE, HIDDEN2_SIZE,
};
use freyja_engine::nnue::forward::forward_pass;
use freyja_engine::nnue::weights::NnueWeights;
use freyja_engine::nnue::NnueEvaluator;
use freyja_engine::types::{is_valid_square, valid_squares_list, PieceType, Player, Square, PLAYERS, TOTAL_SQUARES};

const HEADER_SIZE: usize = 28;

// ─── Helpers: the floating-point zone features and the evaluator trait ─────


/// Base influence weight per piece type.
const INFLUENCE_WEIGHTS: [f32; 7] = [1.0, 3.0, 3.5, 5.0, 9.0, 1.0, 9.0];

/// Minimum combined influence to consider a square contested.
const TENSION_THRESHOLD: f32 = 2.0;

/// Influence map result per player.
struct InfluenceInfo {
    /// Total influence per player over all playable squares.
    total: [f32; PLAYERS],
    /// Own influence minus the strongest opponent's.
    net: [f32; PLAYERS],
    /// Per-square per-player influence.
    grid: [[f32; PLAYERS]; TOTAL_SQUARES],
}

#[allow(clippy::too_many_arguments)]
fn ray_attenuated(
    board: &Board,
    origin_rank: i8,
    origin_file: i8,
    dr: i8,
    df: i8,
    piece_weight: f32,
    player_idx: usize,
    grid: &mut [[f32; PLAYERS]; TOTAL_SQUARES],
) {
    let mut influence = piece_weight;
    let mut rank = origin_rank + dr;
    let mut file = origin_file + df;
    while rank >= 0 && rank < 14 && file >= 0 && file < 14 {
        let r = rank as u8;
        let f = file as u8;
        if !is_valid_square(r, f) {
            rank += dr;
            file += df;
            continue;
        }
        let idx = r as usize * 14 + f as usize;
        grid[idx][player_idx] += influence;
        if let Some(blocker) = board.piece_at(Square(idx as u8)) {
            let is_friendly = blocker.player.index() == player_idx;
            let blocker_resistance = if is_friendly {
                1.5
            } else {
                2.0 + INFLUENCE_WEIGHTS[blocker.piece_type.index()] * 0.3
            };
            influence /= blocker_resistance;
            if influence < 0.1 {
                break;
            }
        }
        rank += dr;
        file += df;
    }
}

fn add_if_valid(grid: &mut [[f32; PLAYERS]; TOTAL_SQUARES], nr: i8, nf: i8, pi: usize, weight: f32) {
    if nr >= 0 && nr < 14 && nf >= 0 && nf < 14 && is_valid_square(nr as u8, nf as u8) {
        let nidx = nr as usize * 14 + nf as usize;
        grid[nidx][pi] += weight;
    }
}

/// Ray-attenuated influence maps for all active players.
fn compute_influence(state: &GameState) -> InfluenceInfo {
    let board = state.board();
    let mut grid = [[0.0f32; PLAYERS]; TOTAL_SQUARES];
    for player in Player::all() {
        if !is_active_for_zones(state, player) {
            continue;
        }
        let pi = player.index();
        for (piece_type, sq) in board.pieces(player) {
            let weight = INFLUENCE_WEIGHTS[piece_type.index()];
            let rank = sq.rank() as i8;
            let file = sq.file() as i8;
            grid[sq.index() as usize][pi] += weight;
            match piece_type {
                PieceType::Rook => {
                    for &(dr, df) in &ORTHOGONAL_DIRS {
                        ray_attenuated(board, rank, file, dr, df, weight, pi, &mut grid);
                    }
                }
                PieceType::Bishop => {
                    for &(dr, df) in &DIAGONAL_DIRS {
                        ray_attenuated(board, rank, file, dr, df, weight, pi, &mut grid);
                    }
                }
                PieceType::Queen | PieceType::PromotedQueen => {
                    for &(dr, df) in &ALL_DIRS {
                        ray_attenuated(board, rank, file, dr, df, weight, pi, &mut grid);
                    }
                }
                PieceType::Knight => {
                    for &(dr, df) in &KNIGHT_OFFSETS {
                        add_if_valid(&mut grid, rank + dr, file + df, pi, weight);
                    }
                }
                PieceType::Pawn => {
                    for &(dr, df) in &PAWN_CAPTURE_DELTAS[player.index()] {
                        add_if_valid(&mut grid, rank + dr, file + df, pi, weight);
                    }
                }
                PieceType::King => {
                    for &(dr, df) in &ALL_DIRS {
                        add_if_valid(&mut grid, rank + dr, file + df, pi, weight);
                    }
                }
            }
        }
    }
    let mut total = [0.0f32; PLAYERS];
    let mut net = [0.0f32; PLAYERS];
    for &idx in valid_squares_list().iter() {
        let sq_grid = &grid[idx as usize];
        for pi in 0..PLAYERS {
            total[pi] += sq_grid[pi];
        }
    }
    for pi in 0..PLAYERS {
        let max_opp = total
            .iter()
            .enumerate()
            .filter(|&(oi, _)| oi != pi)
            .map(|(_, &v)| v)
            .fold(0.0f32, f32::max);
        net[pi] = total[pi] - max_opp;
    }
    InfluenceInfo { total, net, grid }
}

/// Tension score per player: safe pieces rewarded, exposed pieces penalised.
fn compute_tension(state: &GameState, influence: &InfluenceInfo) -> [i16; PLAYERS] {
    let board = state.board();
    let mut scores = [0i16; PLAYERS];
    for player in Player::all() {
        if !is_active_for_zones(state, player) {
            continue;
        }
        let pi = player.index();
        let mut safe_count: i16 = 0;
        let mut exposed_count: i16 = 0;
        for (_, sq) in board.pieces(player) {
            let idx = sq.index() as usize;
            let my_inf = influence.grid[idx][pi];
            let mut max_opp_inf = 0.0f32;
            for oi in 0..PLAYERS {
                if oi != pi && influence.grid[idx][oi] > max_opp_inf {
                    max_opp_inf = influence.grid[idx][oi];
                }
            }
            if my_inf + max_opp_inf > TENSION_THRESHOLD && max_opp_inf > my_inf * 0.5 {
                exposed_count += 1;
            } else if my_inf > max_opp_inf * 2.0 {
                safe_count += 1;
            }
        }
        scores[pi] = safe_count * 3 - exposed_count * 5;
    }
    scores
}

fn defended_by_pawn(board: &Board, player: Player, sq: Square) -> bool {
    let pi = player.index();
    for &(dr, df) in &PAWN_CAPTURE_DELTAS[pi] {
        let pr = sq.rank() as i8 - dr;
        let pf = sq.file() as i8 - df;
        if pr >= 0 && pr < 14 && pf >= 0 && pf < 14 && is_valid_square(pr as u8, pf as u8) {
            let pidx = pr as usize * 14 + pf as usize;
            if let Some(p) = board.piece_at(Square(pidx as u8)) {
                if p.player == player && p.piece_type == PieceType::Pawn {
                    return true;
                }
            }
        }
    }
    false
}

/// Swarm features: mutual defence, attack coordination, pawn chains.
fn compute_swarm(state: &GameState, influence: &InfluenceInfo) -> SwarmInfo {
    let board = state.board();
    let mut defended = [0i16; PLAYERS];
    let mut undefended = [0i16; PLAYERS];
    let mut coordinated = [0i16; PLAYERS];
    let mut pawn_chain = [0i16; PLAYERS];
    for player in Player::all() {
        if !is_active_for_zones(state, player) {
            continue;
        }
        let pi = player.index();
        for (piece_type, sq) in board.pieces(player) {
            let pawn_defended = defended_by_pawn(board, player, sq);
            let mut is_defended = pawn_defended;
            if !is_defended {
                let own_weight = INFLUENCE_WEIGHTS[piece_type.index()];
                if influence.grid[sq.index() as usize][pi] > own_weight + 0.5 {
                    is_defended = true;
                }
            }
            if is_defended {
                defended[pi] += 1;
            } else {
                undefended[pi] += 1;
            }
            if piece_type == PieceType::Pawn && pawn_defended {
                pawn_chain[pi] += 1;
            }
        }
        let coordination_threshold = 5.0f32;
        for &idx in valid_squares_list().iter() {
            if influence.grid[idx as usize][pi] >= coordination_threshold {
                coordinated[pi] += 1;
            }
        }
    }
    SwarmInfo {
        defended_pieces: defended,
        undefended_pieces: undefended,
        coordinated_squares: coordinated,
        pawn_chain,
    }
}

/// The eight zone summary features of each perspective, as the NNUE
/// evaluator reads them.
fn nnue_zone_features(state: &GameState) -> [[i16; 8]; 4] {
    let territory = bfs_territory_enhanced(state);
    let influence = compute_influence(state);
    let tension = compute_tension(state, &influence);
    let swarm = compute_swarm(state, &influence);
    let mut out = [[0i16; 8]; 4];
    for pi in 0..4 {
        out[pi] = [
            territory.counts[pi],
            territory.frontier[pi],
            influence.net[pi] as i16,
            tension[pi],
            swarm.defended_pieces[pi],
            swarm.undefended_pieces[pi],
            swarm.coordinated_squares[pi],
            swarm.pawn_chain[pi],
        ];
    }
    out
}

struct Nnue(NnueEvaluator);

impl Evaluator for Nnue {
    fn eval_scalar(&self, state: &GameState, player: Player) -> i16 {
        self.0.eval_scalar_with(state, nnue_zone_features(state), player)
    }

    fn eval_4vec(&self, state: &GameState) -> [i16; 4] {
        self.0.eval_4vec_with(state, nnue_zone_features(state))
    }
}

fn nnue(seed: u64) -> Nnue {
    Nnue(NnueEvaluator::with_random_weights(seed))
}


#[test]
fn test_valid_square_mapping_count() {
    let count = (0..196u8).filter(|&s| square_to_valid_index(s) != 255).count();
    assert_eq!(count, NUM_VALID_SQUARES);
}

#[test]
fn test_valid_index_round_trip() {
    for valid_idx in 0..NUM_VALID_SQUARES {
        let raw_sq = valid_index_to_square(valid_idx as u8);
        assert_eq!(
            square_to_valid_index(raw_sq), valid_idx as u8,
            "Round-trip failed for valid_idx={valid_idx}"
        );
    }
}

#[test]
fn test_relative_player_self_is_zero() {
    for p in Player::all() {
        assert_eq!(relative_player(p, p), 0, "Self should be relative 0");
    }
}

#[test]
fn test_relative_player_next() {
    assert_eq!(relative_player(Player::Red, Player::Blue), 1);
    assert_eq!(relative_player(Player::Blue, Player::Yellow), 1);
    assert_eq!(relative_player(Player::Yellow, Player::Green), 1);
    assert_eq!(relative_player(Player::Green, Player::Red), 1);
}

#[test]
fn test_relative_player_across() {
    assert_eq!(relative_player(Player::Red, Player::Yellow), 2);
    assert_eq!(relative_player(Player::Blue, Player::Green), 2);
}

#[test]
fn test_relative_player_prev() {
    assert_eq!(relative_player(Player::Red, Player::Green), 3);
    assert_eq!(relative_player(Player::Blue, Player::Red), 3);
}

#[test]
fn test_feature_index_bounds() {
    // Test all combinations produce valid indices
    for perspective in Player::all() {
        for &raw_sq in valid_squares_list().iter() {
            let sq = Square::from_index(raw_sq).unwrap();
            for player in Player::all() {
                for pt_idx in 0..NUM_PIECE_TYPES {
                    let pt = match pt_idx {
                        0 => PieceType::Pawn,
                        1 => PieceType::Knight,
                        2 => PieceType::Bishop,
                        3 => PieceType::Rook,
                        4 => PieceType::Queen,
                        5 => PieceType::King,
                        6 => PieceType::PromotedQueen,
                        _ => unreachable!(),
                    };
                    let idx = feature_index(perspective, sq, pt, player).unwrap();
                    assert!(
                        (idx as usize) < NUM_PIECE_SQ_FEATURES,
                        "Feature index {idx} out of bounds for perspective={perspective:?}, sq={sq:?}, pt={pt_idx}, player={player:?}"
                    );
                }
            }
        }
    }
}

#[test]
fn test_feature_index_uniqueness_for_different_perspectives() {
    // Same piece on same square should produce different feature indices
    // from different perspectives (because relative_player changes).
    let sq = Square::new(4, 4).unwrap();
    let pt = PieceType::Pawn;
    let owner = Player::Red;

    let idx_from_red = feature_index(Player::Red, sq, pt, owner).unwrap();
    let idx_from_blue = feature_index(Player::Blue, sq, pt, owner).unwrap();
    let idx_from_yellow = feature_index(Player::Yellow, sq, pt, owner).unwrap();
    let idx_from_green = feature_index(Player::Green, sq, pt, owner).unwrap();

    // Red sees Red as self (rel=0), Blue sees Red as prev (rel=3)
    assert_ne!(idx_from_red, idx_from_blue);
    assert_ne!(idx_from_red, idx_from_yellow);
    assert_ne!(idx_from_red, idx_from_green);
}

#[test]
fn test_feature_index_symmetry() {
    // Red seeing Blue's piece should have the same relative offset
    // as Blue seeing Yellow's piece (both rel_player=1).
    let sq = Square::new(5, 5).unwrap();
    let pt = PieceType::Knight;

    let red_sees_blue = feature_index(Player::Red, sq, pt, Player::Blue).unwrap();
    let blue_sees_yellow = feature_index(Player::Blue, sq, pt, Player::Yellow).unwrap();

    // Same square, same piece type, same relative player (1) → same index
    assert_eq!(red_sees_blue, blue_sees_yellow);
}

#[test]
fn test_feature_index_invalid_square() {
    // Corner square (0,0) is invalid
    let sq = Square(0); // rank=0, file=0 → invalid corner
    assert!(feature_index(Player::Red, sq, PieceType::Pawn, Player::Red).is_none());
}

#[test]
fn test_zone_feature_index() {
    assert_eq!(zone_feature_index(0) as usize, NUM_PIECE_SQ_FEATURES);
    assert_eq!(
        zone_feature_index(NUM_ZONE_FEATURES - 1) as usize,
        TOTAL_FEATURES - 1
    );
}

#[test]
fn test_collect_active_features_starting_position() {
    let board = Board::starting_position();
    let features = collect_active_features(&board, Player::Red);
    let count = features.len();
    // Starting position: 4 players × 16 pieces = 64 pieces
    assert_eq!(count, 64);
    // All indices should be in bounds
    for &idx in &features[..count] {
        assert!((idx as usize) < NUM_PIECE_SQ_FEATURES);
    }
}

#[test]
fn test_all_perspectives_same_feature_count() {
    let board = Board::starting_position();
    for perspective in Player::all() {
        let count = collect_active_features(&board, perspective).len();
        assert_eq!(count, 64, "All perspectives should see 64 pieces");
    }
}


#[test]
fn test_accumulator_size() {
    // 256 × 2 bytes = 512 bytes, padded to align(32) boundary
    assert!(std::mem::size_of::<Accumulator>() >= 512);
}

#[test]
fn test_refresh_deterministic() {
    let board = Board::starting_position();
    let weights = NnueWeights::random(42);

    let mut acc1 = Accumulator::new();
    let mut acc2 = Accumulator::new();
    acc1.refresh(&board, Player::Red, &weights);
    acc2.refresh(&board, Player::Red, &weights);

    assert_eq!(acc1.values, acc2.values, "Refresh should be deterministic");
}

#[test]
fn test_refresh_different_perspectives() {
    let board = Board::starting_position();
    let weights = NnueWeights::random(42);

    let mut acc_red = Accumulator::new();
    let mut acc_blue = Accumulator::new();
    acc_red.refresh(&board, Player::Red, &weights);
    acc_blue.refresh(&board, Player::Blue, &weights);

    // Different perspectives should (almost certainly) produce different values
    // with random weights
    assert_ne!(
        acc_red.values, acc_blue.values,
        "Different perspectives should produce different accumulators"
    );
}

#[test]
fn test_refresh_with_zero_weights_equals_bias() {
    let board = Board::starting_position();
    let mut weights = NnueWeights::zeros();
    // Set a distinctive bias pattern
    for (i, b) in weights.feature_biases.iter_mut().enumerate() {
        *b = (i as i16) * 3 - 100;
    }

    let mut acc = Accumulator::new();
    acc.refresh(&board, Player::Red, &weights);

    // With zero feature weights, result should be bias only
    assert_eq!(acc.values, weights.feature_biases);
}


#[test]
fn test_forward_pass_zero_accumulators() {
    let weights = NnueWeights::random(42);
    let accs = [
        Accumulator::new(),
        Accumulator::new(),
        Accumulator::new(),
        Accumulator::new(),
    ];

    let scores = forward_pass(&accs, &weights);
    // With zero accumulators, output depends on biases + ReLU behavior.
    // All 4 perspectives use same weights and same zero input → same output.
    assert_eq!(scores[0], scores[1]);
    assert_eq!(scores[1], scores[2]);
    assert_eq!(scores[2], scores[3]);
}

#[test]
fn test_forward_pass_deterministic() {
    let weights = NnueWeights::random(42);
    let mut accs = [
        Accumulator::new(),
        Accumulator::new(),
        Accumulator::new(),
        Accumulator::new(),
    ];
    // Put some non-zero values in accumulators
    let board = Board::starting_position();
    for (i, player) in Player::all().iter().enumerate() {
        accs[i].refresh(&board, *player, &weights);
    }

    let scores1 = forward_pass(&accs, &weights);
    let scores2 = forward_pass(&accs, &weights);
    assert_eq!(scores1, scores2, "Forward pass must be deterministic");
}

#[test]
fn test_forward_pass_different_accumulators_different_output() {
    let weights = NnueWeights::random(42);
    let board = Board::starting_position();

    let mut accs = [
        Accumulator::new(),
        Accumulator::new(),
        Accumulator::new(),
        Accumulator::new(),
    ];
    for (i, player) in Player::all().iter().enumerate() {
        accs[i].refresh(&board, *player, &weights);
    }

    let scores = forward_pass(&accs, &weights);
    // Due to board symmetry in starting position, Red and Yellow (across)
    // might have similar but likely not identical scores with random weights.
    // At minimum, values should be finite and within reasonable range.
    for &s in &scores {
        assert!(
            s > -10000 && s < 10000,
            "Score {s} is unreasonably large for random weights"
        );
    }
}

#[test]
fn test_forward_pass_perspectives_independent() {
    let weights = NnueWeights::random(42);
    let board = Board::starting_position();

    // Compute with normal accumulators
    let mut accs = [
        Accumulator::new(),
        Accumulator::new(),
        Accumulator::new(),
        Accumulator::new(),
    ];
    for (i, player) in Player::all().iter().enumerate() {
        accs[i].refresh(&board, *player, &weights);
    }
    let scores_normal = forward_pass(&accs, &weights);

    // Zero out accumulator 0 (Red) and recompute
    accs[0] = Accumulator::new();
    let scores_modified = forward_pass(&accs, &weights);

    // Red's score should change, others should not
    assert_ne!(scores_normal[0], scores_modified[0]);
    assert_eq!(scores_normal[1], scores_modified[1]);
    assert_eq!(scores_normal[2], scores_modified[2]);
    assert_eq!(scores_normal[3], scores_modified[3]);
}


#[test]
fn test_nnue_evaluator_implements_evaluator_trait() {
    let eval: Box<dyn Evaluator> = Box::new(nnue(42));
    let state = GameState::new(Board::starting_position());
    let scores = eval.eval_4vec(&state);
    // Should produce values for all 4 players
    for &s in &scores {
        assert_ne!(s, ELIMINATED_SCORE);
    }
}

#[test]
fn test_nnue_evaluator_deterministic() {
    let eval = nnue(42);
    let state = GameState::new(Board::starting_position());
    let scores1 = eval.eval_4vec(&state);
    let scores2 = eval.eval_4vec(&state);
    assert_eq!(scores1, scores2);
}

#[test]
fn test_nnue_evaluator_clone_independent() {
    let eval1 = nnue(42);
    let eval2 = Nnue(eval1.0.clone());
    let state = GameState::new(Board::starting_position());
    // Both should produce identical results (shared weights)
    assert_eq!(eval1.eval_4vec(&state), eval2.eval_4vec(&state));
}

#[test]
fn test_nnue_evaluator_scalar_matches_4vec() {
    let eval = nnue(42);
    let state = GameState::new(Board::starting_position());
    let vec = eval.eval_4vec(&state);
    for player in Player::all() {
        assert_eq!(
            eval.eval_scalar(&state, player),
            vec[player.index()],
            "eval_scalar should match eval_4vec component for {player:?}"
        );
    }
}

#[test]
fn test_nnue_evaluator_zero_centered() {
    let eval = nnue(42);
    let state = GameState::new(Board::starting_position());
    let scores = eval.eval_4vec(&state);
    // Sum of all 4 scores should be near 0 (zero-centered)
    let sum: i32 = scores.iter().map(|&s| s as i32).sum();
    assert!(
        sum.abs() < 4,
        "Scores should be zero-centered, sum={sum}, scores={scores:?}"
    );
}

#[test]
fn test_nnue_evaluator_reasonable_range() {
    let eval = nnue(42);
    let state = GameState::new(Board::starting_position());
    let scores = eval.eval_4vec(&state);
    for &s in &scores {
        assert!(
            s > -10000 && s < 10000,
            "Score {s} out of reasonable range for random weights"
        );
    }
}

#[test]
fn test_nnue_different_seeds_different_output() {
    let eval1 = nnue(42);
    let eval2 = nnue(99);
    let state = GameState::new(Board::starting_position());
    assert_ne!(
        eval1.eval_4vec(&state),
        eval2.eval_4vec(&state),
        "Different weight seeds should produce different outputs"
    );
}


#[test]
fn test_random_weights_deterministic() {
    let w1 = NnueWeights::random(42);
    let w2 = NnueWeights::random(42);
    assert_eq!(w1.feature_biases, w2.feature_biases);
    assert_eq!(w1.hidden1_biases, w2.hidden1_biases);
    assert_eq!(w1.hidden2_weights, w2.hidden2_weights);
    assert_eq!(w1.hidden2_bias, w2.hidden2_bias);
}

#[test]
fn test_different_seeds_different_weights() {
    let w1 = NnueWeights::random(42);
    let w2 = NnueWeights::random(123);
    assert_ne!(w1.feature_biases, w2.feature_biases);
}

#[test]
fn test_save_load_round_trip() {
    let original = NnueWeights::random(42);

    // Save to memory buffer
    let buf = original.save();

    // Load back
    let loaded = NnueWeights::load(&buf).unwrap();

    // Verify exact match
    assert_eq!(original.feature_biases, loaded.feature_biases);
    assert_eq!(original.hidden1_biases, loaded.hidden1_biases);
    assert_eq!(original.hidden2_weights, loaded.hidden2_weights);
    assert_eq!(original.hidden2_bias, loaded.hidden2_bias);

    // Spot-check feature weights
    for i in 0..10 {
        assert_eq!(original.feature_weights[i], loaded.feature_weights[i]);
    }
    // Check last few rows too
    for i in (TOTAL_FEATURES - 5)..TOTAL_FEATURES {
        assert_eq!(original.feature_weights[i], loaded.feature_weights[i]);
    }

    // Check hidden1 weights
    for i in 0..HIDDEN1_SIZE {
        assert_eq!(original.hidden1_weights[i], loaded.hidden1_weights[i]);
    }
}

#[test]
fn test_invalid_magic_rejected() {
    let mut buf = vec![0u8; HEADER_SIZE + 100]; // garbage data
    buf[0..4].copy_from_slice(b"NOPE");
    let result = NnueWeights::load(&buf);
    assert!(result.is_err());
    let err = result.as_ref().err().unwrap();
    assert!(err.to_string().contains("magic"));
}

#[test]
fn test_architecture_hash_consistent() {
    let h1 = NnueWeights::architecture_hash();
    let h2 = NnueWeights::architecture_hash();
    assert_eq!(h1, h2);
    assert_ne!(h1, 0);
}

#[test]
fn test_save_file_size() {
    let weights = NnueWeights::random(42);
    let buf = weights.save();

    let expected_size = HEADER_SIZE
        + TOTAL_FEATURES * HIDDEN1_SIZE * 2 // feature_weights
        + HIDDEN1_SIZE * 2                   // feature_biases
        + HIDDEN1_SIZE * HIDDEN2_SIZE * 2    // hidden1_weights
        + HIDDEN2_SIZE * 2                   // hidden1_biases
        + HIDDEN2_SIZE * 2                   // hidden2_weights
        + 2; // hidden2_bias

    assert_eq!(buf.len(), expected_size);
}

#[test]
fn test_zeros() {
    let w = NnueWeights::zeros();
    assert_eq!(w.hidden2_bias, 0);
    assert!(w.feature_biases.iter().all(|&v| v == 0));
}

