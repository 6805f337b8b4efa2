use freyja_engine::eval::defended_by_pawn;
use freyja_engine::board::{Board, ALL_DIRS, DIAGONAL_DIRS, KNIGHT_OFFSETS, ORTHOGONAL_DIRS, PAWN_CAPTURE_DELTAS};
use freyja_engine::eval::{
    bfs_territory_enhanced, is_active_for_zones, king_escape_routes, piece_value, rotate_for_player,
    BootstrapEvaluator, SwarmInfo, ZoneWeights, ELIMINATED_SCORE,
};
use freyja_engine::game_state::{GameState, PlayerStatus};
use freyja_engine::types::{
    is_valid_square, valid_squares_list, Piece, PieceType, Player, Square, PLAYERS, TOTAL_SQUARES,
    VALID_SQUARES,
};

// ─── Helpers: the floating-point zone features and the full evaluation ─────


/// Base influence weight per piece type.
const INFLUENCE_WEIGHTS: [f32; 7] = [1.0, 3.0, 3.5, 5.0, 9.0, 1.0, 9.0];

/// Minimum combined influence to consider a square contested.
const TENSION_THRESHOLD: f32 = 2.0;

/// Influence map result per player.
struct InfluenceInfo {
    /// Total influence per player over all playable squares.
    total: [f32; PLAYERS],
    /// Own influence minus the strongest opponent's.
    net: [f32; PLAYERS],
    /// Per-square per-player influence.
    grid: [[f32; PLAYERS]; TOTAL_SQUARES],
}

#[allow(clippy::too_many_arguments)]
fn ray_attenuated(
    board: &Board,
    origin_rank: i8,
    origin_file: i8,
    dr: i8,
    df: i8,
    piece_weight: f32,
    player_idx: usize,
    grid: &mut [[f32; PLAYERS]; TOTAL_SQUARES],
) {
    let mut influence = piece_weight;
    let mut rank = origin_rank + dr;
    let mut file = origin_file + df;
    while rank >= 0 && rank < 14 && file >= 0 && file < 14 {
        let r = rank as u8;
        let f = file as u8;
        if !is_valid_square(r, f) {
            rank += dr;
            file += df;
            continue;
        }
        let idx = r as usize * 14 + f as usize;
        grid[idx][player_idx] += influence;
        if let Some(blocker) = board.piece_at(Square(idx as u8)) {
            let is_friendly = blocker.player.index() == player_idx;
            let blocker_resistance = if is_friendly {
                1.5
            } else {
                2.0 + INFLUENCE_WEIGHTS[blocker.piece_type.index()] * 0.3
            };
            influence /= blocker_resistance;
            if influence < 0.1 {
                break;
            }
        }
        rank += dr;
        file += df;
    }
}

fn add_if_valid(grid: &mut [[f32; PLAYERS]; TOTAL_SQUARES], nr: i8, nf: i8, pi: usize, weight: f32) {
    if nr >= 0 && nr < 14 && nf >= 0 && nf < 14 && is_valid_square(nr as u8, nf as u8) {
        let nidx = nr as usize * 14 + nf as usize;
        grid[nidx][pi] += weight;
    }
}

/// Ray-attenuated influence maps for all active players.
fn compute_influence(state: &GameState) -> InfluenceInfo {
    let board = state.board();
    let mut grid = [[0.0f32; PLAYERS]; TOTAL_SQUARES];
    for player in Player::all() {
        if !is_active_for_zones(state, player) {
            continue;
        }
        let pi = player.index();
        for (piece_type, sq) in board.pieces(player) {
            let weight = INFLUENCE_WEIGHTS[piece_type.index()];
            let rank = sq.rank() as i8;
            let file = sq.file() as i8;
            grid[sq.index() as usize][pi] += weight;
            match piece_type {
                PieceType::Rook => {
                    for &(dr, df) in &ORTHOGONAL_DIRS {
                        ray_attenuated(board, rank, file, dr, df, weight, pi, &mut grid);
                    }
                }
                PieceType::Bishop => {
                    for &(dr, df) in &DIAGONAL_DIRS {
                        ray_attenuated(board, rank, file, dr, df, weight, pi, &mut grid);
                    }
                }
                PieceType::Queen | PieceType::PromotedQueen => {
                    for &(dr, df) in &ALL_DIRS {
                        ray_attenuated(board, rank, file, dr, df, weight, pi, &mut grid);
                    }
                }
                PieceType::Knight => {
                    for &(dr, df) in &KNIGHT_OFFSETS {
                        add_if_valid(&mut grid, rank + dr, file + df, pi, weight);
                    }
                }
                PieceType::Pawn => {
                    for &(dr, df) in &PAWN_CAPTURE_DELTAS[player.index()] {
                        add_if_valid(&mut grid, rank + dr, file + df, pi, weight);
                    }
                }
                PieceType::King => {
                    for &(dr, df) in &ALL_DIRS {
                        add_if_valid(&mut grid, rank + dr, file + df, pi, weight);
                    }
                }
            }
        }
    }
    let mut total = [0.0f32; PLAYERS];
    let mut net = [0.0f32; PLAYERS];
    for &idx in valid_squares_list().iter() {
        let sq_grid = &grid[idx as usize];
        for pi in 0..PLAYERS {
            total[pi] += sq_grid[pi];
        }
    }
    for pi in 0..PLAYERS {
        let max_opp = total
            .iter()
            .enumerate()
            .filter(|&(oi, _)| oi != pi)
            .map(|(_, &v)| v)
            .fold(0.0f32, f32::max);
        net[pi] = total[pi] - max_opp;
    }
    InfluenceInfo { total, net, grid }
}

/// Tension score per player: safe pieces rewarded, exposed pieces penalised.
fn compute_tension(state: &GameState, influence: &InfluenceInfo) -> [i16; PLAYERS] {
    let board = state.board();
    let mut scores = [0i16; PLAYERS];
    for player in Player::all() {
        if !is_active_for_zones(state, player) {
            continue;
        }
        let pi = player.index();
        let mut safe_count: i16 = 0;
        let mut exposed_count: i16 = 0;
        for (_, sq) in board.pieces(player) {
            let idx = sq.index() as usize;
            let my_inf = influence.grid[idx][pi];
            let mut max_opp_inf = 0.0f32;
            for oi in 0..PLAYERS {
                if oi != pi && influence.grid[idx][oi] > max_opp_inf {
                    max_opp_inf = influence.grid[idx][oi];
                }
            }
            if my_inf + max_opp_inf > TENSION_THRESHOLD && max_opp_inf > my_inf * 0.5 {
                exposed_count += 1;
            } else if my_inf > max_opp_inf * 2.0 {
                safe_count += 1;
            }
        }
        scores[pi] = safe_count * 3 - exposed_count * 5;
    }
    scores
}


/// Swarm features: mutual defence, attack coordination, pawn chains.
fn compute_swarm(state: &GameState, influence: &InfluenceInfo) -> SwarmInfo {
    let board = state.board();
    let mut defended = [0i16; PLAYERS];
    let mut undefended = [0i16; PLAYERS];
    let mut coordinated = [0i16; PLAYERS];
    let mut pawn_chain = [0i16; PLAYERS];
    for player in Player::all() {
        if !is_active_for_zones(state, player) {
            continue;
        }
        let pi = player.index();
        for (piece_type, sq) in board.pieces(player) {
            let pawn_defended = defended_by_pawn(board, player, sq);
            let mut is_defended = pawn_defended;
            if !is_defended {
                let own_weight = INFLUENCE_WEIGHTS[piece_type.index()];
                if influence.grid[sq.index() as usize][pi] > own_weight + 0.5 {
                    is_defended = true;
                }
            }
            if is_defended {
                defended[pi] += 1;
            } else {
                undefended[pi] += 1;
            }
            if piece_type == PieceType::Pawn && pawn_defended {
                pawn_chain[pi] += 1;
            }
        }
        let coordination_threshold = 5.0f32;
        for &idx in valid_squares_list().iter() {
            if influence.grid[idx as usize][pi] >= coordination_threshold {
                coordinated[pi] += 1;
            }
        }
    }
    SwarmInfo {
        defended_pieces: defended,
        undefended_pieces: undefended,
        coordinated_squares: coordinated,
        pawn_chain,
    }
}

/// Weighted influence, tension and swarm terms of the bootstrap evaluator,
/// summed per player with 16-bit wrapping arithmetic.
fn bootstrap_zone_extras(eval: &BootstrapEvaluator, state: &GameState) -> [i16; 4] {
    let zw = eval.zone_weights;
    let needs_influence = zw.influence > 0 || zw.tension > 0 || zw.swarm > 0;
    let influence = if needs_influence { Some(compute_influence(state)) } else { None };
    let tension_scores = if zw.tension > 0 {
        influence.as_ref().map(|inf| compute_tension(state, inf))
    } else {
        None
    };
    let swarm = if zw.swarm > 0 {
        influence.as_ref().map(|inf| compute_swarm(state, inf))
    } else {
        None
    };
    let mut extras = [0i16; 4];
    for pi in 0..4 {
        let influence_score = match influence {
            Some(ref inf) => (inf.net[pi] * zw.influence as f32) as i16,
            None => 0,
        };
        let tension_score = match tension_scores {
            Some(ref ts) => ts[pi].wrapping_mul(zw.tension),
            None => 0,
        };
        let swarm_score = match swarm {
            Some(ref sw) => {
                let defense_bonus = sw.defended_pieces[pi].wrapping_mul(4);
                let isolation_penalty = sw.undefended_pieces[pi].wrapping_mul(6);
                let coordination_bonus = sw.coordinated_squares[pi];
                let chain_bonus = sw.pawn_chain[pi].wrapping_mul(5);
                defense_bonus
                    .wrapping_sub(isolation_penalty)
                    .wrapping_add(coordination_bonus)
                    .wrapping_add(chain_bonus)
                    .wrapping_mul(zw.swarm)
            }
            None => 0,
        };
        extras[pi] = influence_score.wrapping_add(tension_score).wrapping_add(swarm_score);
    }
    extras
}

fn eval_4vec(eval: &BootstrapEvaluator, state: &GameState) -> [i16; 4] {
    let territory = bfs_territory_enhanced(state);
    let extras = bootstrap_zone_extras(eval, state);
    eval.eval_4vec_with(state, &territory, extras)
}

fn eval_scalar(eval: &BootstrapEvaluator, state: &GameState, player: Player) -> i16 {
    eval_4vec(eval, state)[player.index()]
}

fn standard_state() -> GameState {
    GameState::new_standard_ffa()
}

// ── Evaluator Trait Contract ──

#[test]
fn test_eval_scalar_4vec_consistency() {
    let state = standard_state();
    let eval = BootstrapEvaluator::new();
    let vec = eval_4vec(&eval, &state);
    for player in Player::all() {
        assert_eq!(
            eval_scalar(&eval, &state, player),
            vec[player.index()],
            "scalar and 4vec must agree for {:?}",
            player
        );
    }
}

#[test]
fn test_starting_position_roughly_equal() {
    let state = standard_state();
    let eval = BootstrapEvaluator::new();
    let scores = eval_4vec(&eval, &state);
    // All 4 players start with same material, symmetric position.
    // Scores should be close (not necessarily identical due to PST orientation).
    let max = *scores.iter().max().unwrap();
    let min = *scores.iter().min().unwrap();
    assert!(
        (max - min).abs() < 100,
        "Starting position should be roughly equal: {:?}",
        scores
    );
}

// ── Material ──

#[test]
fn test_material_different_positions_score_differently() {
    let mut state = standard_state();
    let eval = BootstrapEvaluator::new();
    let before = eval_4vec(&eval, &state);

    // Remove a Red pawn to create material imbalance
    let board = state.board_mut();
    // Find Red's first pawn
    let pawn_sq = board
        .pieces(Player::Red)
        .into_iter()
        .find(|(pt, _)| *pt == PieceType::Pawn)
        .map(|(_, sq)| sq)
        .unwrap();
    board.remove_piece(pawn_sq);

    let after = eval_4vec(&eval, &state);
    assert_ne!(
        before[0], after[0],
        "Removing a piece must change the score"
    );
}

#[test]
fn test_capturing_opponent_improves_score() {
    let mut state = standard_state();
    let eval = BootstrapEvaluator::new();

    // Set up: put a Blue pawn where Red can capture it
    let board = state.board_mut();
    // Place Blue pawn on e3 (rank 2, file 4)
    let target = Square::from_rank_file_unchecked(2, 4);
    board.set_piece(target, Piece::new(PieceType::Pawn, Player::Blue));

    let before_red = eval_scalar(&eval, &state, Player::Red);

    // Remove the Blue pawn (simulating capture)
    let board = state.board_mut();
    board.remove_piece(target);

    let after_red = eval_scalar(&eval, &state, Player::Red);

    assert!(
        after_red > before_red,
        "Capturing opponent piece must improve score: before={}, after={}",
        before_red,
        after_red
    );
}

#[test]
fn test_promoted_queen_eval_900cp() {
    assert_eq!(
        piece_value(PieceType::PromotedQueen),
        900,
        "PromotedQueen should be worth 900cp in eval"
    );
    assert_eq!(
        piece_value(PieceType::Queen),
        piece_value(PieceType::PromotedQueen),
        "Queen and PromotedQueen should have equal eval value"
    );
}

// ── Eliminated Players ──

#[test]
fn test_eliminated_player_sentinel_score() {
    let mut state = standard_state();
    let eval = BootstrapEvaluator::new();

    // Resign 3 players to trigger eliminations
    state.resign_player(Player::Red);
    state.resign_player(Player::Blue);
    state.resign_player(Player::Yellow);

    let scores = eval_4vec(&eval, &state);

    // Any player that is Eliminated should get sentinel score
    for player in Player::all() {
        let status = state.player_status(player);
        if status == PlayerStatus::Eliminated {
            assert_eq!(
                scores[player.index()],
                ELIMINATED_SCORE,
                "{:?} is Eliminated but did not get sentinel score",
                player
            );
        }
    }

    // Green (last standing) should NOT be eliminated
    assert_ne!(
        state.player_status(Player::Green),
        PlayerStatus::Eliminated,
        "Green should still be active/DKW"
    );
    assert_ne!(
        scores[Player::Green.index()],
        ELIMINATED_SCORE,
        "Green should have a normal score"
    );
}

// ── Territory ──

#[test]
fn test_bfs_territory_all_squares_assigned() {
    let state = standard_state();
    let info = bfs_territory_enhanced(&state);
    let total: i16 = info.counts.iter().sum::<i16>() + info.contested;
    assert_eq!(
        total, VALID_SQUARES as i16,
        "All {} valid squares must be assigned or contested: counts={:?} contested={}",
        VALID_SQUARES, info.counts, info.contested
    );
}

#[test]
fn test_bfs_territory_starting_roughly_equal() {
    let state = standard_state();
    let info = bfs_territory_enhanced(&state);
    // Each player should control roughly 40 squares (160/4), minus contested
    for &count in &info.counts {
        assert!(
            count > 10 && count < 60,
            "Starting territory should be roughly equal: {:?} contested={}",
            info.counts,
            info.contested
        );
    }
}

// ── PST Rotation ──

#[test]
fn test_pst_rotation_consistency() {
    // Red's (0,0) should map to Blue's rotated equivalent
    let (r, f) = rotate_for_player(0, 0, Player::Red);
    assert_eq!((r, f), (0, 0));

    let (r, f) = rotate_for_player(0, 0, Player::Blue);
    assert_eq!((r, f), (0, 13));

    let (r, f) = rotate_for_player(0, 0, Player::Yellow);
    assert_eq!((r, f), (13, 13));

    let (r, f) = rotate_for_player(0, 0, Player::Green);
    assert_eq!((r, f), (13, 0));
}

// ── Eval Symmetry ──

#[test]
fn test_eval_symmetry_swap_red_blue() {
    // Create a symmetric position and verify scores are symmetric.
    // Start from standard position — it IS symmetric across the 4 players.
    let state = standard_state();
    let eval = BootstrapEvaluator::new();
    let scores = eval_4vec(&eval, &state);

    // In the starting position, Red and Yellow are on opposite sides (rank 0-1 vs 12-13)
    // and Blue and Green are on opposite sides (file 0-1 vs 12-13).
    // Red/Yellow should score similarly, Blue/Green should score similarly.
    let ry_diff = (scores[Player::Red.index()] - scores[Player::Yellow.index()]).abs();
    let bg_diff = (scores[Player::Blue.index()] - scores[Player::Green.index()]).abs();
    assert!(
        ry_diff < 50,
        "Red/Yellow should be symmetric in starting pos: {:?}",
        scores
    );
    assert!(
        bg_diff < 50,
        "Blue/Green should be symmetric in starting pos: {:?}",
        scores
    );
}

// ── Pawn Structure ──

#[test]
fn test_pawn_advancement_disabled() {
    // WEIGHT_PAWN_ADVANCE = 0: advancement scoring disabled until NNUE (Stage 14+).
    // Pawns get value from material (captures) and promotion, not walking forward.
    let mut board = Board::empty();
    board.set_piece(
        Square::from_rank_file_unchecked(0, 7),
        Piece::new(PieceType::King, Player::Red),
    );
    board.set_piece(
        Square::from_rank_file_unchecked(2, 5),
        Piece::new(PieceType::Pawn, Player::Red),
    );
    let state1 = GameState::new(board.clone());

    let mut board2 = Board::empty();
    board2.set_piece(
        Square::from_rank_file_unchecked(0, 7),
        Piece::new(PieceType::King, Player::Red),
    );
    board2.set_piece(
        Square::from_rank_file_unchecked(6, 5),
        Piece::new(PieceType::Pawn, Player::Red),
    );
    let state2 = GameState::new(board2);

    let adv1 = BootstrapEvaluator::pawn_structure_score(&state1, Player::Red);
    let adv2 = BootstrapEvaluator::pawn_structure_score(&state2, Player::Red);

    assert_eq!(
        adv1, adv2,
        "With WEIGHT_PAWN_ADVANCE=0, advancement should not affect score: rank2={}, rank6={}",
        adv1, adv2
    );
}

#[test]
fn test_doubled_pawn_penalty() {
    let mut board1 = Board::empty();
    board1.set_piece(
        Square::from_rank_file_unchecked(0, 7),
        Piece::new(PieceType::King, Player::Red),
    );
    // Single pawn on file e
    board1.set_piece(
        Square::from_rank_file_unchecked(3, 4),
        Piece::new(PieceType::Pawn, Player::Red),
    );
    let state1 = GameState::new(board1);

    let mut board2 = Board::empty();
    board2.set_piece(
        Square::from_rank_file_unchecked(0, 7),
        Piece::new(PieceType::King, Player::Red),
    );
    // Two pawns on file e (doubled)
    board2.set_piece(
        Square::from_rank_file_unchecked(3, 4),
        Piece::new(PieceType::Pawn, Player::Red),
    );
    board2.set_piece(
        Square::from_rank_file_unchecked(5, 4),
        Piece::new(PieceType::Pawn, Player::Red),
    );
    let state2 = GameState::new(board2);

    let _score1 = BootstrapEvaluator::pawn_structure_score(&state1, Player::Red);
    let score2 = BootstrapEvaluator::pawn_structure_score(&state2, Player::Red);

    // Verify doubled penalty: compare doubled pawns vs same pawns on separate files.
    let mut board3 = Board::empty();
    board3.set_piece(
        Square::from_rank_file_unchecked(0, 7),
        Piece::new(PieceType::King, Player::Red),
    );
    // Same advancement as board2 but spread across two files (no doubled)
    board3.set_piece(
        Square::from_rank_file_unchecked(3, 4),
        Piece::new(PieceType::Pawn, Player::Red),
    );
    board3.set_piece(
        Square::from_rank_file_unchecked(5, 5),
        Piece::new(PieceType::Pawn, Player::Red),
    );
    let state3 = GameState::new(board3);
    let score3 = BootstrapEvaluator::pawn_structure_score(&state3, Player::Red);

    assert!(
        score3 > score2,
        "Spread pawns should score higher than doubled pawns: spread={}, doubled={}",
        score3,
        score2
    );
}

// ── Performance ──

#[test]
fn test_eval_performance_under_500us_debug() {
    // The <50us target is for release builds. Debug builds are ~5-10x slower.
    // This test uses a generous 500us threshold for debug; release perf
    // is verified via `cargo test --release`.
    let state = standard_state();
    let eval = BootstrapEvaluator::new();

    // Warm up
    let _ = eval_4vec(&eval, &state);

    let start = std::time::Instant::now();
    let iterations = 1000;
    for _ in 0..iterations {
        let _ = eval_4vec(&eval, &state);
    }
    let elapsed = start.elapsed();
    let per_call = elapsed / iterations;

    assert!(
        per_call.as_micros() < 500,
        "Eval should complete in <500us (debug), actual: {}us",
        per_call.as_micros()
    );
}

// ── Piece Values ──

#[test]
fn test_piece_values() {
    assert_eq!(piece_value(PieceType::Pawn), 100);
    assert_eq!(piece_value(PieceType::Knight), 300);
    assert_eq!(piece_value(PieceType::Bishop), 450);
    assert_eq!(piece_value(PieceType::Rook), 500);
    assert_eq!(piece_value(PieceType::Queen), 900);
    assert_eq!(piece_value(PieceType::King), 0);
    assert_eq!(piece_value(PieceType::PromotedQueen), 900);
}

// ── Material Relative ──

#[test]
fn test_material_is_relative() {
    let state = standard_state();
    // All players start with same material, so relative material should be ~0
    let score = BootstrapEvaluator::material_score(&state, Player::Red);
    assert_eq!(score, 0, "Equal material should give 0 relative score");
}

// ── Stage 15: Zone Control Feature Tests ──

#[test]
fn test_territory_frontier_at_boundary() {
    let state = standard_state();
    let info = bfs_territory_enhanced(&state);
    // In starting position, each player should have frontier squares
    // (territory borders other players' territory)
    for pi in 0..PLAYERS {
        assert!(
            info.frontier[pi] > 0,
            "Player {} should have frontier squares in starting position: frontier={:?}",
            pi,
            info.frontier
        );
    }
}

#[test]
fn test_territory_contested_equidistant() {
    let state = standard_state();
    let info = bfs_territory_enhanced(&state);
    // In a symmetric starting position, there should be contested squares
    // where multiple players are equidistant
    assert!(
        info.contested >= 0,
        "Contested squares should be non-negative: {}",
        info.contested
    );
    // Total assigned + contested = valid squares
    let total: i16 = info.counts.iter().sum::<i16>() + info.contested;
    assert_eq!(total, VALID_SQUARES as i16);
}

#[test]
fn test_king_escape_routes_starting_position() {
    let state = standard_state();
    // In starting position, kings are on back rank with pieces around them.
    // They should have limited escape routes.
    for player in Player::all() {
        let routes = king_escape_routes(&state, player);
        assert!(
            routes >= 0 && routes <= 8,
            "King escape routes should be in [0, 8]: player={:?} routes={}",
            player,
            routes
        );
    }
}

#[test]
fn test_zone_features_symmetric_starting_position() {
    // Zone-enhanced eval should give roughly equal scores in starting position
    let state = standard_state();
    let eval = BootstrapEvaluator::new(); // Default zone weights
    let scores = eval_4vec(&eval, &state);
    let max_score = *scores.iter().max().unwrap();
    let min_score = *scores.iter().min().unwrap();
    assert!(
        (max_score - min_score).abs() < 50,
        "Starting scores should be roughly equal: {:?}",
        scores
    );
}

#[test]
fn test_zone_features_disabled_matches_no_zone() {
    let state = standard_state();
    // With all zone weights = 0, should match old behavior closely
    let eval_zero = BootstrapEvaluator::with_zone_weights(ZoneWeights {
        territory: 0,
        influence: 0,
        tension: 0,
        swarm: 0,
    });
    let scores_zero = eval_4vec(&eval_zero, &state);

    // With zone weights enabled
    let eval_on = BootstrapEvaluator::new();
    let scores_on = eval_4vec(&eval_on, &state);

    // Both should give valid scores (not crash)
    for &s in &scores_zero {
        assert!(s != ELIMINATED_SCORE, "No players should be eliminated");
    }
    for &s in &scores_on {
        assert!(s != ELIMINATED_SCORE, "No players should be eliminated");
    }
}

#[test]
fn test_zone_dkw_player_skipped() {
    let mut state = standard_state();
    // Resign players — triggers DKW (Dead King Walking), not full elimination.
    // DKW players' pieces stay on board but are "dead". Zone features should
    // skip DKW players (they don't project territory or influence).
    state.resign_player(Player::Blue);
    state.resign_player(Player::Yellow);

    let info = bfs_territory_enhanced(&state);
    // DKW players should have 0 territory (skipped by is_active_for_zones)
    assert_eq!(
        info.counts[Player::Blue.index()],
        0,
        "DKW Blue should have 0 territory"
    );
    assert_eq!(
        info.counts[Player::Yellow.index()],
        0,
        "DKW Yellow should have 0 territory"
    );

    // Active players (Red + Green) should share the board
    let active_total: i16 =
        info.counts[Player::Red.index()] + info.counts[Player::Green.index()] + info.contested;
    assert_eq!(active_total, VALID_SQUARES as i16);
}

#[test]
fn test_zone_features_performance_debug() {
    // Simple smoke test for zone feature performance (debug mode, so relaxed threshold)
    let state = standard_state();
    let eval = BootstrapEvaluator::new();

    // Warm up
    let _ = eval_4vec(&eval, &state);

    let start = std::time::Instant::now();
    let iterations = 100;
    for _ in 0..iterations {
        let _ = eval_4vec(&eval, &state);
    }
    let elapsed = start.elapsed();
    let per_call = elapsed / iterations;

    // Debug mode: allow up to 500us (release is ~10x faster)
    assert!(
        per_call.as_micros() < 500,
        "eval_4vec with zone features took {}us per call (debug mode, budget 500us)",
        per_call.as_micros()
    );
}

#[test]
fn test_territory_goes_to_nearest_king() {
    let mut board = Board::empty();
    board.set_piece(Square::new(5, 5).unwrap(), Piece { player: Player::Red, piece_type: PieceType::King });
    board.set_piece(Square::new(5, 9).unwrap(), Piece { player: Player::Blue, piece_type: PieceType::King });
    let state = GameState::new(board);
    let info = bfs_territory_enhanced(&state);
    let idx = |r: u8, f: u8| Square::new(r, f).unwrap().index() as usize;
    assert_eq!(info.owner[idx(5, 6)], 0);
    assert_eq!(info.owner[idx(5, 8)], 1);
    assert_eq!(info.owner[idx(5, 7)], 254);
    assert_eq!(info.owner[idx(0, 3)], 0);
}
