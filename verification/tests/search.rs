use freyja_engine::command::GoParams;
use freyja_engine::eval::{defended_by_pawn, pawn_chain_count};
use freyja_engine::moves::Move;
use freyja_engine::search::{hybrid_final_move, hybrid_mcts_time, hybrid_settled, plan_go, stop_deepening, time_exceeded, GoPlan};
use freyja_engine::board::{Board, ALL_DIRS, DIAGONAL_DIRS, KNIGHT_OFFSETS, ORTHOGONAL_DIRS, PAWN_CAPTURE_DELTAS};
use freyja_engine::eval::{bfs_territory_enhanced, is_active_for_zones, BootstrapEvaluator, Evaluator, SwarmInfo, ELIMINATED_SCORE};
use freyja_engine::game_state::GameState;
use freyja_engine::legal::{generate_captures_only, generate_legal_moves};
use freyja_engine::makemove::{make_move, unmake_move};
use freyja_engine::search::{
    active_count_in_search, is_player_eliminated_in_search, score4_is_better, score4_sum, MaxnSearcher, Score4,
    SearchConfig, SearchLimits, DEFAULT_BEAM_WIDTH,
};
use freyja_engine::types::{
    is_valid_square, valid_squares_list, Piece, PieceType, Player, Square, ELIMINATED_KING_SENTINEL, PLAYERS,
    TOTAL_SQUARES,
};

// ─── Helpers: the floating-point zone features and the full evaluation ─────


/// Base influence weight per piece type.
const INFLUENCE_WEIGHTS: [f32; 7] = [1.0, 3.0, 3.5, 5.0, 9.0, 1.0, 9.0];

/// Minimum combined influence to consider a square contested.
const TENSION_THRESHOLD: f32 = 2.0;

/// Influence map result per player.
struct InfluenceInfo {
    /// Total influence per player over all playable squares.
    total: [f32; PLAYERS],
    /// Own influence minus the strongest opponent's.
    net: [f32; PLAYERS],
    /// Per-square per-player influence.
    grid: [[f32; PLAYERS]; TOTAL_SQUARES],
}

#[allow(clippy::too_many_arguments)]
fn ray_attenuated(
    board: &Board,
    origin_rank: i8,
    origin_file: i8,
    dr: i8,
    df: i8,
    piece_weight: f32,
    player_idx: usize,
    grid: &mut [[f32; PLAYERS]; TOTAL_SQUARES],
) {
    let mut influence = piece_weight;
    let mut rank = origin_rank + dr;
    let mut file = origin_file + df;
    while rank >= 0 && rank < 14 && file >= 0 && file < 14 {
        let r = rank as u8;
        let f = file as u8;
        if !is_valid_square(r, f) {
            rank += dr;
            file += df;
            continue;
        }
        let idx = r as usize * 14 + f as usize;
        grid[idx][player_idx] += influence;
        if let Some(blocker) = board.piece_at(Square(idx as u8)) {
            let is_friendly = blocker.player.index() == player_idx;
            let blocker_resistance = if is_friendly {
                1.5
            } else {
                2.0 + INFLUENCE_WEIGHTS[blocker.piece_type.index()] * 0.3
            };
            influence /= blocker_resistance;
            if influence < 0.1 {
                break;
            }
        }
        rank += dr;
        file += df;
    }
}

fn add_if_valid(grid: &mut [[f32; PLAYERS]; TOTAL_SQUARES], nr: i8, nf: i8, pi: usize, weight: f32) {
    if nr >= 0 && nr < 14 && nf >= 0 && nf < 14 && is_valid_square(nr as u8, nf as u8) {
        let nidx = nr as usize * 14 + nf as usize;
        grid[nidx][pi] += weight;
    }
}

/// Ray-attenuated influence maps for all active players.
fn compute_influence(state: &GameState) -> InfluenceInfo {
    let board = state.board();
    let mut grid = [[0.0f32; PLAYERS]; TOTAL_SQUARES];
    for player in Player::all() {
        if !is_active_for_zones(state, player) {
            continue;
        }
        let pi = player.index();
        for (piece_type, sq) in board.pieces(player) {
            let weight = INFLUENCE_WEIGHTS[piece_type.index()];
            let rank = sq.rank() as i8;
            let file = sq.file() as i8;
            grid[sq.index() as usize][pi] += weight;
            match piece_type {
                PieceType::Rook => {
                    for &(dr, df) in &ORTHOGONAL_DIRS {
                        ray_attenuated(board, rank, file, dr, df, weight, pi, &mut grid);
                    }
                }
                PieceType::Bishop => {
                    for &(dr, df) in &DIAGONAL_DIRS {
                        ray_attenuated(board, rank, file, dr, df, weight, pi, &mut grid);
                    }
                }
                PieceType::Queen | PieceType::PromotedQueen => {
                    for &(dr, df) in &ALL_DIRS {
                        ray_attenuated(board, rank, file, dr, df, weight, pi, &mut grid);
                    }
                }
                PieceType::Knight => {
                    for &(dr, df) in &KNIGHT_OFFSETS {
                        add_if_valid(&mut grid, rank + dr, file + df, pi, weight);
                    }
                }
                PieceType::Pawn => {
                    for &(dr, df) in &PAWN_CAPTURE_DELTAS[player.index()] {
                        add_if_valid(&mut grid, rank + dr, file + df, pi, weight);
                    }
                }
                PieceType::King => {
                    for &(dr, df) in &ALL_DIRS {
                        add_if_valid(&mut grid, rank + dr, file + df, pi, weight);
                    }
                }
            }
        }
    }
    let mut total = [0.0f32; PLAYERS];
    let mut net = [0.0f32; PLAYERS];
    for &idx in valid_squares_list().iter() {
        let sq_grid = &grid[idx as usize];
        for pi in 0..PLAYERS {
            total[pi] += sq_grid[pi];
        }
    }
    for pi in 0..PLAYERS {
        let max_opp = total
            .iter()
            .enumerate()
            .filter(|&(oi, _)| oi != pi)
            .map(|(_, &v)| v)
            .fold(0.0f32, f32::max);
        net[pi] = total[pi] - max_opp;
    }
    InfluenceInfo { total, net, grid }
}

/// Tension score per player: safe pieces rewarded, exposed pieces penalised.
fn compute_tension(state: &GameState, influence: &InfluenceInfo) -> [i16; PLAYERS] {
    let board = state.board();
    let mut scores = [0i16; PLAYERS];
    for player in Player::all() {
        if !is_active_for_zones(state, player) {
            continue;
        }
        let pi = player.index();
        let mut safe_count: i16 = 0;
        let mut exposed_count: i16 = 0;
        for (_, sq) in board.pieces(player) {
            let idx = sq.index() as usize;
            let my_inf = influence.grid[idx][pi];
            let mut max_opp_inf = 0.0f32;
            for oi in 0..PLAYERS {
                if oi != pi && influence.grid[idx][oi] > max_opp_inf {
                    max_opp_inf = influence.grid[idx][oi];
                }
            }
            if my_inf + max_opp_inf > TENSION_THRESHOLD && max_opp_inf > my_inf * 0.5 {
                exposed_count += 1;
            } else if my_inf > max_opp_inf * 2.0 {
                safe_count += 1;
            }
        }
        scores[pi] = safe_count * 3 - exposed_count * 5;
    }
    scores
}


/// Swarm features: mutual defence, attack coordination, pawn chains.
fn compute_swarm(state: &GameState, influence: &InfluenceInfo) -> SwarmInfo {
    let board = state.board();
    let mut defended = [0i16; PLAYERS];
    let mut undefended = [0i16; PLAYERS];
    let mut coordinated = [0i16; PLAYERS];
    let mut pawn_chain = [0i16; PLAYERS];
    for player in Player::all() {
        if !is_active_for_zones(state, player) {
            continue;
        }
        let pi = player.index();
        for (piece_type, sq) in board.pieces(player) {
            let pawn_defended = defended_by_pawn(board, player, sq);
            let mut is_defended = pawn_defended;
            if !is_defended {
                let own_weight = INFLUENCE_WEIGHTS[piece_type.index()];
                if influence.grid[sq.index() as usize][pi] > own_weight + 0.5 {
                    is_defended = true;
                }
            }
            if is_defended {
                defended[pi] += 1;
            } else {
                undefended[pi] += 1;
            }
            if piece_type == PieceType::Pawn && pawn_defended {
                pawn_chain[pi] += 1;
            }
        }
        let coordination_threshold = 5.0f32;
        for &idx in valid_squares_list().iter() {
            if influence.grid[idx as usize][pi] >= coordination_threshold {
                coordinated[pi] += 1;
            }
        }
    }
    SwarmInfo {
        defended_pieces: defended,
        undefended_pieces: undefended,
        coordinated_squares: coordinated,
        pawn_chain,
    }
}

/// Weighted influence, tension and swarm terms of the bootstrap evaluator,
/// summed per player with 16-bit wrapping arithmetic.
fn bootstrap_zone_extras(eval: &BootstrapEvaluator, state: &GameState) -> [i16; 4] {
    let zw = eval.zone_weights;
    let needs_influence = zw.influence > 0 || zw.tension > 0 || zw.swarm > 0;
    let influence = if needs_influence { Some(compute_influence(state)) } else { None };
    let tension_scores = if zw.tension > 0 {
        influence.as_ref().map(|inf| compute_tension(state, inf))
    } else {
        None
    };
    let swarm = if zw.swarm > 0 {
        influence.as_ref().map(|inf| compute_swarm(state, inf))
    } else {
        None
    };
    let mut extras = [0i16; 4];
    for pi in 0..4 {
        let influence_score = match influence {
            Some(ref inf) => (inf.net[pi] * zw.influence as f32) as i16,
            None => 0,
        };
        let tension_score = match tension_scores {
            Some(ref ts) => ts[pi].wrapping_mul(zw.tension),
            None => 0,
        };
        let swarm_score = match swarm {
            Some(ref sw) => {
                let defense_bonus = sw.defended_pieces[pi].wrapping_mul(4);
                let isolation_penalty = sw.undefended_pieces[pi].wrapping_mul(6);
                let coordination_bonus = sw.coordinated_squares[pi];
                let chain_bonus = sw.pawn_chain[pi].wrapping_mul(5);
                defense_bonus
                    .wrapping_sub(isolation_penalty)
                    .wrapping_add(coordination_bonus)
                    .wrapping_add(chain_bonus)
                    .wrapping_mul(zw.swarm)
            }
            None => 0,
        };
        extras[pi] = influence_score.wrapping_add(tension_score).wrapping_add(swarm_score);
    }
    extras
}

fn full_eval_4vec(eval: &BootstrapEvaluator, state: &GameState) -> [i16; 4] {
    let territory = bfs_territory_enhanced(state);
    let extras = bootstrap_zone_extras(eval, state);
    eval.eval_4vec_with(state, &territory, extras)
}



/// The bootstrap evaluator with its floating-point zone terms.
struct Boot(BootstrapEvaluator);

impl Evaluator for Boot {
    fn eval_scalar(&self, state: &GameState, player: Player) -> i16 {
        full_eval_4vec(&self.0, state)[player.index()]
    }

    fn eval_4vec(&self, state: &GameState) -> [i16; 4] {
        full_eval_4vec(&self.0, state)
    }
}

fn make_searcher() -> MaxnSearcher<Boot> {
    MaxnSearcher::new(Boot(BootstrapEvaluator::new()), SearchConfig::default())
}

fn make_searcher_with_beam(beam: usize) -> MaxnSearcher<Boot> {
    MaxnSearcher::new(Boot(BootstrapEvaluator::new()), SearchConfig { beam_width: beam, ..SearchConfig::default() })
}

fn depth_limits(d: u32) -> SearchLimits {
    SearchLimits { max_depth: Some(d), ..Default::default() }
}

#[test]
fn test_score4_is_better() {
    let a: Score4 = [100, 200, 300, 400];
    let b: Score4 = [150, 180, 300, 400];
    assert!(score4_is_better(&b, &a, 0));
    assert!(!score4_is_better(&b, &a, 1));
}

#[test]
fn test_score4_sum() {
    let s: Score4 = [100, 200, -50, 300];
    assert_eq!(score4_sum(&s), 550);
}

#[test]
fn test_score4_sum_with_eliminated() {
    let s: Score4 = [100, ELIMINATED_SCORE, 200, 300];
    assert_eq!(score4_sum(&s), 100 + ELIMINATED_SCORE as i32 + 200 + 300);
}

#[test]
fn test_elimination_detection_starting_position() {
    let gs = GameState::new_standard_ffa();
    let board = gs.board();
    for p in Player::all() {
        assert!(
            !is_player_eliminated_in_search(board, p),
            "{:?} should not be eliminated at start",
            p
        );
    }
    assert_eq!(active_count_in_search(board), 4);
}

#[test]
fn test_elimination_detection_sentinel() {
    let board = Board::empty();
    for p in Player::all() {
        assert!(is_player_eliminated_in_search(&board, p));
    }
    assert_eq!(active_count_in_search(&board), 0);
}

#[test]
fn test_capture_only_generation() {
    let mut gs = GameState::new_standard_ffa();
    let captures = generate_captures_only(gs.board_mut());
    assert!(
        captures.is_empty(),
        "Starting position should have 0 captures, got {}",
        captures.len()
    );
}

#[test]
fn captured_king_counts_as_eliminated_in_search() {
    let mut board = Board::empty();
    board.refresh_hash();
    board.set_piece(Square::new(0, 7).unwrap(), Piece::new(PieceType::King, Player::Red));
    board.set_piece(Square::new(13, 6).unwrap(), Piece::new(PieceType::King, Player::Yellow));
    assert!(!is_player_eliminated_in_search(&board, Player::Red));
    assert_eq!(active_count_in_search(&board), 2);
    board.remove_piece(Square::new(0, 7).unwrap());
    assert!(is_player_eliminated_in_search(&board, Player::Red));
    assert_eq!(active_count_in_search(&board), 1);
}

#[test]
fn capture_generation_finds_pawn_capture() {
    let mut board = Board::empty();
    board.refresh_hash();
    board.set_piece(Square::new(0, 7).unwrap(), Piece::new(PieceType::King, Player::Red));
    board.set_piece(Square::new(13, 6).unwrap(), Piece::new(PieceType::King, Player::Yellow));
    board.set_piece(Square::new(4, 4).unwrap(), Piece::new(PieceType::Pawn, Player::Red));
    board.set_piece(Square::new(5, 5).unwrap(), Piece::new(PieceType::Knight, Player::Yellow));
    board.set_castling_rights(0);
    let captures = generate_captures_only(&mut board);
    assert_eq!(captures.len(), 1);
    assert_eq!(captures[0].captured(), Some(PieceType::Knight));
    assert_eq!(captures[0].to_sq(), Square::new(5, 5).unwrap());
}

#[test]
fn search_limits_default_is_unbounded() {
    let l = SearchLimits::default();
    assert!(l.max_depth.is_none() && l.max_nodes.is_none() && l.max_time_ms.is_none());
    assert!(!l.infinite);
    assert_eq!(l.game_ply, 0);
}

#[test]
fn test_search_types_exist() {
    let limits = depth_limits(1);
    let config = SearchConfig::default();
    assert_eq!(config.beam_width, DEFAULT_BEAM_WIDTH);
    assert_eq!(limits.max_depth, Some(1));
}

#[test]
fn test_depth_1_returns_legal_move() {
    let mut gs = GameState::new_standard_ffa();
    let mut searcher = make_searcher();
    let result = searcher.search(&mut gs, &depth_limits(1));
    assert!(result.best_move.is_some(), "Depth 1 must return a move");
    assert_eq!(result.depth, 1);
    assert!(result.nodes > 0);
}

#[test]
fn test_depth_2_returns_legal_move() {
    let mut gs = GameState::new_standard_ffa();
    let mut searcher = make_searcher();
    let result = searcher.search(&mut gs, &depth_limits(2));
    assert!(result.best_move.is_some());
    assert_eq!(result.depth, 2);
}

#[test]
fn test_search_preserves_game_state() {
    let mut gs = GameState::new_standard_ffa();
    let board_before = gs.board().clone_board();
    let mut searcher = make_searcher();
    let _ = searcher.search(&mut gs, &depth_limits(2));
    assert_eq!(gs.board().side_to_move(), board_before.side_to_move(), "side_to_move must be restored");
    assert_eq!(gs.board().zobrist_hash(), board_before.zobrist_hash(), "zobrist must be restored");
}

#[test]
fn test_beam_width_gt_moves_no_panic() {
    let mut gs = GameState::new_standard_ffa();
    let mut searcher = make_searcher_with_beam(999);
    let result = searcher.search(&mut gs, &depth_limits(1));
    assert!(result.best_move.is_some());
}

#[test]
fn test_beam_width_1_returns_move() {
    let mut gs = GameState::new_standard_ffa();
    let mut searcher = make_searcher_with_beam(1);
    let result = searcher.search(&mut gs, &depth_limits(1));
    assert!(result.best_move.is_some());
}

#[test]
fn test_iterative_deepening_depth_3() {
    let mut gs = GameState::new_standard_ffa();
    let mut searcher = make_searcher();
    let result = searcher.search(&mut gs, &depth_limits(3));
    assert_eq!(result.depth, 3);
    assert!(result.nodes > 0);
}

#[test]
fn test_node_limit() {
    let mut gs = GameState::new_standard_ffa();
    let mut searcher = make_searcher();
    let limits = SearchLimits { max_nodes: Some(500), ..Default::default() };
    let result = searcher.search(&mut gs, &limits);
    assert!(result.nodes < 2000, "Node count {} should be bounded near 500", result.nodes);
}

#[test]
fn test_pv_not_empty() {
    let mut gs = GameState::new_standard_ffa();
    let mut searcher = make_searcher();
    let result = searcher.search(&mut gs, &depth_limits(2));
    assert!(!result.pv.is_empty(), "PV should not be empty");
    assert_eq!(result.pv[0], result.best_move.unwrap(), "PV[0] should be best_move");
}

#[test]
fn test_pv_moves_are_legal() {
    let mut gs = GameState::new_standard_ffa();
    let mut searcher = make_searcher();
    let result = searcher.search(&mut gs, &depth_limits(2));
    let board = gs.board_mut();
    let mut undos = Vec::new();
    for mv in &result.pv {
        let legal = generate_legal_moves(board);
        assert!(legal.contains(mv), "PV move {} is not legal in position", mv.to_string());
        let undo = make_move(board, *mv);
        undos.push((*mv, undo));
    }
    for (_mv, undo) in undos.iter().rev() {
        unmake_move(board, undo);
    }
}

#[test]
fn test_qsearch_produces_qnodes() {
    let mut gs = GameState::new_standard_ffa();
    let mut searcher = make_searcher();
    let result = searcher.search(&mut gs, &depth_limits(1));
    assert!(result.qnodes > 0, "qnodes should be > 0 at depth 1, got {}", result.qnodes);
}

#[test]
fn test_qsearch_nodes_counted_separately() {
    let mut gs = GameState::new_standard_ffa();
    let mut searcher = make_searcher();
    let result = searcher.search(&mut gs, &depth_limits(2));
    assert!(result.nodes > 0, "main nodes should be > 0");
    assert!(result.qnodes > 0, "qnodes should be > 0");
}

#[test]
fn test_qsearch_preserves_game_state() {
    let mut gs = GameState::new_standard_ffa();
    let hash_before = gs.board().zobrist_hash();
    let stm_before = gs.board().side_to_move();
    let mut searcher = make_searcher();
    let _ = searcher.search(&mut gs, &depth_limits(2));
    assert_eq!(gs.board().zobrist_hash(), hash_before);
    assert_eq!(gs.board().side_to_move(), stm_before);
}

#[test]
fn test_qsearch_overhead_reasonable() {
    let mut gs = GameState::new_standard_ffa();
    let mut searcher = make_searcher();
    let result = searcher.search(&mut gs, &depth_limits(2));
    let overhead_pct = (result.qnodes as f64 / result.nodes as f64) * 100.0;
    assert!(
        overhead_pct < 200.0,
        "qnode overhead {:.1}% is excessive (nodes={}, qnodes={})",
        overhead_pct,
        result.nodes,
        result.qnodes
    );
}

#[test]
fn test_search_still_returns_legal_move_with_qsearch() {
    let mut gs = GameState::new_standard_ffa();
    let mut searcher = make_searcher();
    for depth in 1..=3 {
        let result = searcher.search(&mut gs, &depth_limits(depth));
        assert!(result.best_move.is_some(), "Depth {depth} must return a move");
        let legal = generate_legal_moves(gs.board_mut());
        assert!(legal.contains(&result.best_move.unwrap()), "Depth {depth} move must be legal");
    }
}

#[test]
fn test_qsearch_finds_hanging_queen() {
    let mut gs = GameState::new_standard_ffa();
    let board = gs.board_mut();
    let target = Square::new(2, 4).unwrap();
    if board.piece_at(target).is_some() {
        board.remove_piece(target);
    }
    board.set_piece(target, Piece { player: Player::Blue, piece_type: PieceType::Queen });
    let mut searcher = make_searcher();
    let result = searcher.search(&mut gs, &depth_limits(1));
    let best = result.best_move.expect("must find a move");
    assert!(
        best.is_capture(),
        "Engine should capture the hanging queen, but played {} (not a capture)",
        best.to_string()
    );
    assert!(result.qnodes > 0, "qnodes should be positive when captures exist");
    assert_eq!(best.captured(), Some(PieceType::Queen), "Should capture the queen, but captured {:?}", best.captured());
}

#[test]
fn test_capture_only_after_moves() {
    let mut gs = GameState::new_standard_ffa();
    for _ in 0..4 {
        let legal = generate_legal_moves(gs.board_mut());
        gs.apply_move(legal[0]);
    }
    let captures = generate_captures_only(gs.board_mut());
    for mv in &captures {
        assert!(mv.is_capture(), "All moves from generate_captures_only must be captures");
    }
}

#[test]
fn test_history_table_populated_after_search() {
    let mut gs = GameState::new_standard_ffa();
    let mut searcher = make_searcher();
    let _ = searcher.search(&mut gs, &depth_limits(3));
    let history = searcher.history_table();
    let raw = history.raw();
    let nonzero = raw.iter().filter(|&&v| v > 0).count();
    assert!(nonzero > 0, "History table should have nonzero entries after depth 3 search");
}

#[test]
fn test_tt_preserves_board_state() {
    let mut gs = GameState::new_standard_ffa();
    let hash_before = gs.board().zobrist_hash();
    let mut searcher = make_searcher();
    let _ = searcher.search(&mut gs, &depth_limits(3));
    assert_eq!(gs.board().zobrist_hash(), hash_before, "Board hash must be restored after search");
}

#[test]
fn test_history_table_accessor() {
    let searcher = make_searcher();
    let history = searcher.history_table();
    let raw = history.raw();
    let total: u32 = raw.iter().sum();
    assert_eq!(total, 0, "Fresh history table should be all zeros");
}

#[test]
fn test_qsearch_node_budget_caps_qnodes() {
    let mut gs = GameState::new_standard_ffa();
    let budget = 50_000u64;
    let mut searcher =
        MaxnSearcher::new(Boot(BootstrapEvaluator::new()), SearchConfig { max_qnodes: budget, ..SearchConfig::default() });
    let result = searcher.search(&mut gs, &depth_limits(4));
    assert!(result.best_move.is_some(), "Should find a move");
    assert_eq!(result.depth, 4, "Should complete depth 4 with budget");
    assert!(result.qnodes < budget * 10, "qnodes {} should be bounded (budget {})", result.qnodes, budget);
}

#[test]
fn test_qsearch_budget_zero_disables_qsearch() {
    let mut gs = GameState::new_standard_ffa();
    let mut searcher =
        MaxnSearcher::new(Boot(BootstrapEvaluator::new()), SearchConfig { max_qnodes: 0, ..SearchConfig::default() });
    let result = searcher.search(&mut gs, &depth_limits(3));
    assert!(result.best_move.is_some());
}

#[test]
fn test_qsearch_with_eliminated_players_no_crash() {
    let mut gs = GameState::new_standard_ffa();
    let yellow_ks = gs.board().king_square(Player::Yellow);
    if yellow_ks != ELIMINATED_KING_SENTINEL {
        gs.board_mut().remove_piece(Square(yellow_ks));
        gs.board_mut().set_king_eliminated(Player::Yellow);
    }
    let green_ks = gs.board().king_square(Player::Green);
    if green_ks != ELIMINATED_KING_SENTINEL {
        gs.board_mut().remove_piece(Square(green_ks));
        gs.board_mut().set_king_eliminated(Player::Green);
    }
    let mut searcher = make_searcher();
    let result = searcher.search(&mut gs, &depth_limits(4));
    assert!(result.best_move.is_some(), "Search with 2 eliminated players must return a move");
    assert!(result.nodes > 0);
    assert!(result.qnodes > 0, "Qsearch should have run");
}

#[test]
fn test_qsearch_with_3_eliminated_players_no_crash() {
    let mut gs = GameState::new_standard_ffa();
    for p in [Player::Blue, Player::Yellow, Player::Green] {
        let ks = gs.board().king_square(p);
        if ks != ELIMINATED_KING_SENTINEL {
            gs.board_mut().remove_piece(Square(ks));
            gs.board_mut().set_king_eliminated(p);
        }
    }
    let mut searcher = make_searcher();
    let result = searcher.search(&mut gs, &depth_limits(4));
    assert!(result.best_move.is_some() || result.nodes > 0, "Search should complete without crash");
}

#[test]
fn test_search_deep_with_captures_and_eliminations() {
    let mut gs = GameState::new_standard_ffa();
    let mut searcher = make_searcher();
    for _ply in 0..20 {
        if gs.is_game_over() {
            break;
        }
        let result = searcher.search(&mut gs, &depth_limits(2));
        if let Some(mv) = result.best_move {
            gs.apply_move(mv);
        } else {
            break;
        }
    }
    if gs.is_game_over() {
        return;
    }
    let green_ks = gs.board().king_square(Player::Green);
    if green_ks != ELIMINATED_KING_SENTINEL {
        gs.board_mut().remove_piece(Square(green_ks));
        gs.board_mut().set_king_eliminated(Player::Green);
    }
    let result = searcher.search(&mut gs, &depth_limits(4));
    assert!(result.best_move.is_some(), "Deep search after elimination must produce a move");
    assert!(result.qnodes > 0, "Qsearch should have run in midgame position");
}

// ── Own tests ──

#[test]
fn test_search_restores_position_exactly() {
    let mut gs = GameState::new_standard_ffa();
    let before = gs.board().clone_board();
    let mut searcher = make_searcher();
    let _ = searcher.search(&mut gs, &depth_limits(3));
    assert!(gs.board().same_position(&before));
}

#[test]
fn test_move_noise_keeps_move_legal() {
    let mut gs = GameState::new_standard_ffa();
    let mut searcher = MaxnSearcher::new(
        Boot(BootstrapEvaluator::new()),
        SearchConfig { move_noise: 100, noise_seed: 7, ..SearchConfig::default() },
    );
    let result = searcher.search(&mut gs, &depth_limits(1));
    let best = result.best_move.expect("a move");
    let legal = generate_legal_moves(gs.board_mut());
    assert!(legal.contains(&best));
}

#[test]
fn test_depth_rounds_to_rotation() {
    let mut gs = GameState::new_standard_ffa();
    let mut searcher = make_searcher_with_beam(2);
    let result = searcher.search(&mut gs, &depth_limits(5));
    assert_eq!(result.depth, 4);
}

#[test]
fn test_opponent_beam_share_default() {
    assert_eq!(SearchConfig::default().opponent_beam_permille, 250);
}

#[test]
fn test_time_decisions() {
    assert!(time_exceeded(100, 100));
    assert!(!time_exceeded(99, 100));
    assert!(stop_deepening(30, 900, 1000, 4, 4));
    assert!(!stop_deepening(20, 900, 1000, 4, 4));
    assert!(!stop_deepening(30, 900, 1000, 3, 4));
    assert!(stop_deepening(1, 2000, 1000, 5, 1));
    assert!(stop_deepening(u64::MAX, 0, u64::MAX - 1, 5, 1));
}

#[test]
fn test_plan_go() {
    let none = GoParams { depth: None, nodes: None, movetime: None, infinite: false };
    assert!(matches!(plan_go(false, false, 0, None, 20, 0, &none), GoPlan::NoPosition));
    assert!(matches!(plan_go(true, true, 0, None, 20, 0, &none), GoPlan::GameOver));
    assert!(matches!(plan_go(true, false, 8, Some(2), 20, 0, &none), GoPlan::MaxRoundsReached));
    assert!(matches!(plan_go(true, false, 7, Some(2), 0, 0, &none), GoPlan::NoLegalMoves));
    match plan_go(true, false, 7, Some(2), 20, 0, &none) {
        GoPlan::Search(l) => {
            assert_eq!(l.max_time_ms, Some(5000));
            assert_eq!(l.max_nodes, None);
            assert_eq!(l.game_ply, 7);
        }
        _ => panic!("expected a search"),
    }
    let d = GoParams { depth: Some(3), nodes: None, movetime: None, infinite: false };
    match plan_go(true, false, 0, None, 20, 500, &d) {
        GoPlan::Search(l) => {
            assert_eq!(l.max_depth, Some(3));
            assert_eq!(l.max_nodes, Some(500));
            assert_eq!(l.max_time_ms, None);
        }
        _ => panic!("expected a search"),
    }
}

#[test]
fn test_depth_one_completes_without_node_limit() {
    let mut gs = GameState::new_standard_ffa();
    let mut searcher = make_searcher();
    let limits = SearchLimits { max_depth: Some(1), max_time_ms: Some(0), ..Default::default() };
    let result = searcher.search(&mut gs, &limits);
    assert!(result.depth >= 1);
}

#[test]
fn test_defended_by_pawn_start() {
    let gs = GameState::new_standard_ffa();
    assert!(defended_by_pawn(gs.board(), Player::Red, Square::new(2, 4).unwrap()));
    assert!(!defended_by_pawn(gs.board(), Player::Red, Square::new(5, 5).unwrap()));
}

#[test]
fn test_pawn_chain_count() {
    let gs = GameState::new_standard_ffa();
    for p in Player::all() {
        assert_eq!(pawn_chain_count(gs.board(), p), 0);
    }
    let mut b = Board::empty();
    b.set_piece(Square::new(1, 4).unwrap(), Piece::new(PieceType::Pawn, Player::Red));
    b.set_piece(Square::new(2, 5).unwrap(), Piece::new(PieceType::Pawn, Player::Red));
    b.set_piece(Square::new(4, 8).unwrap(), Piece::new(PieceType::Pawn, Player::Red));
    assert_eq!(pawn_chain_count(&b, Player::Red), 1);
    assert_eq!(pawn_chain_count(&b, Player::Blue), 0);
}

#[test]
fn test_hybrid_decisions() {
    let m1 = Move::new(Square(17), Square(31), PieceType::Pawn);
    let m2 = Move::new(Square(18), Square(32), PieceType::Pawn);
    assert!(hybrid_settled(None, 0, 5000));
    assert!(hybrid_settled(Some(m1), 5000, 5000));
    assert!(!hybrid_settled(Some(m1), 4999, 5000));
    assert_eq!(hybrid_mcts_time(1000, 995), None);
    assert_eq!(hybrid_mcts_time(1000, 2000), None);
    assert_eq!(hybrid_mcts_time(1000, 990), Some(10));
    assert_eq!(hybrid_final_move(Some(m2), Some(m1)), Some(m2));
    assert_eq!(hybrid_final_move(None, Some(m1)), Some(m1));
    assert_eq!(hybrid_final_move(None, None), None);
}
