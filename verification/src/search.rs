//! Max^n search with beam selection and quiescence, falling back to
//! negamax with alpha-beta once two players remain; limits, score-vector
//! helpers and elimination detection that stays correct while a search
//! makes and unmakes moves.

use std::time::Instant;
use vstd::prelude::*;
use crate::board::Board;
use crate::clock::{clock_now, millis_since};
use crate::command::GoParams;
use crate::eval::{piece_value, Evaluator, ELIMINATED_SCORE};
use crate::game_state::GameState;
use crate::legal::{
    all_makeable, canon_legal, generate_captures_only, generate_legal_moves, is_capture_move, legal_moves,
    lemma_legal_count, lemma_made_consistent, makeable,
};
use vstd::seq_lib::group_to_multiset_ensures;
use vstd::multiset::group_multiset_properties;
use crate::board::{full_hash, hash_drift, BoardState};
use crate::makemove::{
    applicable, kings_consistent, lemma_equal_drift_same_hash, lemma_make_unmake_squares, made, make_move, shape_ok,
    undo_of, unmade, unmake_move, unmake_ok,
};
use crate::nnue::accumulator::sat_add;
use crate::move_order::{order_captures_mvv_lva, order_moves, score_move};
use crate::moves::MAX_MOVES;
use crate::move_order::{HistoryTable, KillerTable, HISTORY_SIZE, MAX_DEPTH};
use crate::moves::Move;
use crate::types::{next_player, pidx, player_at, Piece, PieceType, Player, Square};

verus! {

/// Score vector for the four players, in turn order, in centipawns.
pub type Score4 = [i16; 4];

/// Time, depth and node limits of a search.
#[derive(Debug, Clone, Copy)]
pub struct SearchLimits {
    /// Maximum depth in plies.
    pub max_depth: Option<u32>,
    /// Maximum nodes.
    pub max_nodes: Option<u64>,
    /// Maximum time in milliseconds.
    pub max_time_ms: Option<u64>,
    /// Search until stopped.
    pub infinite: bool,
    /// Current game ply.
    pub game_ply: u32,
}

impl Default for SearchLimits {
    fn default() -> (l: Self)
        ensures
            l.max_depth is None && l.max_nodes is None && l.max_time_ms is None && !l.infinite && l.game_ply
                == 0,
    {
        SearchLimits { max_depth: None, max_nodes: None, max_time_ms: None, infinite: false, game_ply: 0 }
    }
}

/// Whether `new_scores` is better than `old_scores` for the given player:
/// strictly higher in that player's entry.
pub fn score4_is_better(new_scores: &[i16; 4], old_scores: &[i16; 4], player_idx: usize) -> (r: bool)
    requires
        player_idx < 4,
    ensures
        r == (new_scores@[player_idx as int] > old_scores@[player_idx as int]),
{
    new_scores[player_idx] > old_scores[player_idx]
}

/// Sum of the four entries of a score vector.
pub fn score4_sum(s: &[i16; 4]) -> (r: i32)
    ensures
        r == s@[0] + s@[1] + s@[2] + s@[3],
{
    s[0] as i32 + s[1] as i32 + s[2] as i32 + s[3] as i32
}

/// A player counts as eliminated during a search when its king square holds
/// the sentinel, or no longer holds its own king (captured mid-search).
pub open spec fn eliminated_in_search(b: Board, p: int) -> bool {
    let ks = b@.kings[p];
    ks == 255 || b@.squares[ks as int] != Some(Piece { piece_type: PieceType::King, player: player_at(p) })
}

/// Whether a player is eliminated as seen during a search.
pub fn is_player_eliminated_in_search(board: &Board, player: Player) -> (r: bool)
    requires
        board.wf(),
    ensures
        r == eliminated_in_search(*board, pidx(player)),
{
    proof {
        board.lemma_wf();
        lemma_player_at_pidx(player);
    }
    let ks = board.king_square(player);
    if ks == 255 {
        return true;
    }
    match board.piece_at(Square(ks)) {
        Some(piece) => piece.piece_type != PieceType::King || piece.player != player,
        None => true,
    }
}

/// Players not eliminated as seen during a search, among indices below `n`.
pub open spec fn active_in_search_below(b: Board, n: int) -> int
    decreases n,
{
    if n <= 0 {
        0
    } else {
        active_in_search_below(b, n - 1) + if eliminated_in_search(b, n - 1) { 0int } else { 1int }
    }
}

/// Number of players not eliminated as seen during a search.
pub fn active_count_in_search(board: &Board) -> (n: usize)
    requires
        board.wf(),
    ensures
        n == active_in_search_below(*board, 4),
        n <= 4,
{
    let players = Player::all();
    let mut count: usize = 0;
    let mut q: usize = 0;
    while q < 4
        invariant
            board.wf(),
            q <= 4,
            forall|i: int| 0 <= i < 4 ==> players@[i] == player_at(i),
            count == active_in_search_below(*board, q as int),
            count <= q,
        decreases 4 - q,
    {
        let p = players[q];
        assert(p == players@[q as int]);
        proof {
            lemma_index_player(q as int);
        }
        if !is_player_eliminated_in_search(board, p) {
            count = count + 1;
        }
        q = q + 1;
    }
    count
}

proof fn lemma_player_at_pidx(p: Player)
    ensures
        player_at(pidx(p)) == p,
        0 <= pidx(p) < 4,
{
}

proof fn lemma_index_player(i: int)
    requires
        0 <= i < 4,
    ensures
        pidx(player_at(i)) == i,
{
    if i == 0 {
    } else if i == 1 {
    } else if i == 2 {
    } else {
    }
}


// ─── Searcher constants ─────────────────────────────────────────────────────

/// Default beam width: how many moves a node expands.
pub const DEFAULT_BEAM_WIDTH: usize = 30;

/// Number of candidates that the beam ranks by a full evaluation.
pub const BEAM_CANDIDATES: usize = 15;

/// Default sum bound for shallow pruning.
pub const DEFAULT_SUM_BOUND: i32 = 40_000;

/// Maximum quiescence depth beyond the main search leaf.
pub const MAX_QSEARCH_DEPTH: u32 = 4;

/// Default quiescence node budget.
pub const DEFAULT_MAX_QNODES: u64 = 2_000_000;

/// Default share of the root player's beam that opponents get, in
/// thousandths.
pub const DEFAULT_OPPONENT_BEAM_PERMILLE: u32 = 250;

/// Depth a search completes before a time limit may stop it.
pub const MIN_SEARCH_DEPTH: u32 = 4;

/// Delta pruning margin of the quiescence searches.
pub const DELTA_MARGIN: i16 = 200;

/// The lowest score vector.
pub const SCORE4_MIN: [i16; 4] = [-32768i16, -32768i16, -32768i16, -32768i16];

/// Where in `vals` the first vector with the largest entry `p` stands,
/// counting only entries above the floor of `SCORE4_MIN`; -1 when none is.
pub open spec fn best_index(vals: Seq<[i16; 4]>, p: int) -> int
    decreases vals.len(),
{
    if vals.len() == 0 {
        -1
    } else {
        let k = best_index(vals.drop_last(), p);
        let b = if k < 0 {
            SCORE4_MIN
        } else {
            vals[k]
        };
        if vals.last()@[p] > b@[p] {
            vals.len() - 1
        } else {
            k
        }
    }
}

/// The Max^n choice for player index `p` among the children's vectors
/// `vals`: the first with the largest entry `p`, or `SCORE4_MIN` when none
/// rises above it.
pub open spec fn best_for(vals: Seq<[i16; 4]>, p: int) -> [i16; 4] {
    let k = best_index(vals, p);
    if k < 0 {
        SCORE4_MIN
    } else {
        vals[k]
    }
}

proof fn lemma_best_index_range(vals: Seq<[i16; 4]>, p: int)
    ensures
        -1 <= best_index(vals, p) < vals.len(),
    decreases vals.len(),
{
    if vals.len() > 0 {
        lemma_best_index_range(vals.drop_last(), p);
    }
}

// ─── Searcher configuration and result ──────────────────────────────────────

/// Tunable parameters of the Max^n searcher.
#[derive(Debug, Clone, Copy)]
pub struct SearchConfig {
    /// How many moves a node expands.
    pub beam_width: usize,
    /// Sum bound for shallow pruning; 0 disables it.
    pub sum_bound: i32,
    /// Quiescence node budget.
    pub max_qnodes: u64,
    /// Beam width by remaining depth, in place of `beam_width`.
    pub beam_schedule: Option<[usize; MAX_DEPTH]>,
    /// Chance in percent of playing another of the top three moves.
    pub move_noise: u32,
    /// Widen the beam in tactical positions and narrow it in quiet ones.
    pub adaptive_beam: bool,
    /// Share of the root player's beam that opponents get, in thousandths.
    pub opponent_beam_permille: u32,
    /// Seed mixed into the position hash for move noise.
    pub noise_seed: u64,
}

impl Default for SearchConfig {
    fn default() -> (c: Self)
        ensures
            c.beam_width == DEFAULT_BEAM_WIDTH,
            c.sum_bound == DEFAULT_SUM_BOUND,
            c.max_qnodes == DEFAULT_MAX_QNODES,
            c.beam_schedule is None,
            c.move_noise == 0,
            !c.adaptive_beam,
            c.opponent_beam_permille == DEFAULT_OPPONENT_BEAM_PERMILLE,
            c.noise_seed == 0,
    {
        SearchConfig {
            beam_width: DEFAULT_BEAM_WIDTH,
            sum_bound: DEFAULT_SUM_BOUND,
            max_qnodes: DEFAULT_MAX_QNODES,
            beam_schedule: None,
            move_noise: 0,
            adaptive_beam: false,
            opponent_beam_permille: DEFAULT_OPPONENT_BEAM_PERMILLE,
            noise_seed: 0,
        }
    }
}

/// What a Max^n search found.
#[derive(Debug, Clone)]
pub struct SearchOutcome {
    /// Best move, if the last completed depth found one.
    pub best_move: Option<Move>,
    /// Score vector of the root at the last completed depth.
    pub scores: [i16; 4],
    /// Last completed depth.
    pub depth: u32,
    /// Main search nodes.
    pub nodes: u64,
    /// Quiescence nodes.
    pub qnodes: u64,
    /// Principal variation.
    pub pv: Vec<Move>,
    /// Killer hits so far.
    pub killer_hits: u64,
    /// Killer probes so far.
    pub killer_probes: u64,
}

/// The beam schedule from per-depth widths: entry `i` is `widths[i]`,
/// entries past the list keep the flat width.
pub open spec fn schedule_from(flat: usize, widths: Seq<usize>) -> Seq<usize> {
    Seq::new(32, |i: int| if i < widths.len() { widths[i] } else { flat })
}

/// The searcher configuration for the engine options: the beam width, the
/// quiescence budget, the beam schedule if any (filled with the beam width
/// past its end), the move noise, adaptive beam and the opponents' share;
/// defaults elsewhere.
pub fn search_config_from(
    beam_width: u32,
    max_qnodes: u64,
    beam_schedule: &Option<Vec<usize>>,
    move_noise: u32,
    adaptive_beam: bool,
    opponent_beam_permille: u32,
) -> (c: SearchConfig)
    ensures
        c.beam_width == beam_width,
        c.sum_bound == DEFAULT_SUM_BOUND,
        c.max_qnodes == max_qnodes,
        match beam_schedule {
            Some(w) => c.beam_schedule matches Some(a) && a@ == schedule_from(beam_width as usize, w@),
            None => c.beam_schedule is None,
        },
        c.move_noise == move_noise,
        c.adaptive_beam == adaptive_beam,
        c.opponent_beam_permille == opponent_beam_permille,
        c.noise_seed == 0,
{
    let flat = beam_width as usize;
    let schedule = match beam_schedule {
        Some(widths) => {
            let mut arr: [usize; MAX_DEPTH] = [flat; MAX_DEPTH];
            let mut i: usize = 0;
            while i < MAX_DEPTH
                invariant
                    i <= MAX_DEPTH,
                    forall|k: int| 0 <= k < i ==> arr@[k] == schedule_from(flat, widths@)[k],
                    forall|k: int| i <= k < 32 ==> arr@[k] == flat,
                decreases MAX_DEPTH - i,
            {
                if i < widths.len() {
                    arr[i] = widths[i];
                }
                i += 1;
            }
            proof {
                assert(arr@ =~= schedule_from(flat, widths@));
            }
            Some(arr)
        },
        None => None,
    };
    SearchConfig {
        beam_width: flat,
        sum_bound: DEFAULT_SUM_BOUND,
        max_qnodes,
        beam_schedule: schedule,
        move_noise,
        adaptive_beam,
        opponent_beam_permille,
        noise_seed: 0,
    }
}

/// The Max^n phase's result already settles a hybrid search: it found no
/// move, or its score for the root player reaches the mate threshold.
pub fn hybrid_settled(maxn_move: Option<Move>, maxn_root_score: i16, mate_skip_threshold: i16) -> (r: bool)
    ensures
        r == (maxn_move is None || maxn_root_score >= mate_skip_threshold),
{
    maxn_move.is_none() || maxn_root_score >= mate_skip_threshold
}

/// The time left for the MCTS phase of a hybrid search, or None when under
/// 10 ms remain of the total.
pub fn hybrid_mcts_time(total_time_ms: u64, elapsed_ms: u64) -> (r: Option<u64>)
    ensures
        r == (if elapsed_ms >= total_time_ms || total_time_ms - elapsed_ms < 10 {
            None::<u64>
        } else {
            Some((total_time_ms - elapsed_ms) as u64)
        }),
{
    let remaining = total_time_ms.saturating_sub(elapsed_ms);
    if remaining < 10 {
        None
    } else {
        Some(remaining)
    }
}

/// The move a hybrid search plays: the MCTS phase's, else the Max^n
/// phase's.
pub fn hybrid_final_move(mcts_move: Option<Move>, maxn_move: Option<Move>) -> (r: Option<Move>)
    ensures
        r == (if mcts_move is Some {
            mcts_move
        } else {
            maxn_move
        }),
{
    match mcts_move {
        Some(m) => Some(m),
        None => maxn_move,
    }
}

/// The time limit is reached: as many milliseconds have passed as allowed.
pub fn time_exceeded(elapsed_ms: u64, max_time_ms: u64) -> (r: bool)
    ensures
        r == (elapsed_ms >= max_time_ms),
{
    elapsed_ms >= max_time_ms
}

/// Stop deepening: the next depth, estimated at four times the last one
/// (saturating), needs more than what remains of the time (none once it
/// has run out), and the minimum depth is done.
pub fn stop_deepening(last_depth_ms: u64, elapsed_ms: u64, max_time_ms: u64, depth: u32, min_depth: u32) -> (r: bool)
    ensures
        r == ((if 4 * last_depth_ms > u64::MAX { u64::MAX as int } else { 4 * last_depth_ms }) > (if max_time_ms
            >= elapsed_ms {
            max_time_ms - elapsed_ms
        } else {
            0
        }) && depth >= min_depth),
{
    let remaining: u64 = if max_time_ms >= elapsed_ms { max_time_ms - elapsed_ms } else { 0 };
    let estimated_next: u64 = if last_depth_ms > u64::MAX / 4 { u64::MAX } else { last_depth_ms * 4 };
    estimated_next > remaining && depth >= min_depth
}

/// Default time for a `go` with no limit of its own, in milliseconds.
pub const DEFAULT_GO_TIME_MS: u64 = 5000;

/// What a `go` command leads to.
#[derive(Debug, Clone, Copy)]
pub enum GoPlan {
    /// No position has been set.
    NoPosition,
    /// The game is over: no move.
    GameOver,
    /// The round limit is reached: no move.
    MaxRoundsReached,
    /// The side to move has no legal move: no move.
    NoLegalMoves,
    /// Search within these limits.
    Search(SearchLimits),
}

/// The search limits of a `go`: its depth; its node limit, else the
/// engine's when that is not 0; its move time, else the default time when
/// it sets no limit at all; infinite as asked; the game ply.
pub open spec fn go_limits(ply: u32, opt_nodes: u64, p: GoParams) -> SearchLimits {
    let no_constraints = p.depth is None && p.nodes is None && p.movetime is None && !p.infinite;
    SearchLimits {
        max_depth: p.depth,
        max_nodes: match p.nodes {
            Some(n) => Some(n),
            None => if opt_nodes > 0 { Some(opt_nodes) } else { None },
        },
        max_time_ms: if no_constraints { Some(DEFAULT_GO_TIME_MS) } else { p.movetime },
        infinite: p.infinite,
        game_ply: ply,
    }
}

/// Decide a `go` command: no position, a finished game, the round limit
/// (a round is four plies), no legal move, in that order; otherwise search
/// within `go_limits`.
pub fn plan_go(
    position_set: bool,
    over: bool,
    ply: u32,
    max_rounds: Option<u32>,
    n_legal: usize,
    opt_nodes: u64,
    p: &GoParams,
) -> (g: GoPlan)
    ensures
        g == (if !position_set {
            GoPlan::NoPosition
        } else if over {
            GoPlan::GameOver
        } else if max_rounds matches Some(m) && ply / 4 >= m {
            GoPlan::MaxRoundsReached
        } else if n_legal == 0 {
            GoPlan::NoLegalMoves
        } else {
            GoPlan::Search(go_limits(ply, opt_nodes, *p))
        }),
{
    if !position_set {
        return GoPlan::NoPosition;
    }
    if over {
        return GoPlan::GameOver;
    }
    match max_rounds {
        Some(m) => {
            if ply / 4 >= m {
                return GoPlan::MaxRoundsReached;
            }
        },
        None => {},
    }
    if n_legal == 0 {
        return GoPlan::NoLegalMoves;
    }
    let no_constraints = p.depth.is_none() && p.nodes.is_none() && p.movetime.is_none() && !p.infinite;
    let max_nodes = match p.nodes {
        Some(n) => Some(n),
        None => if opt_nodes > 0 { Some(opt_nodes) } else { None },
    };
    GoPlan::Search(SearchLimits {
        max_depth: p.depth,
        max_nodes,
        max_time_ms: if no_constraints { Some(DEFAULT_GO_TIME_MS) } else { p.movetime },
        infinite: p.infinite,
        game_ply: ply,
    })
}

// ─── Search state ───────────────────────────────────────────────────────────

/// Counters, limits and principal-variation table of one search.
struct SearchState {
    nodes: u64,
    qnodes: u64,
    max_qnodes: u64,
    start_time: Instant,
    limits: SearchLimits,
    aborted: bool,
    suspend_time_check: bool,
    /// Row `ply` (entries `ply * MAX_DEPTH ..`) holds the line from `ply` on.
    pv_table: Vec<Option<Move>>,
    pv_length: Vec<usize>,
}

/// Row `ply` of a flattened principal-variation table starts here.
pub open spec fn pv_row(ply: int) -> int {
    ply * 32
}

impl SearchState {
    /// Table sizes, and each line short enough to fit its row.
    spec fn wf(&self) -> bool {
        &&& self.pv_table@.len() == 1024
        &&& self.pv_length@.len() == 32
        &&& forall|k: int| 0 <= k < 32 ==> #[trigger] self.pv_length@[k] <= 32 - k
    }

    /// What a search call below `ply` keeps: the sizes, the rows before
    /// `ply`, the budget, the start time, the limits and the suspension.
    spec fn kept_from(&self, o: &SearchState, ply: int) -> bool {
        &&& self.wf()
        &&& self.rows_kept(o, ply)
        &&& self.max_qnodes == o.max_qnodes
        &&& self.start_time == o.start_time
        &&& self.limits == o.limits
        &&& self.suspend_time_check == o.suspend_time_check
    }

    /// The line at ply 0, when there is one, starts with a legal move of
    /// `st`.
    spec fn root_line_ok(&self, st: BoardState) -> bool {
        self.pv_length@[0] > 0 ==> (self.pv_table@[0] matches Some(m) && legal_in_position(st, m))
    }

    /// Nothing can stop the search: no node limit, time checks suspended,
    /// not stopped yet.
    spec fn unstoppable(&self) -> bool {
        &&& self.limits.max_nodes is None
        &&& self.suspend_time_check
        &&& !self.aborted
    }

    /// Counters, limits and flags are those of `o`.
    spec fn counters_same(&self, o: &SearchState) -> bool {
        &&& self.nodes == o.nodes
        &&& self.qnodes == o.qnodes
        &&& self.max_qnodes == o.max_qnodes
        &&& self.start_time == o.start_time
        &&& self.limits == o.limits
        &&& self.aborted == o.aborted
        &&& self.suspend_time_check == o.suspend_time_check
    }

    /// The rows before `ply`, and their lengths, are those of `old`.
    spec fn rows_kept(&self, old: &SearchState, ply: int) -> bool {
        &&& forall|i: int| 0 <= i < pv_row(ply) && i < 1024 ==> #[trigger] self.pv_table@[i] == old.pv_table@[i]
        &&& forall|k: int| 0 <= k < ply && k < 32 ==> #[trigger] self.pv_length@[k] == old.pv_length@[k]
    }

    fn new(limits: SearchLimits, max_qnodes: u64) -> (ss: Self)
        ensures
            ss.wf(),
            ss.nodes == 0,
            ss.qnodes == 0,
            ss.max_qnodes == max_qnodes,
            ss.limits == limits,
            !ss.aborted,
            !ss.suspend_time_check,
            forall|k: int| 0 <= k < 32 ==> #[trigger] ss.pv_length@[k] == 0,
    {
        let mut pv_table: Vec<Option<Move>> = Vec::new();
        let mut i: usize = 0;
        while i < 1024
            invariant
                i <= 1024,
                pv_table@.len() == i,
            decreases 1024 - i,
        {
            pv_table.push(None);
            i += 1;
        }
        let pv_length = Self::zero_lengths();
        SearchState {
            nodes: 0,
            qnodes: 0,
            max_qnodes,
            start_time: clock_now(),
            limits,
            aborted: false,
            suspend_time_check: false,
            pv_table,
            pv_length,
        }
    }

    fn zero_lengths() -> (v: Vec<usize>)
        ensures
            v@.len() == 32,
            forall|k: int| 0 <= k < 32 ==> #[trigger] v@[k] == 0,
    {
        let mut v: Vec<usize> = Vec::new();
        let mut i: usize = 0;
        while i < 32
            invariant
                i <= 32,
                v@.len() == i,
                forall|k: int| 0 <= k < i ==> #[trigger] v@[k] == 0,
            decreases 32 - i,
        {
            v.push(0);
            i += 1;
        }
        v
    }

    /// Whether the search must stop: already stopped, the node limit
    /// reached, or (every 1024 nodes, unless suspended) the time limit
    /// reached.
    fn should_abort(&self) -> (r: bool)
        ensures
            self.aborted ==> r,
            (self.limits.max_nodes matches Some(n) && self.nodes.wrapping_add(self.qnodes) >= n) ==> r,
            r ==> self.aborted || (self.limits.max_nodes matches Some(n) && self.nodes.wrapping_add(self.qnodes) >= n)
                || (!self.suspend_time_check && self.limits.max_time_ms is Some && self.nodes.wrapping_add(self.qnodes) % 1024 == 0),
    {
        if self.aborted {
            return true;
        }
        let total_nodes = self.nodes.wrapping_add(self.qnodes);
        if let Some(max_nodes) = self.limits.max_nodes {
            if total_nodes >= max_nodes {
                return true;
            }
        }
        if !self.suspend_time_check {
            if let Some(max_time_ms) = self.limits.max_time_ms {
                if total_nodes & 1023 == 0 {
                    assert(total_nodes & 1023 == total_nodes % 1024) by (bit_vector);
                    if time_exceeded(millis_since(&self.start_time), max_time_ms) {
                        return true;
                    }
                }
            }
        }
        false
    }

    /// Clear the line at `ply` (nothing past the table).
    fn clear_pv(&mut self, ply: usize)
        requires
            old(self).wf(),
        ensures
            final(self).wf(),
            final(self).rows_kept(old(self), ply as int),
            final(self).pv_table == old(self).pv_table,
            ply < 32 ==> final(self).pv_length@ == old(self).pv_length@.update(ply as int, 0),
            ply >= 32 ==> final(self).pv_length@ == old(self).pv_length@,
            final(self).counters_same(old(self)),
    {
        if ply < MAX_DEPTH {
            self.pv_length.set(ply, 0);
        }
    }

    /// Record `mv` as the first move of the line at `ply`, followed by the
    /// line at `ply + 1` (nothing past the table).
    fn update_pv(&mut self, ply: usize, mv: Move)
        requires
            old(self).wf(),
        ensures
            final(self).wf(),
            final(self).rows_kept(old(self), ply as int),
            ply < 32 ==> final(self).pv_table@[pv_row(ply as int)] == Some(mv) && final(self).pv_length@[ply as int] >= 1,
            ply >= 32 ==> final(self).pv_table == old(self).pv_table && final(self).pv_length == old(self).pv_length,
            final(self).counters_same(old(self)),
    {
        if ply >= MAX_DEPTH {
            return;
        }
        let base = ply * MAX_DEPTH;
        self.pv_table.set(base, Some(mv));
        let child_len = if ply + 1 < MAX_DEPTH {
            self.pv_length[ply + 1]
        } else {
            0
        };
        let ghost t0 = old(self).pv_table@;
        proof {
            if ply + 1 < 32 {
                assert(self.pv_length@[ply + 1] <= 32 - (ply + 1));
            }
        }
        let mut i: usize = 0;
        while i < child_len
            invariant
                ply < 32,
                base == ply * 32,
                child_len <= 31 - ply,
                i <= child_len,
                self.pv_table@.len() == 1024,
                self.pv_length@ == old(self).pv_length@,
                self.counters_same(old(self)),
                old(self).wf(),
                self.pv_table@[base as int] == Some(mv),
                forall|j: int| 0 <= j < base && j < 1024 ==> #[trigger] self.pv_table@[j] == t0[j],
            decreases child_len - i,
        {
            let e = self.pv_table[base + MAX_DEPTH + i];
            self.pv_table.set(base + i + 1, e);
            i += 1;
        }
        self.pv_length.set(ply, child_len + 1);
    }

    /// The line at ply 0, up to its length or its first gap.
    fn extract_pv(&self) -> (pv: Vec<Move>)
        requires
            self.wf(),
        ensures
            pv@.len() <= self.pv_length@[0],
            forall|j: int| 0 <= j < pv@.len() ==> self.pv_table@[j] == Some(#[trigger] pv@[j]),
            pv@.len() == self.pv_length@[0] || self.pv_table@[pv@.len() as int] is None,
    {
        let mut pv: Vec<Move> = Vec::new();
        let n = self.pv_length[0];
        let mut i: usize = 0;
        while i < n
            invariant
                self.wf(),
                n == self.pv_length@[0],
                i <= n,
                pv@.len() == i,
                forall|j: int| 0 <= j < i ==> self.pv_table@[j] == Some(#[trigger] pv@[j]),
            decreases n - i,
        {
            match self.pv_table[i] {
                Some(mv) => pv.push(mv),
                None => {
                    return pv;
                },
            }
            i += 1;
        }
        pv
    }
}


// ─── Searcher specifications ────────────────────────────────────────────────

/// `b` is the position `st` but for the king squares, and is `st` exactly
/// where the king squares of `st` agree with its kings.
pub open spec fn restored(b: BoardState, st: BoardState) -> bool {
    &&& b == (BoardState { kings: b.kings, ..st })
    &&& kings_consistent(st) ==> b == st
}

/// `m` is a legal move of position `st`, whatever the order of the piece
/// lists.
pub open spec fn legal_in_position(st: BoardState, m: Move) -> bool {
    exists|b: Board| b.wf() && b@ == st && #[trigger] legal_moves(b).contains(m)
}

/// How many players, from the side to move on in turn order, are out
/// before one still on the board (4 when none is).
pub open spec fn skip_dist(b: Board) -> int {
    let s = pidx(b@.stm);
    if !eliminated_in_search(b, s) {
        0
    } else if !eliminated_in_search(b, (s + 1) % 4) {
        1
    } else if !eliminated_in_search(b, (s + 2) % 4) {
        2
    } else if !eliminated_in_search(b, (s + 3) % 4) {
        3
    } else {
        4
    }
}

/// Beam width before adapting to the position: the schedule's entry for
/// the remaining depth (at least 1) or the flat width, cut to the
/// opponents' share (at least 3) for players other than the root player.
pub open spec fn beam_base(c: SearchConfig, remaining_depth: int, is_root: bool) -> int {
    let base = match c.beam_schedule {
        Some(s) => {
            let w = s@[if remaining_depth < 31 { remaining_depth } else { 31 }] as int;
            if w < 1 { 1 } else { w }
        },
        None => c.beam_width as int,
    };
    if is_root {
        base
    } else {
        let cut = ((base * c.opponent_beam_permille as int / 1000) as usize) as int;
        if cut < 3 { 3 } else { cut }
    }
}

/// Beam width adapted to the number of captures: wider (by half, at most
/// `MAX_MOVES`) above eight, narrower (by a third, at least 3) at none.
pub open spec fn beam_adapted(w: int, captures: int) -> int {
    if captures > 8 {
        let x = w * 3 / 2;
        if x < MAX_MOVES { x } else { MAX_MOVES as int }
    } else if captures == 0 {
        let x = w * 2 / 3;
        if x < 3 { 3 } else { x }
    } else {
        w
    }
}

// ─── Making, searching below and undoing ────────────────────────────────────

/// Before undoing `m`: the record of making `m` on `cur` fits the board a
/// search below left, and a board whose king squares agreed with its kings
/// still does after the move.
proof fn lemma_undo_ready(cur: BoardState, m: Move, post: BoardState, back: BoardState)
    requires
        shape_ok(cur),
        makeable(cur, m),
        post == (BoardState { zobrist: post.zobrist, ..made(cur, m) }),
        back == (BoardState { kings: back.kings, ..post }),
    ensures
        unmake_ok(back, undo_of(cur, m)),
        kings_consistent(cur) ==> kings_consistent(post),
{
    lemma_make_unmake_squares(cur, m);
    if kings_consistent(cur) {
        lemma_made_consistent(cur, m);
    }
}

/// After undoing `m`: the board is `cur` but for the king squares, and is
/// `cur` exactly where its king squares agreed with its kings.
proof fn lemma_undo_done(cur: BoardState, m: Move, post: BoardState, back: BoardState, fin: BoardState)
    requires
        shape_ok(cur),
        makeable(cur, m),
        post == (BoardState { zobrist: post.zobrist, ..made(cur, m) }),
        hash_drift(post) == hash_drift(cur),
        restored(back, post),
        fin == (BoardState { zobrist: fin.zobrist, ..unmade(back, undo_of(cur, m)) }),
        hash_drift(fin) == hash_drift(back),
    ensures
        restored(fin, cur),
{
    lemma_make_unmake_squares(cur, m);
    if kings_consistent(cur) {
        lemma_made_consistent(cur, m);
    }
    let b = BoardState { kings: fin.kings, ..cur };
    assert(full_hash(back) == full_hash(post));
    assert(fin == (BoardState { zobrist: fin.zobrist, ..b }));
    assert(full_hash(b) == full_hash(cur));
    lemma_equal_drift_same_hash(fin, b);
}

/// Giving the move back to `p` after searching with the move passed on.
proof fn lemma_pass_back(st: BoardState, passed: BoardState, back: BoardState, fin: BoardState)
    requires
        passed == (BoardState { stm: passed.stm, zobrist: passed.zobrist, ..st }),
        hash_drift(passed) == hash_drift(st),
        restored(back, passed),
        fin == (BoardState { stm: st.stm, zobrist: fin.zobrist, ..back }),
        hash_drift(fin) == hash_drift(back),
    ensures
        restored(fin, st),
{
    let b = BoardState { kings: fin.kings, ..st };
    assert(full_hash(back) == full_hash(passed));
    assert(fin == (BoardState { zobrist: fin.zobrist, ..b }));
    assert(full_hash(b) == full_hash(st));
    lemma_equal_drift_same_hash(fin, b);
    if kings_consistent(st) {
        assert(kings_consistent(passed));
    }
}

/// The first entries of pairs taken from `a` in any order come from `s`
/// when those of `a` do.
proof fn lemma_pairs_from(a: Seq<(Move, i32)>, b: Seq<(Move, i32)>, s: Seq<Move>)
    requires
        a.to_multiset() == b.to_multiset(),
        forall|k: int| 0 <= k < a.len() ==> s.contains(#[trigger] a[k].0),
    ensures
        forall|k: int| 0 <= k < b.len() ==> s.contains(#[trigger] b[k].0),
{
    broadcast use group_to_multiset_ensures;

    assert forall|k: int| 0 <= k < b.len() implies s.contains(#[trigger] b[k].0) by {
        assert(b.contains(b[k]));
        vstd::seq_lib::to_multiset_contains(b, b[k]);
        vstd::seq_lib::to_multiset_contains(a, b[k]);
        assert(a.contains(b[k]));
        let j = choose|j: int| 0 <= j < a.len() && a[j] == b[k];
        assert(s.contains(a[j].0));
    }
}

/// Every move contained in a makeable list is makeable.
proof fn lemma_contained_makeable(st: BoardState, s: Seq<Move>, m: Move)
    requires
        all_makeable(st, s),
        s.contains(m),
    ensures
        makeable(st, m),
{
    let j = choose|j: int| 0 <= j < s.len() && s[j] == m;
    assert(makeable(st, s[j]));
}

/// A move of the legal list of a board is legal in its position.
pub(crate) proof fn lemma_contained_legal(b: Board, m: Move)
    requires
        b.wf(),
        legal_moves(b).contains(m),
    ensures
        legal_in_position(b@, m),
{
}

/// Sort pairs by descending second entry. Pairs of equal second entry come
/// in no promised order.
fn sort_pairs_desc(v: &mut Vec<(Move, i32)>)
    ensures
        final(v)@.len() == old(v)@.len(),
        final(v)@.to_multiset() == old(v)@.to_multiset(),
        forall|a: int, b: int| 0 <= a < b < final(v)@.len() ==> final(v)@[a].1 >= final(v)@[b].1,
{
    broadcast use group_to_multiset_ensures, group_multiset_properties;

    let n = v.len();
    if n == 0 {
        return;
    }
    let mut i: usize = 1;
    while i < n
        invariant
            n == v@.len(),
            n == old(v)@.len(),
            1 <= i <= n,
            v@.to_multiset() == old(v)@.to_multiset(),
            forall|a: int, b: int| 0 <= a < b < i ==> v@[a].1 >= v@[b].1,
        decreases n - i,
    {
        let mut j: usize = i;
        while j > 0 && v[j - 1].1 < v[j].1
            invariant
                n == v@.len(),
                0 <= j <= i < n,
                v@.to_multiset() == old(v)@.to_multiset(),
                forall|a: int, b: int| 0 <= a < b <= i && a != j && b != j ==> v@[a].1 >= v@[b].1,
                forall|b: int| j < b <= i ==> v@[j as int].1 > v@[b].1,
            decreases j,
        {
            let x = v[j];
            let y = v[j - 1];
            let ghost m0 = v@;
            v.set(j, y);
            v.set(j - 1, x);
            proof {
                let m1 = m0.update(j as int, y);
                assert(v@ == m1.update(j - 1, x));
                vstd::seq_lib::to_multiset_update(m0, j as int, y);
                vstd::seq_lib::to_multiset_update(m1, j - 1, x);
                assert(m1[j - 1] == y);
                assert(m0[j as int] == x);
                vstd::seq_lib::to_multiset_contains(m0, x);
                assert(m0.contains(x)) by {
                    assert(m0[j as int] == x);
                }
                assert(v@.to_multiset() =~= m0.to_multiset());
            }
            j -= 1;
        }
        i += 1;
    }
}

/// What a search call keeps of the game state: well-formed, the same but
/// for the board, and the board restored.
pub open spec fn state_kept(s: GameState, o: GameState) -> bool {
    &&& s.wf()
    &&& s.same_but_board(&o)
    &&& restored(s.board_of()@, o.board_of()@)
}

/// Some player is still on the board, as seen during a search.
pub open spec fn someone_on_board(b: Board) -> bool {
    exists|q: int| 0 <= q < 4 && !eliminated_in_search(b, q)
}

proof fn lemma_someone_on_board(b: Board)
    ensures
        someone_on_board(b) <==> active_in_search_below(b, 4) > 0,
{
    reveal_with_fuel(active_in_search_below, 5);
    if active_in_search_below(b, 4) > 0 {
        if !eliminated_in_search(b, 0) {
        } else if !eliminated_in_search(b, 1) {
        } else if !eliminated_in_search(b, 2) {
        } else {
            assert(!eliminated_in_search(b, 3));
        }
    }
}

/// Passing the move on from a player who is out, while someone is on the
/// board, brings the side to move closer to a player on the board.
proof fn lemma_skip_step(b: Board, b2: Board)
    requires
        b@.kings.len() == 4,
        b2@ == (BoardState { stm: next_player(b@.stm), zobrist: b2@.zobrist, ..b@ }),
        eliminated_in_search(b, pidx(b@.stm)),
        someone_on_board(b),
    ensures
        0 <= skip_dist(b2) < skip_dist(b),
{
    let s = pidx(b@.stm);
    assert(pidx(b2@.stm) == (s + 1) % 4);
    assert forall|q: int| 0 <= q < 4 implies eliminated_in_search(b2, q) == eliminated_in_search(b, q) by {}
    let q = choose|q: int| 0 <= q < 4 && !eliminated_in_search(b, q);
    if s == 0 {
    } else if s == 1 {
    } else if s == 2 {
    } else {
    }
}

/// Search calls compose: what a later call keeps from an earlier state,
/// the pair keeps from the first.
proof fn lemma_state_kept_trans(a: GameState, b: GameState, c: GameState)
    requires
        state_kept(b, a),
        state_kept(c, b),
    ensures
        state_kept(c, a),
{
}

/// Negation with 16-bit wrapping: the lowest value stays itself.
pub open spec fn neg16_of(x: i16) -> i16 {
    if x == i16::MIN {
        i16::MIN
    } else {
        (-x) as i16
    }
}

/// The value a fail-hard alpha-beta node reaches from `alpha` over the
/// negated child scores `vals`: the largest of them and `alpha`.
pub open spec fn raised(alpha: i16, vals: Seq<i16>) -> i16
    decreases vals.len(),
{
    if vals.len() == 0 {
        alpha
    } else {
        let a = raised(alpha, vals.drop_last());
        if vals.last() > a {
            vals.last()
        } else {
            a
        }
    }
}

fn neg16(x: i16) -> (r: i16)
    ensures
        r == neg16_of(x),
{
    if x == i16::MIN {
        x
    } else {
        -x
    }
}

proof fn lemma_active_below_grows(b: Board, n: int)
    requires
        0 <= n,
    ensures
        active_in_search_below(b, n + 1) == active_in_search_below(b, n) + if eliminated_in_search(b, n) {
            0int
        } else {
            1int
        },
{
}

proof fn lemma_active_below_le(b: Board, m: int, n: int)
    requires
        0 <= m <= n,
    ensures
        active_in_search_below(b, m) <= active_in_search_below(b, n),
    decreases n - m,
{
    if m < n {
        lemma_active_below_le(b, m, n - 1);
    }
}

/// A search call at the root whose line the root line check covers: ply 0,
/// king squares in agreement with the kings, the side to move on the board,
/// and the line so far fine.
spec fn at_root(s: GameState, ss: SearchState, ply: int) -> bool {
    &&& ply == 0
    &&& kings_consistent(s.board_of()@)
    &&& !eliminated_in_search(s.board_of(), pidx(s.board_of()@.stm))
    &&& ss.root_line_ok(s.board_of()@)
}

/// The legal captures of a board are legal moves of its position.
pub(crate) proof fn lemma_captures_legal(b: Board, caps: Seq<Move>, m: Move)
    requires
        b.wf(),
        caps == legal_moves(b).filter(|m: Move| is_capture_move(m)),
        caps.contains(m),
    ensures
        legal_in_position(b@, m),
{
    legal_moves(b).lemma_filter_contains_rev(|m: Move| is_capture_move(m), m);
    lemma_contained_legal(b, m);
}

/// A move found in a reordering of a list is found in the list.
proof fn lemma_reordered_contains(a: Seq<Move>, b: Seq<Move>, m: Move)
    requires
        a.to_multiset() == b.to_multiset(),
        b.contains(m),
    ensures
        a.contains(m),
{
    vstd::seq_lib::to_multiset_contains(b, m);
    vstd::seq_lib::to_multiset_contains(a, m);
}

// ─── Max^n searcher ─────────────────────────────────────────────────────────

/// Max^n search with beam selection, falling back to negamax with
/// alpha-beta once two players remain. Each player maximizes its own entry
/// of the score vector.
pub struct MaxnSearcher<E: Evaluator> {
    evaluator: E,
    config: SearchConfig,
    killers: KillerTable,
    history: HistoryTable,
}

impl<E: Evaluator> MaxnSearcher<E> {
    /// Table sizes.
    pub closed spec fn wf(&self) -> bool {
        &&& self.killers.wf()
        &&& self.history.entries().len() == HISTORY_SIZE
    }

    /// What a search call keeps: the sizes and the configuration.
    closed spec fn kept_from(&self, o: &Self) -> bool {
        &&& self.wf()
        &&& self.config == o.config
    }

    /// The configuration.
    pub closed spec fn config_of(&self) -> SearchConfig {
        self.config
    }

    /// The history table.
    pub closed spec fn history_of(&self) -> HistoryTable {
        self.history
    }

    /// A searcher with empty killer and history tables.
    pub fn new(evaluator: E, config: SearchConfig) -> (s: Self)
        ensures
            s.wf(),
            s.config_of() == config,
            forall|i: int| 0 <= i < HISTORY_SIZE ==> s.history_of().entries()[i] == 0,
    {
        MaxnSearcher { evaluator, config, killers: KillerTable::new(), history: HistoryTable::new() }
    }

    /// The history table, for warm-starting another search.
    pub fn history_table(&self) -> (h: &HistoryTable)
        ensures
            *h == self.history_of(),
    {
        &self.history
    }

    /// The evaluator's score vector, with the players out as seen during a
    /// search scored `ELIMINATED_SCORE`.
    fn eval_4vec_search(&self, state: &GameState) -> (r: [i16; 4])
        requires
            state.wf(),
        ensures
            forall|q: int| 0 <= q < 4 && eliminated_in_search(state.board_of(), q) ==> r@[q] == ELIMINATED_SCORE,
    {
        proof {
            state.lemma_board_wf();
        }
        let mut scores = self.evaluator.eval_4vec(state);
        let board = state.board();
        let players = Player::all();
        let mut q: usize = 0;
        while q < 4
            invariant
                q <= 4,
                board.wf(),
                *board == state.board_of(),
                forall|i: int| 0 <= i < 4 ==> players@[i] == player_at(i),
                forall|i: int| 0 <= i < q && eliminated_in_search(*board, i) ==> scores@[i] == ELIMINATED_SCORE,
            decreases 4 - q,
        {
            let p = players[q];
            proof {
                lemma_index_player(q as int);
            }
            if is_player_eliminated_in_search(board, p) {
                scores[q] = ELIMINATED_SCORE;
            }
            q += 1;
        }
        scores
    }

    /// Beam width at a node: `beam_base`, adapted to the legal captures when
    /// the configuration asks for it.
    fn beam_width_for(&self, remaining_depth: u32, is_root_player: bool, state: &mut GameState) -> (w: usize)
        requires
            old(state).wf(),
        ensures
            final(state).wf(),
            final(state).same_but_board(old(state)),
            restored(final(state).board_of()@, old(state).board_of()@),
            !self.config.adaptive_beam ==> w == beam_base(self.config, remaining_depth as int, is_root_player),
            self.config.adaptive_beam && kings_consistent(old(state).board_of()@) ==> w == beam_adapted(
                beam_base(self.config, remaining_depth as int, is_root_player),
                legal_moves(old(state).board_of()).filter(|m: Move| is_capture_move(m)).len() as int,
            ),
    {
        let base: usize = match self.config.beam_schedule {
            Some(schedule) => {
                let idx: usize = if (remaining_depth as usize) < 31 { remaining_depth as usize } else { 31 };
                let w = schedule[idx];
                if w < 1 { 1 } else { w }
            },
            None => self.config.beam_width,
        };
        let role_adjusted: usize = if is_root_player {
            base
        } else {
            let b = base as u128;
            let r = self.config.opponent_beam_permille as u128;
            assert(b * r <= 0xffff_ffff_ffff_ffffu128 * 0xffff_ffffu128) by (nonlinear_arith)
                requires
                    b <= 0xffff_ffff_ffff_ffffu128,
                    r <= 0xffff_ffffu128,
            ;
            let cut = (b * r / 1000) as usize;
            if cut < 3 { 3 } else { cut }
        };
        if !self.config.adaptive_beam {
            return role_adjusted;
        }
        proof {
            state.lemma_board_wf();
        }
        let captures = generate_captures_only(state.board_mut());
        proof {
            state.lemma_wf_same_but_board(old(state));
        }
        let capture_count = captures.len();
        if capture_count > 8 {
            let x = ((role_adjusted as u128) * 3 / 2);
            if x < MAX_MOVES as u128 { x as usize } else { MAX_MOVES }
        } else if capture_count == 0 {
            let x = ((role_adjusted as u128) * 2 / 3) as usize;
            if x < 3 { 3 } else { x }
        } else {
            role_adjusted
        }
    }

    /// The moves a node expands: all legal moves when the beam covers them;
    /// else the `BEAM_CANDIDATES` (at least the beam) best by ordering score,
    /// re-ranked by the evaluation after each move, cut to the beam (at
    /// least one move).
    fn beam_select(&self, state: &mut GameState, player: Player, beam_width: usize, ply: usize) -> (moves: Vec<Move>)
        requires
            old(state).wf(),
            self.wf(),
        ensures
            final(state).wf(),
            final(state).same_but_board(old(state)),
            restored(final(state).board_of()@, old(state).board_of()@),
            all_makeable(old(state).board_of()@, moves@),
            kings_consistent(old(state).board_of()@) ==> forall|i: int|
                0 <= i < moves@.len() ==> legal_in_position(old(state).board_of()@, #[trigger] moves@[i]),
            kings_consistent(old(state).board_of()@) ==> (moves@.len() == 0 <==> legal_moves(
                old(state).board_of(),
            ).len() == 0),
    {
        let ghost st = state.board_of()@;
        let ghost b0 = state.board_of();
        proof {
            state.lemma_board_wf();
        }
        let all_moves = generate_legal_moves(state.board_mut());
        proof {
            state.lemma_wf_same_but_board(old(state));
            if kings_consistent(st) {
                assert forall|i: int| 0 <= i < all_moves@.len() implies legal_in_position(st, #[trigger] all_moves@[i]) by {
                    assert(legal_moves(b0).contains(all_moves@[i]));
                    lemma_contained_legal(b0, all_moves@[i]);
                }
            }
        }
        let n = all_moves.len();
        if n == 0 {
            return all_moves;
        }
        let mut effective_beam: usize = if beam_width < n { beam_width } else { n };
        if effective_beam < 1 {
            effective_beam = 1;
        }
        if effective_beam >= n {
            return all_moves;
        }
        let mut scored: Vec<(Move, i32)> = Vec::new();
        let mut i: usize = 0;
        while i < n
            invariant
                self.wf(),
                n == all_moves@.len(),
                all_makeable(st, all_moves@),
                i <= n,
                scored@.len() == i,
                forall|k: int| 0 <= k < i ==> (#[trigger] scored@[k]).0 == all_moves@[k],
            decreases n - i,
        {
            let mv = all_moves[i];
            proof {
                assert(makeable(st, all_moves@[i as int]));
            }
            let sc = score_move(mv, None, &self.killers, &self.history, ply, player);
            scored.push((mv, sc));
            i += 1;
        }
        let ghost scored0 = scored@;
        proof {
            assert forall|k: int| 0 <= k < scored0.len() implies all_moves@.contains(#[trigger] scored0[k].0) by {
                assert(all_moves@[k] == scored0[k].0);
            }
        }
        sort_pairs_desc(&mut scored);
        proof {
            lemma_pairs_from(scored0, scored@, all_moves@);
        }
        let wide: usize = if BEAM_CANDIDATES > effective_beam { BEAM_CANDIDATES } else { effective_beam };
        let candidates_count: usize = if wide < scored.len() { wide } else { scored.len() };
        let mut eval_scored: Vec<(Move, i32)> = Vec::new();
        let mut c: usize = 0;
        proof {
            b0.lemma_wf();
        }
        while c < candidates_count
            invariant
                state.wf(),
                state.same_but_board(old(state)),
                old(state).wf(),
                restored(state.board_of()@, st),
                st == old(state).board_of()@,
                shape_ok(st),
                candidates_count <= scored@.len(),
                c <= candidates_count,
                eval_scored@.len() == c,
                all_makeable(st, all_moves@),
                forall|k: int| 0 <= k < scored@.len() ==> all_moves@.contains(#[trigger] scored@[k].0),
                forall|k: int| 0 <= k < eval_scored@.len() ==> all_moves@.contains(#[trigger] eval_scored@[k].0),
            decreases candidates_count - c,
        {
            let mv = scored[c].0;
            let ghost cur = state.board_of()@;
            proof {
                assert(all_moves@.contains(scored@[c as int].0));
                lemma_contained_makeable(st, all_moves@, mv);
                state.lemma_board_wf();
                state.board_of().lemma_wf();
                assert(applicable(cur, mv));
            }
            let undo = make_move(state.board_mut(), mv);
            let ghost post = state.board_of()@;
            proof {
                state.lemma_wf_same_but_board(old(state));
                lemma_undo_ready(cur, mv, post, post);
            }
            let eval = self.evaluator.eval_scalar(&*state, player);
            unmake_move(state.board_mut(), &undo);
            proof {
                state.lemma_wf_same_but_board(old(state));
                lemma_undo_done(cur, mv, post, post, state.board_of()@);
            }
            eval_scored.push((mv, eval as i32));
            c += 1;
        }
        let ghost eval0 = eval_scored@;
        sort_pairs_desc(&mut eval_scored);
        proof {
            lemma_pairs_from(eval0, eval_scored@, all_moves@);
        }
        let mut out: Vec<Move> = Vec::new();
        let mut k: usize = 0;
        while k < effective_beam
            invariant
                effective_beam <= candidates_count,
                candidates_count == eval_scored@.len(),
                k <= effective_beam,
                forall|j: int| 0 <= j < eval_scored@.len() ==> all_moves@.contains(#[trigger] eval_scored@[j].0),
                forall|j: int| 0 <= j < out@.len() ==> all_moves@.contains(#[trigger] out@[j]),
                out@.len() == k,
            decreases effective_beam - k,
        {
            let mv = eval_scored[k].0;
            out.push(mv);
            proof {
                assert(all_moves@.contains(eval_scored@[k as int].0));
            }
            k += 1;
        }
        proof {
            assert forall|j: int| 0 <= j < out@.len() implies makeable(st, #[trigger] out@[j]) by {
                lemma_contained_makeable(st, all_moves@, out@[j]);
            }
            if kings_consistent(st) {
                assert forall|j: int| 0 <= j < out@.len() implies legal_in_position(st, #[trigger] out@[j]) by {
                    assert(all_moves@.contains(out@[j]));
                    let q = choose|q: int| 0 <= q < all_moves@.len() && all_moves@[q] == out@[j];
                    assert(legal_in_position(st, all_moves@[q]));
                }
            }
        }
        out
    }

    /// Negamax quiescence once two players remain: stand pat, then the
    /// captures by descending MVV-LVA with delta pruning, in an alpha-beta
    /// window. The score is from the side to move's point of view.
    fn qsearch_2p(
        &mut self,
        state: &mut GameState,
        qdepth: u32,
        ply: usize,
        alpha: i16,
        beta: i16,
        ss: &mut SearchState,
    ) -> (r: i16)
        requires
            old(self).wf(),
            old(state).wf(),
            old(ss).wf(),
            qdepth <= MAX_QSEARCH_DEPTH,
            alpha > i16::MIN,
            beta > i16::MIN,
            ply + MAX_QSEARCH_DEPTH - qdepth < usize::MAX,
        ensures
            final(self).kept_from(old(self)),
            state_kept(*final(state), *old(state)),
            final(ss).kept_from(old(ss), ply as int),
            old(ss).unstoppable() ==> final(ss).unstoppable(),
            at_root(*old(state), *old(ss), ply as int) ==> final(ss).root_line_ok(old(state).board_of()@),
        decreases MAX_QSEARCH_DEPTH - qdepth, skip_dist(old(state).board_of()),
    {
        let ghost root0 = at_root(*old(state), *old(ss), ply as int);
        let mut alpha = alpha;
        ss.qnodes = ss.qnodes.wrapping_add(1);
        if ss.should_abort() {
            ss.aborted = true;
            return 0;
        }
        proof {
            state.lemma_board_wf();
        }
        let current = state.board().side_to_move();
        if is_player_eliminated_in_search(state.board(), current) {
            let on_board = active_count_in_search(state.board());
            if ply >= MAX_DEPTH - 1 || on_board == 0 {
                return 0;
            }
            let ghost b0 = state.board_of();
            let ghost s0 = *state;
            state.board_mut().set_side_to_move(current.next());
            proof {
                state.lemma_wf_same_but_board(&s0);
                b0.lemma_wf();
                lemma_someone_on_board(b0);
                lemma_skip_step(b0, state.board_of());
            }
            let ghost s1 = *state;
            let score = self.qsearch_2p(state, qdepth, ply, neg16(beta), neg16(alpha), ss);
            proof {
                state.lemma_board_wf();
            }
            let ghost back = state.board_of()@;
            state.board_mut().set_side_to_move(current);
            proof {
                state.lemma_wf_same_but_board(&s0);
                lemma_pass_back(b0@, s1.board_of()@, back, state.board_of()@);
            }
            return neg16(score);
        }
        let stand_pat = self.evaluator.eval_scalar(&*state, current);
        if ss.qnodes >= ss.max_qnodes {
            ss.clear_pv(ply);
            return stand_pat;
        }
        if qdepth >= MAX_QSEARCH_DEPTH {
            ss.clear_pv(ply);
            return stand_pat;
        }
        if stand_pat >= beta {
            ss.clear_pv(ply);
            return beta;
        }
        if stand_pat > alpha {
            alpha = stand_pat;
        }
        let ghost s0 = *state;
        let ghost st = state.board_of()@;
        let mut captures = generate_captures_only(state.board_mut());
        proof {
            state.lemma_wf_same_but_board(&s0);
        }
        let ghost caps0 = captures@;
        order_captures_mvv_lva(&mut captures);
        proof {
            assert forall|k: int| 0 <= k < captures@.len() implies makeable(st, #[trigger] captures@[k]) && (root0
                ==> legal_in_position(st, captures@[k])) by {
                assert(captures@.contains(captures@[k]));
                lemma_reordered_contains(caps0, captures@, captures@[k]);
                lemma_contained_makeable(st, caps0, captures@[k]);
                if root0 {
                    lemma_captures_legal(s0.board_of(), caps0, captures@[k]);
                }
            }
        }
        ss.clear_pv(ply);
        let mut i: usize = 0;
        while i < captures.len()
            invariant
                root0 == at_root(*old(state), *old(ss), ply as int),
                root0 ==> ss.root_line_ok(st) && st == old(state).board_of()@,
                root0 ==> forall|k: int| 0 <= k < captures@.len() ==> legal_in_position(st, #[trigger] captures@[k]),
                self.kept_from(old(self)),
                state_kept(*state, *old(state)),
                restored(state.board_of()@, st),
                st == s0.board_of()@,
                old(state).wf(),
                ss.kept_from(old(ss), ply as int),
                old(ss).unstoppable() ==> ss.unstoppable(),
                i <= captures@.len(),
                all_makeable(st, captures@),
                qdepth < MAX_QSEARCH_DEPTH,
                alpha > i16::MIN,
                beta > i16::MIN,
                ply + MAX_QSEARCH_DEPTH - qdepth < usize::MAX,
            decreases captures@.len() - i,
        {
            let mv = captures[i];
            i += 1;
            match mv.captured() {
                Some(captured_pt) => {
                    let capture_value = piece_value(captured_pt);
                    if sat_add(sat_add(stand_pat, capture_value), DELTA_MARGIN) < alpha {
                        continue;
                    }
                },
                None => {},
            }
            let ghost cur = state.board_of()@;
            let ghost sa = *state;
            proof {
                assert(makeable(st, captures@[i - 1]));
                state.lemma_board_wf();
                state.board_of().lemma_wf();
                assert(applicable(cur, mv));
            }
            let undo = make_move(state.board_mut(), mv);
            let ghost post = state.board_of()@;
            proof {
                state.lemma_wf_same_but_board(&sa);
            }
            let score = self.qsearch_2p(state, qdepth + 1, ply + 1, neg16(beta), neg16(alpha), ss);
            let ghost back = state.board_of()@;
            proof {
                state.lemma_board_wf();
                lemma_undo_ready(cur, mv, post, back);
            }
            let ghost sb = *state;
            unmake_move(state.board_mut(), &undo);
            proof {
                state.lemma_wf_same_but_board(&sb);
                lemma_undo_done(cur, mv, post, back, state.board_of()@);
            }
            let score = neg16(score);
            if ss.aborted {
                return 0;
            }
            if score > alpha {
                alpha = score;
                ss.update_pv(ply, mv);
            }
            if alpha >= beta {
                break;
            }
        }
        alpha
    }

    /// Credit a quiet move that improved a score or cut off in the history
    /// table, with the depth-squared bonus (depths whose square does not
    /// fit 32 bits leave the table as it is).
    fn note_history(&mut self, mv: Move, depth: u32)
        requires
            old(self).wf(),
            mv.from_idx() < 196,
            mv.to_idx() < 196,
        ensures
            final(self).kept_from(old(self)),
    {
        if depth <= 65535 {
            assert(depth * depth <= 65535 * 65535) by (nonlinear_arith)
                requires
                    depth <= 65535,
            ;
            self.history.update(mv.from_sq().0, mv.to_sq().0, depth);
        }
    }

    /// Negamax with alpha-beta once two players remain; the score is from
    /// the side to move's point of view. Cut-off quiet moves become killers
    /// and earn history.
    fn negamax_2p(
        &mut self,
        state: &mut GameState,
        depth: u32,
        ply: usize,
        alpha: i16,
        beta: i16,
        ss: &mut SearchState,
    ) -> (r: (i16, Ghost<Option<(Seq<Move>, Seq<i16>)>>))
        requires
            old(self).wf(),
            old(state).wf(),
            old(ss).wf(),
            alpha > i16::MIN,
            beta > i16::MIN,
            ply + depth + MAX_QSEARCH_DEPTH < usize::MAX,
        ensures
            r.1@ matches Some((ms, vals)) ==> {
                &&& 1 <= vals.len() <= ms.len()
                &&& all_makeable(old(state).board_of()@, ms)
                &&& r.0 == raised(alpha, vals)
                &&& vals.len() < ms.len() ==> r.0 >= beta
                &&& r.0 > alpha && ply < MAX_DEPTH ==> final(ss).pv_length@[ply as int] >= 1
                    && final(ss).pv_table@[pv_row(ply as int)] is Some
            },
            kings_consistent(old(state).board_of()@) && !final(ss).aborted && depth >= 1
                && !eliminated_in_search(old(state).board_of(), pidx(old(state).board_of()@.stm))
                && canon_legal(old(state).board_of()@).len() > 0 ==> r.1@ is Some,
            final(self).kept_from(old(self)),
            state_kept(*final(state), *old(state)),
            final(ss).kept_from(old(ss), ply as int),
            old(ss).unstoppable() ==> final(ss).unstoppable(),
            at_root(*old(state), *old(ss), ply as int) ==> final(ss).root_line_ok(old(state).board_of()@),
        decreases depth, skip_dist(old(state).board_of()),
    {
        let ghost root0 = at_root(*old(state), *old(ss), ply as int);
        let mut alpha = alpha;
        ss.nodes = ss.nodes.wrapping_add(1);
        if ss.should_abort() {
            ss.aborted = true;
            return (0, Ghost(None));
        }
        proof {
            state.lemma_board_wf();
        }
        let current = state.board().side_to_move();
        if is_player_eliminated_in_search(state.board(), current) {
            let on_board = active_count_in_search(state.board());
            if ply >= MAX_DEPTH - 1 || on_board == 0 {
                return (0, Ghost(None));
            }
            let ghost b0 = state.board_of();
            let ghost s0 = *state;
            state.board_mut().set_side_to_move(current.next());
            proof {
                state.lemma_wf_same_but_board(&s0);
                b0.lemma_wf();
                lemma_someone_on_board(b0);
                lemma_skip_step(b0, state.board_of());
            }
            let ghost s1 = *state;
            let (score, _) = self.negamax_2p(state, depth, ply, neg16(beta), neg16(alpha), ss);
            proof {
                state.lemma_board_wf();
            }
            let ghost back = state.board_of()@;
            state.board_mut().set_side_to_move(current);
            proof {
                state.lemma_wf_same_but_board(&s0);
                lemma_pass_back(b0@, s1.board_of()@, back, state.board_of()@);
            }
            return (neg16(score), Ghost(None));
        }
        if depth == 0 {
            return (self.qsearch_2p(state, 0, ply, alpha, beta, ss), Ghost(None));
        }
        let ghost s0 = *state;
        let ghost st = state.board_of()@;
        let mut moves = generate_legal_moves(state.board_mut());
        proof {
            state.lemma_wf_same_but_board(&s0);
        }
        if moves.len() == 0 {
            proof {
                if kings_consistent(st) {
                    s0.lemma_board_wf();
                    lemma_legal_count(s0.board_of());
                }
            }
            ss.clear_pv(ply);
            return (self.evaluator.eval_scalar(&*state, current), Ghost(None));
        }
        let ghost moves0 = moves@;
        proof {
            assert forall|k: int| 0 <= k < moves@.len() implies (#[trigger] moves@[k]).from_idx() < 196
                && moves@[k].to_idx() < 196 by {
                assert(makeable(st, moves@[k]));
            }
        }
        order_moves(&mut moves, None, &self.killers, &self.history, ply, current);
        proof {
            assert forall|k: int| 0 <= k < moves@.len() implies makeable(st, #[trigger] moves@[k]) && (root0
                ==> legal_in_position(st, moves@[k])) by {
                assert(moves@.contains(moves@[k]));
                lemma_reordered_contains(moves0, moves@, moves@[k]);
                lemma_contained_makeable(st, moves0, moves@[k]);
                if root0 {
                    lemma_contained_legal(s0.board_of(), moves@[k]);
                }
            }
        }
        proof {
            moves@.to_multiset_ensures();
            moves0.to_multiset_ensures();
            assert(moves@.len() == moves0.len());
        }
        let ghost alpha0 = alpha;
        let ghost mut vals: Seq<i16> = Seq::empty();
        let mut i: usize = 0;
        while i < moves.len()
            invariant_except_break
                vals.len() == i,
            invariant
                vals.len() <= i,
                moves@.len() >= 1,
                alpha == raised(alpha0, vals),
                alpha >= alpha0,
                alpha > alpha0 && ply < MAX_DEPTH ==> ss.pv_length@[ply as int] >= 1 && ss.pv_table@[pv_row(
                    ply as int,
                )] is Some,
                root0 == at_root(*old(state), *old(ss), ply as int),
                root0 ==> ss.root_line_ok(st) && st == old(state).board_of()@,
                root0 ==> forall|k: int| 0 <= k < moves@.len() ==> legal_in_position(st, #[trigger] moves@[k]),
                self.kept_from(old(self)),
                state_kept(*state, *old(state)),
                restored(state.board_of()@, st),
                st == s0.board_of()@,
                old(state).wf(),
                ss.kept_from(old(ss), ply as int),
                old(ss).unstoppable() ==> ss.unstoppable(),
                i <= moves@.len(),
                all_makeable(st, moves@),
                depth >= 1,
                alpha > i16::MIN,
                beta > i16::MIN,
                ply + depth + MAX_QSEARCH_DEPTH < usize::MAX,
                current == st.stm,
            ensures
                1 <= vals.len() <= moves@.len(),
                alpha == raised(alpha0, vals),
                vals.len() < moves@.len() ==> alpha >= beta,
                alpha > alpha0 && ply < MAX_DEPTH ==> ss.pv_length@[ply as int] >= 1 && ss.pv_table@[pv_row(
                    ply as int,
                )] is Some,
            decreases moves@.len() - i,
        {
            let mv = moves[i];
            i += 1;
            let ghost cur = state.board_of()@;
            let ghost sa = *state;
            proof {
                assert(makeable(st, moves@[i - 1]));
                state.lemma_board_wf();
                state.board_of().lemma_wf();
                assert(applicable(cur, mv));
            }
            let undo = make_move(state.board_mut(), mv);
            let ghost post = state.board_of()@;
            proof {
                state.lemma_wf_same_but_board(&sa);
            }
            let (score, _) = self.negamax_2p(state, depth - 1, ply + 1, neg16(beta), neg16(alpha), ss);
            let ghost back = state.board_of()@;
            proof {
                state.lemma_board_wf();
                lemma_undo_ready(cur, mv, post, back);
            }
            let ghost sb = *state;
            unmake_move(state.board_mut(), &undo);
            proof {
                state.lemma_wf_same_but_board(&sb);
                lemma_undo_done(cur, mv, post, back, state.board_of()@);
            }
            let score = neg16(score);
            if ss.aborted {
                return (0, Ghost(None));
            }
            proof {
                let prev = vals;
                vals = vals.push(score);
                assert(vals.drop_last() =~= prev);
            }
            if score > alpha {
                alpha = score;
                ss.update_pv(ply, mv);
            }
            if alpha >= beta {
                if !mv.is_capture() && mv.promotion().is_none() {
                    self.killers.store(ply, current, mv);
                    self.note_history(mv, depth);
                }
                break;
            }
        }
        (alpha, Ghost(Some((moves@, vals))))
    }

    /// The two players on the board, in turn order from Red.
    fn two_on_board(board: &Board) -> (r: (Player, Player))
        requires
            board.wf(),
            active_in_search_below(*board, 4) == 2,
        ensures
            !eliminated_in_search(*board, pidx(r.0)),
            !eliminated_in_search(*board, pidx(r.1)),
            pidx(r.0) < pidx(r.1),
    {
        let players = Player::all();
        let mut first: Option<Player> = None;
        let mut second: Option<Player> = None;
        let mut q: usize = 0;
        while q < 4
            invariant
                board.wf(),
                q <= 4,
                active_in_search_below(*board, 4) == 2,
                forall|i: int| 0 <= i < 4 ==> players@[i] == player_at(i),
                (active_in_search_below(*board, q as int) == 0) == (first is None),
                (active_in_search_below(*board, q as int) <= 1) == (second is None),
                active_in_search_below(*board, q as int) >= 1 ==> (first matches Some(f) && pidx(f) < q
                    && !eliminated_in_search(*board, pidx(f))),
                active_in_search_below(*board, q as int) >= 2 ==> (second matches Some(g) && first matches Some(f)
                    && pidx(f) < pidx(g) && pidx(g) < q && !eliminated_in_search(*board, pidx(g))),
            decreases 4 - q,
        {
            let p = players[q];
            assert(p == players@[q as int]);
            proof {
                lemma_index_player(q as int);
                lemma_active_below_grows(*board, q as int);
                lemma_active_below_le(*board, q as int + 1, 4);
                lemma_active_below_le(*board, 0, q as int);
            }
            let out = is_player_eliminated_in_search(board, p);
            assert(out == eliminated_in_search(*board, q as int));
            if !out {
                if first.is_none() {
                    first = Some(p);
                } else if second.is_none() {
                    second = Some(p);
                }
            }
            q += 1;
        }
        (first.unwrap(), second.unwrap())
    }

    /// Negamax from a Max^n node with two players on the board: the side to
    /// move's score goes to its entry, its negation to the other player's,
    /// and `ELIMINATED_SCORE` to the players out.
    fn negamax_2p_entry(&mut self, state: &mut GameState, depth: u32, ply: usize, ss: &mut SearchState) -> (r: [i16; 4])
        requires
            old(self).wf(),
            old(state).wf(),
            old(ss).wf(),
            active_in_search_below(old(state).board_of(), 4) == 2,
            ply + depth + MAX_QSEARCH_DEPTH < usize::MAX,
        ensures
            final(self).kept_from(old(self)),
            state_kept(*final(state), *old(state)),
            final(ss).kept_from(old(ss), ply as int),
            old(ss).unstoppable() ==> final(ss).unstoppable(),
            at_root(*old(state), *old(ss), ply as int) ==> final(ss).root_line_ok(old(state).board_of()@),
            ply < MAX_DEPTH && !final(ss).aborted && depth >= 1 && kings_consistent(old(state).board_of()@)
                && !eliminated_in_search(old(state).board_of(), pidx(old(state).board_of()@.stm))
                && canon_legal(old(state).board_of()@).len() > 0 && r@[pidx(old(state).board_of()@.stm)]
                > i16::MIN + 1 ==> final(ss).pv_length@[ply as int] >= 1 && final(ss).pv_table@[pv_row(
                ply as int,
            )] is Some,
    {
        proof {
            state.lemma_board_wf();
        }
        let ghost b0 = state.board_of();
        let (maximizer, minimizer) = Self::two_on_board(state.board());
        let current = state.board().side_to_move();
        let (max_p, min_p) = if current == maximizer {
            (maximizer, minimizer)
        } else {
            (minimizer, maximizer)
        };
        let ghost cur_on = !eliminated_in_search(b0, pidx(current));
        proof {
            if cur_on {
                reveal_with_fuel(active_in_search_below, 5);
                assert(current == maximizer || current == minimizer);
            }
        }
        let (score, nm) = self.negamax_2p(state, depth, ply, i16::MIN + 1, i16::MAX, ss);
        if ss.aborted {
            return SCORE4_MIN;
        }
        let mut result = [ELIMINATED_SCORE; 4];
        result[max_p.index()] = score;
        result[min_p.index()] = neg16(score);
        proof {
            assert(pidx(max_p) != pidx(min_p));
            assert(result@[pidx(max_p)] == score);
        }
        result
    }

    /// Negamax quiescence from a Max^n node with two players on the board,
    /// mapped to a score vector as in `negamax_2p_entry`.
    fn qsearch_2p_entry(&mut self, state: &mut GameState, qdepth: u32, ply: usize, ss: &mut SearchState) -> (r: [i16; 4])
        requires
            old(self).wf(),
            old(state).wf(),
            old(ss).wf(),
            active_in_search_below(old(state).board_of(), 4) == 2,
            qdepth <= MAX_QSEARCH_DEPTH,
            ply + MAX_QSEARCH_DEPTH - qdepth < usize::MAX,
        ensures
            final(self).kept_from(old(self)),
            state_kept(*final(state), *old(state)),
            final(ss).kept_from(old(ss), ply as int),
            old(ss).unstoppable() ==> final(ss).unstoppable(),
            at_root(*old(state), *old(ss), ply as int) ==> final(ss).root_line_ok(old(state).board_of()@),
    {
        proof {
            state.lemma_board_wf();
        }
        let (maximizer, minimizer) = Self::two_on_board(state.board());
        let current = state.board().side_to_move();
        let (max_p, min_p) = if current == maximizer {
            (maximizer, minimizer)
        } else {
            (minimizer, maximizer)
        };
        let score = self.qsearch_2p(state, qdepth, ply, i16::MIN + 1, i16::MAX, ss);
        if ss.aborted {
            return SCORE4_MIN;
        }
        let mut result = [ELIMINATED_SCORE; 4];
        result[max_p.index()] = score;
        result[min_p.index()] = neg16(score);
        result
    }

    /// Max^n quiescence: stand pat, then the captures by descending
    /// MVV-LVA that involve the root player (its own, or of its pieces),
    /// with delta pruning; each player keeps the best vector for itself.
    fn qsearch(&mut self, state: &mut GameState, qdepth: u32, ply: usize, root_player: Player, ss: &mut SearchState) -> (r: [i16; 4])
        requires
            old(self).wf(),
            old(state).wf(),
            old(ss).wf(),
            qdepth <= MAX_QSEARCH_DEPTH,
            ply + MAX_QSEARCH_DEPTH - qdepth < usize::MAX,
        ensures
            final(self).kept_from(old(self)),
            state_kept(*final(state), *old(state)),
            final(ss).kept_from(old(ss), ply as int),
            old(ss).unstoppable() ==> final(ss).unstoppable(),
            at_root(*old(state), *old(ss), ply as int) ==> final(ss).root_line_ok(old(state).board_of()@),
        decreases MAX_QSEARCH_DEPTH - qdepth, skip_dist(old(state).board_of()),
    {
        let ghost root0 = at_root(*old(state), *old(ss), ply as int);
        ss.qnodes = ss.qnodes.wrapping_add(1);
        if ss.should_abort() {
            ss.aborted = true;
            return SCORE4_MIN;
        }
        proof {
            state.lemma_board_wf();
        }
        let current = state.board().side_to_move();
        let current_idx = current.index();
        if is_player_eliminated_in_search(state.board(), current) {
            let on_board = active_count_in_search(state.board());
            if ply >= MAX_DEPTH - 1 || on_board == 0 {
                return self.eval_4vec_search(&*state);
            }
            let ghost b0 = state.board_of();
            let ghost s0 = *state;
            state.board_mut().set_side_to_move(current.next());
            proof {
                state.lemma_wf_same_but_board(&s0);
                b0.lemma_wf();
                lemma_someone_on_board(b0);
                lemma_skip_step(b0, state.board_of());
            }
            let ghost s1 = *state;
            let result = self.qsearch(state, qdepth, ply, root_player, ss);
            proof {
                state.lemma_board_wf();
            }
            let ghost back = state.board_of()@;
            state.board_mut().set_side_to_move(current);
            proof {
                state.lemma_wf_same_but_board(&s0);
                lemma_pass_back(b0@, s1.board_of()@, back, state.board_of()@);
            }
            return result;
        }
        let on_board = active_count_in_search(state.board());
        if on_board <= 1 {
            ss.clear_pv(ply);
            return self.eval_4vec_search(&*state);
        }
        let stand_pat = self.eval_4vec_search(&*state);
        if ss.qnodes >= ss.max_qnodes {
            ss.clear_pv(ply);
            return stand_pat;
        }
        if qdepth >= MAX_QSEARCH_DEPTH {
            ss.clear_pv(ply);
            return stand_pat;
        }
        if on_board == 2 {
            return self.qsearch_2p_entry(state, qdepth, ply, ss);
        }
        let ghost s0 = *state;
        let ghost st = state.board_of()@;
        let mut captures = generate_captures_only(state.board_mut());
        proof {
            state.lemma_wf_same_but_board(&s0);
        }
        let ghost caps0 = captures@;
        order_captures_mvv_lva(&mut captures);
        proof {
            assert forall|k: int| 0 <= k < captures@.len() implies makeable(st, #[trigger] captures@[k]) by {
                broadcast use group_to_multiset_ensures;
                vstd::seq_lib::to_multiset_contains(captures@, captures@[k]);
                vstd::seq_lib::to_multiset_contains(caps0, captures@[k]);
                assert(captures@.contains(captures@[k]));
                lemma_contained_makeable(st, caps0, captures@[k]);
            }
        }
        let mut best_scores = stand_pat;
        ss.clear_pv(ply);
        let mut i: usize = 0;
        while i < captures.len()
            invariant
                root0 == at_root(*old(state), *old(ss), ply as int),
                root0 ==> ss.root_line_ok(st) && st == old(state).board_of()@,
                self.kept_from(old(self)),
                state_kept(*state, *old(state)),
                restored(state.board_of()@, st),
                st == s0.board_of()@,
                old(state).wf(),
                ss.kept_from(old(ss), ply as int),
                old(ss).unstoppable() ==> ss.unstoppable(),
                i <= captures@.len(),
                all_makeable(st, captures@),
                qdepth < MAX_QSEARCH_DEPTH,
                ply + MAX_QSEARCH_DEPTH - qdepth < usize::MAX,
                current_idx < 4,
            decreases captures@.len() - i,
        {
            let mv = captures[i];
            i += 1;
            proof {
                assert(makeable(st, captures@[i - 1]));
                state.lemma_board_wf();
                state.board_of().lemma_wf();
            }
            let is_root_moving = current == root_player;
            let captures_root_piece = match mv.captured() {
                Some(_) => match state.board().piece_at(mv.to_sq()) {
                    Some(target_piece) => target_piece.player == root_player,
                    None => false,
                },
                None => false,
            };
            if !is_root_moving && !captures_root_piece {
                continue;
            }
            match mv.captured() {
                Some(captured_pt) => {
                    let capture_value = piece_value(captured_pt);
                    if best_scores[current_idx] != i16::MIN && sat_add(
                        sat_add(stand_pat[current_idx], capture_value),
                        DELTA_MARGIN,
                    ) < best_scores[current_idx] {
                        continue;
                    }
                },
                None => {},
            }
            let ghost cur = state.board_of()@;
            let ghost sa = *state;
            proof {
                assert(applicable(cur, mv));
            }
            let undo = make_move(state.board_mut(), mv);
            let ghost post = state.board_of()@;
            proof {
                state.lemma_wf_same_but_board(&sa);
            }
            let child_scores = self.qsearch(state, qdepth + 1, ply + 1, root_player, ss);
            let ghost back = state.board_of()@;
            proof {
                state.lemma_board_wf();
                lemma_undo_ready(cur, mv, post, back);
            }
            let ghost sb = *state;
            unmake_move(state.board_mut(), &undo);
            proof {
                state.lemma_wf_same_but_board(&sb);
                lemma_undo_done(cur, mv, post, back, state.board_of()@);
            }
            if ss.aborted {
                return SCORE4_MIN;
            }
            if child_scores[current_idx] > best_scores[current_idx] {
                best_scores = child_scores;
            }
        }
        best_scores
    }

    /// Max^n: each player picks, among the beam of its moves, the child
    /// whose score vector is best in its own entry; shallow pruning stops a
    /// node once its player cannot gain more. Leaves go to quiescence, and
    /// two players left go to negamax.
    fn maxn(&mut self, state: &mut GameState, depth: u32, ply: usize, root_player: Player, ss: &mut SearchState) -> (r: ([i16; 4], Ghost<Option<(Seq<Move>, Seq<[i16; 4]>)>>))
        requires
            old(self).wf(),
            old(state).wf(),
            old(ss).wf(),
            ply + depth + MAX_QSEARCH_DEPTH < usize::MAX,
        ensures
            r.1@ matches Some((ms, kids)) ==> {
                let p = pidx(old(state).board_of()@.stm);
                &&& 1 <= kids.len() <= ms.len()
                &&& all_makeable(old(state).board_of()@, ms)
                &&& r.0 == best_for(kids, p)
                &&& best_index(kids, p) >= 0 && ply < MAX_DEPTH ==> final(ss).pv_table@[pv_row(ply as int)]
                    == Some(ms[best_index(kids, p)])
                &&& kids.len() < ms.len() ==> old(self).config_of().sum_bound > 0
                    && old(self).config_of().sum_bound - (r.0@[0] + r.0@[1] + r.0@[2] + r.0@[3] - r.0@[p]) <= r.0@[p]
            },
            kings_consistent(old(state).board_of()@) && !final(ss).aborted && depth >= 1
                && !eliminated_in_search(old(state).board_of(), pidx(old(state).board_of()@.stm))
                && active_in_search_below(old(state).board_of(), 4) >= 3
                && canon_legal(old(state).board_of()@).len() > 0 ==> r.1@ is Some,
            ply < MAX_DEPTH && !final(ss).aborted && depth >= 1 && kings_consistent(old(state).board_of()@)
                && !eliminated_in_search(old(state).board_of(), pidx(old(state).board_of()@.stm))
                && active_in_search_below(old(state).board_of(), 4) >= 2
                && canon_legal(old(state).board_of()@).len() > 0 && r.0@[pidx(old(state).board_of()@.stm)]
                > i16::MIN + 1 ==> final(ss).pv_length@[ply as int] >= 1 && final(ss).pv_table@[pv_row(
                ply as int,
            )] is Some,
            final(self).kept_from(old(self)),
            state_kept(*final(state), *old(state)),
            final(ss).kept_from(old(ss), ply as int),
            old(ss).unstoppable() ==> final(ss).unstoppable(),
            at_root(*old(state), *old(ss), ply as int) ==> final(ss).root_line_ok(old(state).board_of()@),
        decreases depth, skip_dist(old(state).board_of()),
    {
        let ghost root0 = at_root(*old(state), *old(ss), ply as int);
        ss.nodes = ss.nodes.wrapping_add(1);
        if ss.should_abort() {
            ss.aborted = true;
            return (SCORE4_MIN, Ghost(None));
        }
        proof {
            state.lemma_board_wf();
        }
        let current = state.board().side_to_move();
        let current_idx = current.index();
        if is_player_eliminated_in_search(state.board(), current) {
            let on_board = active_count_in_search(state.board());
            if ply >= MAX_DEPTH - 1 || on_board == 0 {
                return (self.eval_4vec_search(&*state), Ghost(None));
            }
            let ghost b0 = state.board_of();
            let ghost s0 = *state;
            state.board_mut().set_side_to_move(current.next());
            proof {
                state.lemma_wf_same_but_board(&s0);
                b0.lemma_wf();
                lemma_someone_on_board(b0);
                lemma_skip_step(b0, state.board_of());
            }
            let ghost s1 = *state;
            let (result, _) = self.maxn(state, depth, ply, root_player, ss);
            proof {
                state.lemma_board_wf();
            }
            let ghost back = state.board_of()@;
            state.board_mut().set_side_to_move(current);
            proof {
                state.lemma_wf_same_but_board(&s0);
                lemma_pass_back(b0@, s1.board_of()@, back, state.board_of()@);
            }
            return (result, Ghost(None));
        }
        let on_board = active_count_in_search(state.board());
        if on_board <= 1 {
            ss.clear_pv(ply);
            return (self.eval_4vec_search(&*state), Ghost(None));
        }
        if depth == 0 {
            return (self.qsearch(state, 0, ply, root_player, ss), Ghost(None));
        }
        if on_board == 2 {
            return (self.negamax_2p_entry(state, depth, ply, ss), Ghost(None));
        }
        let ghost s0 = *state;
        let ghost st = state.board_of()@;
        let is_root = current == root_player;
        let beam = self.beam_width_for(depth, is_root, state);
        let ghost s1 = *state;
        let moves = self.beam_select(state, current, beam, ply);
        proof {
            lemma_state_kept_trans(s0, s1, *state);
            assert forall|k: int| 0 <= k < moves@.len() implies makeable(st, #[trigger] moves@[k]) && (root0
                ==> legal_in_position(st, moves@[k])) by {
                assert(makeable(s1.board_of()@, moves@[k]));
            }
        }
        if moves.len() == 0 {
            proof {
                if kings_consistent(st) {
                    s1.lemma_board_wf();
                    lemma_legal_count(s1.board_of());
                }
            }
            ss.clear_pv(ply);
            return (self.eval_4vec_search(&*state), Ghost(None));
        }
        let mut best_scores = SCORE4_MIN;
        let mut best_move = moves[0];
        proof {
            assert(makeable(st, moves@[0]));
        }
        let ghost p = current_idx as int;
        let ghost mut kids: Seq<[i16; 4]> = Seq::empty();
        let ghost cfg = self.config;
        let mut i: usize = 0;
        while i < moves.len()
            invariant_except_break
                kids.len() == i,
            invariant
                kids.len() <= i,
                moves@.len() >= 1,
                p == pidx(st.stm),
                p == current_idx as int,
                cfg == old(self).config_of(),
                cfg == self.config_of(),
                best_scores == best_for(kids, p),
                best_index(kids, p) >= 0 ==> best_move == moves@[best_index(kids, p)],
                best_index(kids, p) >= 0 && ply < MAX_DEPTH ==> ss.pv_table@[pv_row(ply as int)] == Some(best_move),
                best_index(kids, p) >= 0 && ply < MAX_DEPTH ==> ss.pv_length@[ply as int] >= 1,
                root0 == at_root(*old(state), *old(ss), ply as int),
                root0 ==> ss.root_line_ok(st) && st == old(state).board_of()@,
                root0 ==> forall|k: int| 0 <= k < moves@.len() ==> legal_in_position(st, #[trigger] moves@[k]),
                self.kept_from(old(self)),
                state_kept(*state, *old(state)),
                restored(state.board_of()@, st),
                st == s0.board_of()@,
                s0 == *old(state),
                old(state).wf(),
                ss.kept_from(old(ss), ply as int),
                old(ss).unstoppable() ==> ss.unstoppable(),
                i <= moves@.len(),
                all_makeable(st, moves@),
                makeable(st, best_move),
                depth >= 1,
                ply + depth + MAX_QSEARCH_DEPTH < usize::MAX,
                current_idx < 4,
                current == st.stm,
            ensures
                1 <= kids.len() <= moves@.len(),
                kids.len() < moves@.len() ==> cfg.sum_bound > 0 && cfg.sum_bound - (best_scores@[0]
                    + best_scores@[1] + best_scores@[2] + best_scores@[3] - best_scores@[p]) <= best_scores@[p],
            decreases moves@.len() - i,
        {
            let mv = moves[i];
            i += 1;
            let ghost cur = state.board_of()@;
            let ghost sa = *state;
            proof {
                assert(makeable(st, moves@[i - 1]));
                state.lemma_board_wf();
                state.board_of().lemma_wf();
                assert(applicable(cur, mv));
            }
            let undo = make_move(state.board_mut(), mv);
            let ghost post = state.board_of()@;
            proof {
                state.lemma_wf_same_but_board(&sa);
            }
            let (child_scores, _) = self.maxn(state, depth - 1, ply + 1, root_player, ss);
            let ghost back = state.board_of()@;
            proof {
                state.lemma_board_wf();
                lemma_undo_ready(cur, mv, post, back);
            }
            let ghost sb = *state;
            unmake_move(state.board_mut(), &undo);
            proof {
                state.lemma_wf_same_but_board(&sb);
                lemma_undo_done(cur, mv, post, back, state.board_of()@);
            }
            if ss.aborted {
                return (SCORE4_MIN, Ghost(None));
            }
            let ghost prev = kids;
            proof {
                kids = kids.push(child_scores);
                lemma_best_index_range(prev, p);
                assert(kids.drop_last() =~= prev);
                if best_index(prev, p) >= 0 {
                    assert(kids[best_index(prev, p)] == prev[best_index(prev, p)]);
                }
            }
            let ghost before = best_scores;
            let took = child_scores[current_idx] > best_scores[current_idx];
            proof {
                assert(before == best_for(prev, p));
                assert(took == (child_scores@[p] > before@[p]));
            }
            if took {
                best_scores = child_scores;
                best_move = mv;
                ss.update_pv(ply, mv);
                if !mv.is_capture() && mv.promotion().is_none() {
                    self.note_history(mv, depth);
                }
            }
            proof {
                let b0 = best_for(prev, p);
                let k0 = best_index(prev, p);
                assert(kids.last() == child_scores);
                assert(kids[i - 1] == child_scores);
                assert(moves@[i - 1] == mv);
                assert(b0 == (if k0 < 0 { SCORE4_MIN } else { kids.drop_last()[k0] }));
                assert(best_index(kids, p) == (if child_scores@[p] > b0@[p] { kids.len() - 1 } else { k0 }));
                if child_scores@[p] > b0@[p] {
                    assert(best_scores == child_scores);
                } else {
                    assert(best_scores == b0);
                }
            }
            if self.config.sum_bound > 0 {
                let sum_others: i64 = score4_sum(&best_scores) as i64 - best_scores[current_idx] as i64;
                if self.config.sum_bound as i64 - sum_others <= best_scores[current_idx] as i64 {
                    break;
                }
            }
        }
        proof {
            lemma_best_index_range(kids, p);
        }
        if !best_move.is_capture() && best_move.promotion().is_none() {
            self.killers.store(ply, current, best_move);
        }
        (best_scores, Ghost(Some((moves@, kids))))
    }

    /// Search with iterative deepening, the depth rounded down to whole
    /// rotations of the players on the board; then, with move noise, maybe
    /// play another of the three best-ordered moves.
    fn iterative_deepening(&mut self, state: &mut GameState, limits: &SearchLimits) -> (r: SearchOutcome)
        requires
            old(self).wf(),
            old(state).wf(),
        ensures
            final(self).kept_from(old(self)),
            state_kept(*final(state), *old(state)),
            r.pv@.len() <= MAX_DEPTH,
            kings_consistent(old(state).board_of()@) && !eliminated_in_search(
                old(state).board_of(),
                pidx(old(state).board_of()@.stm),
            ) ==> (r.best_move matches Some(m) ==> legal_in_position(old(state).board_of()@, m)),
            old(self).config_of().move_noise == 0 ==> r.best_move == (if r.pv@.len() > 0 {
                Some(r.pv@[0])
            } else {
                None::<Move>
            }),
            limits.max_nodes is None && (limits.max_depth matches Some(d) ==> d >= 1) ==> r.depth >= 1,
            limits.max_nodes is None && (limits.max_depth matches Some(d) ==> d >= 1) && kings_consistent(
                old(state).board_of()@,
            ) && !eliminated_in_search(old(state).board_of(), pidx(old(state).board_of()@.stm))
                && active_in_search_below(old(state).board_of(), 4) >= 2 && legal_moves(old(state).board_of()).len()
                > 0 ==> r.best_move is Some || r.scores@[pidx(old(state).board_of()@.stm)] <= i16::MIN + 1,
    {
        let ghost st = old(state).board_of()@;
        let ghost root_ok = kings_consistent(st) && !eliminated_in_search(old(state).board_of(), pidx(st.stm));
        let ghost rp = pidx(st.stm);
        let ghost g = limits.max_nodes is None && (limits.max_depth matches Some(d) ==> d >= 1) && root_ok
            && active_in_search_below(old(state).board_of(), 4) >= 2 && canon_legal(st).len() > 0;
        proof {
            old(state).lemma_board_wf();
            lemma_legal_count(old(state).board_of());
        }
        let mut ss = SearchState::new(*limits, self.config.max_qnodes);
        let raw_max_depth: u32 = match limits.max_depth {
            Some(d) => d,
            None => MAX_DEPTH as u32,
        };
        proof {
            state.lemma_board_wf();
        }
        let root_player = state.board().side_to_move();
        let active = active_count_in_search(state.board());
        let rotation: u32 = if active >= 2 { active as u32 } else { 1 };
        let max_depth: u32 = if raw_max_depth >= rotation {
            let q = raw_max_depth / rotation;
            assert(q * rotation <= raw_max_depth) by (nonlinear_arith)
                requires
                    rotation > 0,
                    q == raw_max_depth / rotation,
            ;
            assert(q * rotation >= rotation) by (nonlinear_arith)
                requires
                    rotation > 0,
                    raw_max_depth >= rotation,
                    q == raw_max_depth / rotation,
            ;
            q * rotation
        } else {
            raw_max_depth
        };
        self.killers.clear();
        let mut best_result = SearchOutcome {
            best_move: None,
            scores: SCORE4_MIN,
            depth: 0,
            nodes: 0,
            qnodes: 0,
            pv: Vec::new(),
            killer_hits: 0,
            killer_probes: 0,
        };
        let min_depth: u32 = if limits.max_depth.is_some() { 1 } else { MIN_SEARCH_DEPTH };
        let mut last_depth_ms: u64 = 0;
        let mut depth: u32 = 1;
        let ghost c = limits.max_nodes is None && (limits.max_depth matches Some(d) ==> d >= 1);
        while depth <= max_depth
            invariant_except_break
                1 <= depth,
                depth == 1 ==> !ss.aborted,
            invariant
                self.kept_from(old(self)),
                state_kept(*state, *old(state)),
                ss.wf(),
                depth <= max_depth + 1,
                st == old(state).board_of()@,
                root_ok == (kings_consistent(st) && !eliminated_in_search(old(state).board_of(), pidx(st.stm))),
                root_ok ==> (best_result.best_move matches Some(m) ==> legal_in_position(st, m)),
                best_result.pv@.len() <= MAX_DEPTH,
                best_result.best_move == (if best_result.pv@.len() > 0 {
                    Some(best_result.pv@[0])
                } else {
                    None::<Move>
                }),
                ss.limits == *limits,
                c == (limits.max_nodes is None && (limits.max_depth matches Some(d) ==> d >= 1)),
                c ==> 1 <= max_depth,
                c ==> (best_result.depth >= 1 || depth == 1),
                min_depth >= 1,
                rp == pidx(st.stm),
                g == (limits.max_nodes is None && (limits.max_depth matches Some(d) ==> d >= 1) && root_ok
                    && active_in_search_below(old(state).board_of(), 4) >= 2 && canon_legal(st).len() > 0),
                g ==> best_result.best_move is Some || best_result.scores@[rp] <= i16::MIN + 1,
            ensures
                self.kept_from(old(self)),
                state_kept(*state, *old(state)),
                root_ok ==> (best_result.best_move matches Some(m) ==> legal_in_position(st, m)),
                best_result.pv@.len() <= MAX_DEPTH,
                best_result.best_move == (if best_result.pv@.len() > 0 {
                    Some(best_result.pv@[0])
                } else {
                    None::<Move>
                }),
                c ==> best_result.depth >= 1,
                g ==> best_result.best_move is Some || best_result.scores@[rp] <= i16::MIN + 1,
            decreases max_depth + 1 - depth,
        {
            ss.pv_length = SearchState::zero_lengths();
            if depth <= min_depth {
                ss.suspend_time_check = true;
            }
            if depth as usize > usize::MAX - 8 {
                break;
            }
            let depth_start = clock_now();
            let ghost s0 = *state;
            proof {
                if root_ok {
                    assert(s0.board_of()@ == st);
                    assert(eliminated_in_search(s0.board_of(), pidx(st.stm)) == eliminated_in_search(
                        old(state).board_of(),
                        pidx(st.stm),
                    ));
                    assert(at_root(s0, ss, 0));
                }
                if c && depth == 1 {
                    assert(ss.unstoppable());
                }
                if g {
                    reveal_with_fuel(active_in_search_below, 5);
                    assert(active_in_search_below(s0.board_of(), 4) == active_in_search_below(old(state).board_of(), 4));
                }
            }
            let (scores, _) = self.maxn(state, depth, 0, root_player, &mut ss);
            proof {
                if c && depth == 1 {
                    assert(!ss.aborted);
                }
            }
            proof {
                lemma_state_kept_trans(*old(state), s0, *state);
            }
            let depth_elapsed_ms = millis_since(&depth_start);
            ss.suspend_time_check = false;
            if ss.aborted {
                break;
            }
            last_depth_ms = depth_elapsed_ms;
            let pv = ss.extract_pv();
            let best_move = if pv.len() > 0 { Some(pv[0]) } else { None };
            proof {
                if root_ok && pv@.len() > 0 {
                    assert(ss.pv_table@[0] == Some(pv@[0]));
                }
                if g && scores@[rp] > i16::MIN + 1 {
                    assert(ss.pv_length@[0] >= 1 && ss.pv_table@[pv_row(0)] is Some);
                    assert(pv@.len() > 0);
                }
            }
            let (killer_hits, killer_probes) = self.killers.stats();
            best_result = SearchOutcome {
                best_move,
                scores,
                depth,
                nodes: ss.nodes,
                qnodes: ss.qnodes,
                pv,
                killer_hits,
                killer_probes,
            };
            if ss.should_abort() {
                break;
            }
            match ss.limits.max_time_ms {
                Some(max_time_ms) => {
                    let total_elapsed = millis_since(&ss.start_time);
                    if stop_deepening(last_depth_ms, total_elapsed, max_time_ms, depth, min_depth) {
                        break;
                    }
                },
                None => {},
            }
            if depth == max_depth {
                break;
            }
            depth += 1;
        }
        if self.config.move_noise > 0 && best_result.best_move.is_some() {
            let hash = state.board().zobrist_hash() ^ self.config.noise_seed;
            let mut rng = hash ^ (hash >> 17u64);
            rng = rng ^ (rng << 13u64);
            rng = rng ^ (rng >> 7u64);
            let roll = (rng % 100) as u32;
            if roll < self.config.move_noise {
                let ghost s0 = *state;
                proof {
                    state.lemma_board_wf();
                }
                let legal = generate_legal_moves(state.board_mut());
                proof {
                    state.lemma_wf_same_but_board(&s0);
                    lemma_state_kept_trans(*old(state), s0, *state);
                    if root_ok {
                        assert forall|k: int| 0 <= k < legal@.len() implies legal_in_position(st, #[trigger] legal@[k]) by {
                            assert(legal_moves(s0.board_of()).contains(legal@[k]));
                            lemma_contained_legal(s0.board_of(), legal@[k]);
                        }
                    }
                }
                if legal.len() >= 2 {
                    let top: usize = if legal.len() < 3 { legal.len() } else { 3 };
                    let pick_idx = (#[verifier::truncate] (rng as usize) / 100) % top;
                    let mut scored: Vec<(Move, i32)> = Vec::new();
                    let mut i: usize = 0;
                    while i < legal.len()
                        invariant
                            self.wf(),
                            i <= legal@.len(),
                            all_makeable(s0.board_of()@, legal@),
                            scored@.len() == i,
                            forall|k: int| 0 <= k < i ==> (#[trigger] scored@[k]).0 == legal@[k],
                        decreases legal@.len() - i,
                    {
                        let mv = legal[i];
                        proof {
                            assert(makeable(s0.board_of()@, legal@[i as int]));
                        }
                        let sc = score_move(mv, best_result.best_move, &self.killers, &self.history, 0, root_player);
                        scored.push((mv, sc));
                        i += 1;
                    }
                    let ghost scored0 = scored@;
                    proof {
                        assert forall|k: int| 0 <= k < scored0.len() implies legal@.contains(#[trigger] scored0[k].0) by {
                            assert(legal@[k] == scored0[k].0);
                        }
                    }
                    sort_pairs_desc(&mut scored);
                    proof {
                        lemma_pairs_from(scored0, scored@, legal@);
                    }
                    let top_n: usize = if scored.len() < 3 { scored.len() } else { 3 };
                    let chosen = scored[pick_idx % top_n].0;
                    proof {
                        if root_ok {
                            assert(legal@.contains(chosen));
                            let q = choose|q: int| 0 <= q < legal@.len() && legal@[q] == chosen;
                            assert(legal_in_position(st, legal@[q]));
                        }
                    }
                    best_result.best_move = Some(chosen);
                }
            }
        }
        best_result
    }

    /// Search the position within the limits. The game state comes back as
    /// it was: the board is the same position (and the same king squares
    /// where they agreed with the kings), and nothing else changes.
    pub fn search(&mut self, state: &mut GameState, limits: &SearchLimits) -> (r: SearchOutcome)
        requires
            old(self).wf(),
            old(state).wf(),
        ensures
            final(self).wf(),
            final(self).config_of() == old(self).config_of(),
            state_kept(*final(state), *old(state)),
            r.pv@.len() <= MAX_DEPTH,
            kings_consistent(old(state).board_of()@) && !eliminated_in_search(
                old(state).board_of(),
                pidx(old(state).board_of()@.stm),
            ) ==> (r.best_move matches Some(m) ==> legal_in_position(old(state).board_of()@, m)),
            old(self).config_of().move_noise == 0 ==> r.best_move == (if r.pv@.len() > 0 {
                Some(r.pv@[0])
            } else {
                None::<Move>
            }),
            limits.max_nodes is None && (limits.max_depth matches Some(d) ==> d >= 1) ==> r.depth >= 1,
            limits.max_nodes is None && (limits.max_depth matches Some(d) ==> d >= 1) && kings_consistent(
                old(state).board_of()@,
            ) && !eliminated_in_search(old(state).board_of(), pidx(old(state).board_of()@.stm))
                && active_in_search_below(old(state).board_of(), 4) >= 2 && legal_moves(old(state).board_of()).len()
                > 0 ==> r.best_move is Some || r.scores@[pidx(old(state).board_of()@.stm)] <= i16::MIN + 1,
    {
        self.iterative_deepening(state, limits)
    }
}

} // verus!
