//! Position evaluation: piece values and the integer parts of the
//! bootstrap evaluator.

use vstd::prelude::*;
use crate::attacks::{any_dir, any_dir_exec, attacked_by, pawn_cap, pawn_cap_exec};
use crate::board::Board;
use crate::game_state::{GameState, PlayerStatus};
use crate::movegen::{has_right, sq_at};
use crate::types::{is_valid_square, pidx, player_at, valid_index, valid_rf, Piece, PieceType, Player, Square};

verus! {

/// Sentinel score for eliminated players.
pub const ELIMINATED_SCORE: i16 = -32768i16;

/// Centipawn value of a piece type (the king has no material value).
pub open spec fn piece_value_of(pt: PieceType) -> int {
    match pt {
        PieceType::Pawn => 100,
        PieceType::Knight => 300,
        PieceType::Bishop => 450,
        PieceType::Rook => 500,
        PieceType::Queen => 900,
        PieceType::King => 0,
        PieceType::PromotedQueen => 900,
    }
}

/// Get the centipawn value of a piece type.
pub fn piece_value(pt: PieceType) -> (v: i16)
    ensures
        v == piece_value_of(pt),
{
    match pt {
        PieceType::Pawn => 100,
        PieceType::Knight => 300,
        PieceType::Bishop => 450,
        PieceType::Rook => 500,
        PieceType::Queen => 900,
        PieceType::King => 0,
        PieceType::PromotedQueen => 900,
    }
}


// ─── Evaluator types ────────────────────────────────────────────────────────

/// Evaluation interface shared by the evaluators.
pub trait Evaluator {
    /// Evaluate the position from one player's point of view, in centipawns.
    fn eval_scalar(&self, state: &GameState, player: Player) -> i16;

    /// Evaluate the position for all four players, in turn order.
    fn eval_4vec(&self, state: &GameState) -> [i16; 4];
}

/// Weights of the zone features; 0 disables a feature.
#[derive(Clone, Copy, Debug)]
pub struct ZoneWeights {
    /// Territory (Voronoi by king distance).
    pub territory: i16,
    /// Influence map.
    pub influence: i16,
    /// Tension and vulnerability.
    pub tension: i16,
    /// Swarm mechanics.
    pub swarm: i16,
}

impl Default for ZoneWeights {
    fn default() -> (z: Self)
        ensures
            z.territory == 2 && z.influence == 1 && z.tension == 1 && z.swarm == 3,
    {
        ZoneWeights { territory: 2, influence: 1, tension: 1, swarm: 3 }
    }
}

/// Bootstrap positional evaluator: material, placement, mobility, zone
/// control, king safety, development and pawn structure.
#[derive(Clone, Copy, Debug)]
pub struct BootstrapEvaluator {
    /// Zone feature weights.
    pub zone_weights: ZoneWeights,
}

impl BootstrapEvaluator {
    /// An evaluator with the default zone weights.
    pub fn new() -> (e: Self)
        ensures
            e.zone_weights.territory == 2 && e.zone_weights.influence == 1
                && e.zone_weights.tension == 1 && e.zone_weights.swarm == 3,
    {
        BootstrapEvaluator { zone_weights: ZoneWeights::default() }
    }

    /// An evaluator with the given zone weights.
    pub fn with_zone_weights(zone_weights: ZoneWeights) -> (e: Self)
        ensures
            e.zone_weights == zone_weights,
    {
        BootstrapEvaluator { zone_weights }
    }
}

impl Default for BootstrapEvaluator {
    fn default() -> (e: Self)
        ensures
            e.zone_weights.territory == 2 && e.zone_weights.influence == 1
                && e.zone_weights.tension == 1 && e.zone_weights.swarm == 3,
    {
        BootstrapEvaluator::new()
    }
}

/// Swarm analysis per player.
#[derive(Clone, Copy, Debug)]
pub struct SwarmInfo {
    /// Own pieces defended by at least one friendly piece.
    pub defended_pieces: [i16; 4],
    /// Own pieces not defended by any friendly piece.
    pub undefended_pieces: [i16; 4],
    /// Squares where two or more own pieces project influence.
    pub coordinated_squares: [i16; 4],
    /// Pawns defended by friendly pawns.
    pub pawn_chain: [i16; 4],
}

// ─── Piece-square tables (Red's point of view, index rank * 14 + file) ──────

pub const PST_PAWN: [i16; 196] = [
    0, 0, 0, 0, 0, 0, 0, 0, 0, 0, 0, 0, 0, 0,
    0, 0, 0, 0, 0, 0, 0, 0, 0, 0, 0, 0, 0, 0,
    0, 0, 0, 0, 1, 1, 1, 1, 1, 1, 0, 0, 0, 0,
    0, 0, 0, 1, 1, 2, 2, 2, 2, 1, 1, 0, 0, 0,
    0, 0, 0, 1, 2, 3, 3, 3, 3, 2, 1, 0, 0, 0,
    0, 0, 0, 2, 3, 4, 5, 5, 4, 3, 2, 0, 0, 0,
    0, 0, 0, 2, 3, 4, 5, 5, 4, 3, 2, 0, 0, 0,
    0, 0, 0, 2, 3, 4, 5, 5, 4, 3, 2, 0, 0, 0,
    0, 0, 0, 3, 4, 5, 6, 6, 5, 4, 3, 0, 0, 0,
    0, 0, 0, 4, 5, 6, 7, 7, 6, 5, 4, 0, 0, 0,
    0, 0, 0, 5, 6, 7, 8, 8, 7, 6, 5, 0, 0, 0,
    0, 0, 0, 6, 7, 8, 9, 9, 8, 7, 6, 0, 0, 0,
    0, 0, 0, 8, 9, 10, 12, 12, 10, 9, 8, 0, 0, 0,
    0, 0, 0, 0, 0, 0, 0, 0, 0, 0, 0, 0, 0, 0,
];

pub const PST_KNIGHT: [i16; 196] = [
    0, 0, 0, -3, -2, -2, -2, -2, -2, -2, -3, 0, 0, 0,
    0, 0, 0, -2, 0, 0, 0, 0, 0, 0, -2, 0, 0, 0,
    0, 0, 0, -2, 0, 1, 1, 1, 1, 0, -2, 0, 0, 0,
    -3, -2, -2, 0, 1, 3, 3, 3, 3, 1, 0, -2, -2, -3,
    -2, 0, 0, 1, 3, 4, 5, 5, 4, 3, 1, 0, 0, -2,
    -2, 0, 1, 3, 4, 6, 7, 7, 6, 4, 3, 1, 0, -2,
    -2, 0, 1, 3, 4, 7, 8, 8, 7, 4, 3, 1, 0, -2,
    -2, 0, 1, 3, 4, 7, 8, 8, 7, 4, 3, 1, 0, -2,
    -2, 0, 1, 3, 4, 6, 7, 7, 6, 4, 3, 1, 0, -2,
    -2, 0, 0, 1, 3, 4, 5, 5, 4, 3, 1, 0, 0, -2,
    -3, -2, -2, 0, 1, 3, 3, 3, 3, 1, 0, -2, -2, -3,
    0, 0, 0, -2, 0, 1, 1, 1, 1, 0, -2, 0, 0, 0,
    0, 0, 0, -2, 0, 0, 0, 0, 0, 0, -2, 0, 0, 0,
    0, 0, 0, -3, -2, -2, -2, -2, -2, -2, -3, 0, 0, 0,
];

pub const PST_BISHOP: [i16; 196] = [
    0, 0, 0, -2, -2, -2, -2, -2, -2, -2, -2, 0, 0, 0,
    0, 0, 0, -2, 1, 0, 0, 0, 0, 1, -2, 0, 0, 0,
    0, 0, 0, -2, 0, 1, 1, 1, 1, 0, -2, 0, 0, 0,
    -2, -2, -2, 0, 1, 3, 3, 3, 3, 1, 0, -2, -2, -2,
    -2, 0, 0, 1, 3, 4, 4, 4, 4, 3, 1, 0, 0, -2,
    -2, 0, 1, 3, 4, 5, 5, 5, 5, 4, 3, 1, 0, -2,
    -2, 0, 1, 3, 4, 5, 6, 6, 5, 4, 3, 1, 0, -2,
    -2, 0, 1, 3, 4, 5, 6, 6, 5, 4, 3, 1, 0, -2,
    -2, 0, 1, 3, 4, 5, 5, 5, 5, 4, 3, 1, 0, -2,
    -2, 0, 0, 1, 3, 4, 4, 4, 4, 3, 1, 0, 0, -2,
    -2, -2, -2, 0, 1, 3, 3, 3, 3, 1, 0, -2, -2, -2,
    0, 0, 0, -2, 0, 1, 1, 1, 1, 0, -2, 0, 0, 0,
    0, 0, 0, -2, 1, 0, 0, 0, 0, 1, -2, 0, 0, 0,
    0, 0, 0, -2, -2, -2, -2, -2, -2, -2, -2, 0, 0, 0,
];

pub const PST_ROOK: [i16; 196] = [
    0, 0, 0, 0, 0, 0, 1, 1, 0, 0, 0, 0, 0, 0,
    0, 0, 0, 0, 0, 0, 1, 1, 0, 0, 0, 0, 0, 0,
    0, 0, 0, 0, 0, 0, 1, 1, 0, 0, 0, 0, 0, 0,
    0, 0, 0, 0, 0, 0, 1, 1, 0, 0, 0, 0, 0, 0,
    0, 0, 0, 0, 0, 0, 1, 1, 0, 0, 0, 0, 0, 0,
    0, 0, 0, 0, 0, 0, 1, 1, 0, 0, 0, 0, 0, 0,
    2, 2, 2, 2, 2, 2, 3, 3, 2, 2, 2, 2, 2, 2,
    2, 2, 2, 2, 2, 2, 3, 3, 2, 2, 2, 2, 2, 2,
    0, 0, 0, 0, 0, 0, 1, 1, 0, 0, 0, 0, 0, 0,
    0, 0, 0, 0, 0, 0, 1, 1, 0, 0, 0, 0, 0, 0,
    0, 0, 0, 0, 0, 0, 1, 1, 0, 0, 0, 0, 0, 0,
    0, 0, 0, 0, 0, 0, 1, 1, 0, 0, 0, 0, 0, 0,
    0, 0, 0, 0, 0, 0, 1, 1, 0, 0, 0, 0, 0, 0,
    0, 0, 0, 0, 0, 0, 1, 1, 0, 0, 0, 0, 0, 0,
];

pub const PST_QUEEN: [i16; 196] = [
    0, 0, 0, -2, -2, -2, -2, -2, -2, -2, -2, 0, 0, 0,
    0, 0, 0, -2, 0, 0, 0, 0, 0, 0, -2, 0, 0, 0,
    0, 0, 0, -2, 0, 1, 1, 1, 1, 0, -2, 0, 0, 0,
    -2, -2, -2, 0, 1, 2, 2, 2, 2, 1, 0, -2, -2, -2,
    -2, 0, 0, 1, 2, 3, 3, 3, 3, 2, 1, 0, 0, -2,
    -2, 0, 1, 2, 3, 4, 4, 4, 4, 3, 2, 1, 0, -2,
    -2, 0, 1, 2, 3, 4, 5, 5, 4, 3, 2, 1, 0, -2,
    -2, 0, 1, 2, 3, 4, 5, 5, 4, 3, 2, 1, 0, -2,
    -2, 0, 1, 2, 3, 4, 4, 4, 4, 3, 2, 1, 0, -2,
    -2, 0, 0, 1, 2, 3, 3, 3, 3, 2, 1, 0, 0, -2,
    -2, -2, -2, 0, 1, 2, 2, 2, 2, 1, 0, -2, -2, -2,
    0, 0, 0, -2, 0, 1, 1, 1, 1, 0, -2, 0, 0, 0,
    0, 0, 0, -2, 0, 0, 0, 0, 0, 0, -2, 0, 0, 0,
    0, 0, 0, -2, -2, -2, -2, -2, -2, -2, -2, 0, 0, 0,
];

pub const PST_KING: [i16; 196] = [
    0, 0, 0, 3, 3, 2, 0, 0, 2, 3, 3, 0, 0, 0,
    0, 0, 0, 2, 2, 0, -2, -2, 0, 2, 2, 0, 0, 0,
    0, 0, 0, -3, -3, -5, -5, -5, -5, -3, -3, 0, 0, 0,
    -3, -3, -3, -5, -5, -7, -7, -7, -7, -5, -5, -3, -3, -3,
    -5, -5, -5, -7, -7, -8, -8, -8, -8, -7, -7, -5, -5, -5,
    -5, -5, -5, -7, -7, -8, -8, -8, -8, -7, -7, -5, -5, -5,
    -5, -5, -5, -7, -7, -8, -8, -8, -8, -7, -7, -5, -5, -5,
    -5, -5, -5, -7, -7, -8, -8, -8, -8, -7, -7, -5, -5, -5,
    -5, -5, -5, -7, -7, -8, -8, -8, -8, -7, -7, -5, -5, -5,
    -5, -5, -5, -7, -7, -8, -8, -8, -8, -7, -7, -5, -5, -5,
    -3, -3, -3, -5, -5, -7, -7, -7, -7, -5, -5, -3, -3, -3,
    0, 0, 0, -3, -3, -5, -5, -5, -5, -3, -3, 0, 0, 0,
    0, 0, 0, 2, 2, 0, -2, -2, 0, 2, 2, 0, 0, 0,
    0, 0, 0, 3, 3, 2, 0, 0, 2, 3, 3, 0, 0, 0,
];

/// Map a square from Red's point of view to the given player's, following
/// the board's rotation: Blue sees it turned a quarter, Yellow half, Green
/// three quarters.
pub open spec fn rotated(rank: int, file: int, p: int) -> (int, int) {
    if p == 0 {
        (rank, file)
    } else if p == 1 {
        (file, 13 - rank)
    } else if p == 2 {
        (13 - rank, 13 - file)
    } else {
        (13 - file, rank)
    }
}

/// Table value of a piece type at a rotated index.
pub open spec fn pst_entry(pt: PieceType, i: int) -> int {
    match pt {
        PieceType::Pawn => PST_PAWN[i] as int,
        PieceType::Knight => PST_KNIGHT[i] as int,
        PieceType::Bishop => PST_BISHOP[i] as int,
        PieceType::Rook => PST_ROOK[i] as int,
        PieceType::Queen | PieceType::PromotedQueen => PST_QUEEN[i] as int,
        PieceType::King => PST_KING[i] as int,
    }
}

/// Placement bonus of a piece of player index `p` on square index `s`.
pub open spec fn pst_of(pt: PieceType, s: int, p: int) -> int {
    let rf = rotated(s / 14, s % 14, p);
    pst_entry(pt, rf.0 * 14 + rf.1)
}

pub fn rotate_for_player(rank: u8, file: u8, player: Player) -> (r: (u8, u8))
    requires
        rank < 14,
        file < 14,
    ensures
        (r.0 as int, r.1 as int) == rotated(rank as int, file as int, pidx(player)),
{
    match player {
        Player::Red => (rank, file),
        Player::Blue => (file, 13 - rank),
        Player::Yellow => (13 - rank, 13 - file),
        Player::Green => (13 - file, rank),
    }
}

pub fn pst_value(piece_type: PieceType, sq: Square, player: Player) -> (v: i16)
    requires
        sq.0 < 196,
    ensures
        v as int == pst_of(piece_type, sq.0 as int, pidx(player)),
{
    let (r, f) = rotate_for_player(sq.0 / 14, sq.0 % 14, player);
    let i = (r as usize) * 14 + f as usize;
    match piece_type {
        PieceType::Pawn => PST_PAWN[i],
        PieceType::Knight => PST_KNIGHT[i],
        PieceType::Bishop => PST_BISHOP[i],
        PieceType::Rook => PST_ROOK[i],
        PieceType::Queen | PieceType::PromotedQueen => PST_QUEEN[i],
        PieceType::King => PST_KING[i],
    }
}


// ─── Per-piece metrics and their sums ───────────────────────────────────────

/// A quantity measured on each piece of a player.
#[derive(Clone, Copy)]
pub enum PieceMetric {
    /// Material value.
    Material,
    /// Piece-square table bonus.
    Placement,
    /// Approximate mobility by piece type.
    Mobility,
    /// Development bonus for pieces off the home ranks.
    Development,
    /// 1 for a knight or bishop still on the home ranks.
    HomeMinor,
    /// 1 for a queen still on the home ranks.
    HomeQueen,
    /// 1 for a pawn on the given relative file.
    PawnOnFile(u8),
}

/// Approximate number of moves of a piece type.
pub open spec fn mobility_of(pt: PieceType) -> int {
    match pt {
        PieceType::Pawn => 2,
        PieceType::Knight => 4,
        PieceType::Bishop => 5,
        PieceType::Rook => 7,
        PieceType::Queen | PieceType::PromotedQueen => 10,
        PieceType::King => 4,
    }
}

/// A piece on square index `s` has left player `p`'s two home ranks.
pub open spec fn off_home(s: int, p: int) -> bool {
    if p == 0 {
        s / 14 >= 2
    } else if p == 1 {
        s % 14 >= 2
    } else if p == 2 {
        s / 14 <= 11
    } else {
        s % 14 <= 11
    }
}

/// The file of square index `s` as player `p` sees it.
pub open spec fn rel_file(s: int, p: int) -> int {
    if p == 0 || p == 2 {
        s % 14
    } else {
        s / 14
    }
}

/// The metric's value on one piece of player index `p` at square index `s`.
pub open spec fn metric_of(m: PieceMetric, pt: PieceType, s: int, p: int) -> int {
    match m {
        PieceMetric::Material => piece_value_of(pt),
        PieceMetric::Placement => pst_of(pt, s, p),
        PieceMetric::Mobility => mobility_of(pt),
        PieceMetric::Development => match pt {
            PieceType::Knight | PieceType::Bishop => if off_home(s, p) { 3 } else { 0 },
            PieceType::Queen | PieceType::PromotedQueen => if off_home(s, p) { 2 } else { 0 },
            PieceType::Rook => if off_home(s, p) { 1 } else { 0 },
            _ => 0,
        },
        PieceMetric::HomeMinor => if (pt == PieceType::Knight || pt == PieceType::Bishop) && !off_home(s, p) {
            1
        } else {
            0
        },
        PieceMetric::HomeQueen => if (pt == PieceType::Queen || pt == PieceType::PromotedQueen) && !off_home(s, p) {
            1
        } else {
            0
        },
        PieceMetric::PawnOnFile(f) => if pt == PieceType::Pawn && rel_file(s, p) == f { 1 } else { 0 },
    }
}

/// Sum of a metric over a piece list of player index `p`.
pub open spec fn sum_metric(l: Seq<(PieceType, Square)>, m: PieceMetric, p: int) -> int
    decreases l.len(),
{
    if l.len() == 0 {
        0
    } else {
        sum_metric(l.drop_last(), m, p) + metric_of(m, l.last().0, l.last().1.0 as int, p)
    }
}

proof fn lemma_sum_metric_step(l: Seq<(PieceType, Square)>, m: PieceMetric, p: int, j: int)
    requires
        0 <= j < l.len(),
    ensures
        sum_metric(l.take(j + 1), m, p) == sum_metric(l.take(j), m, p) + metric_of(
            m,
            l[j].0,
            l[j].1.0 as int,
            p,
        ),
{
    assert(l.take(j + 1).drop_last() =~= l.take(j));
}

proof fn lemma_metric_bound(m: PieceMetric, pt: PieceType, s: int, p: int)
    ensures
        -32768 <= metric_of(m, pt, s, p) <= 32767,
{
}

fn metric_exec(m: PieceMetric, pt: PieceType, sq: Square, player: Player) -> (v: i32)
    requires
        sq.0 < 196,
    ensures
        v as int == metric_of(m, pt, sq.0 as int, pidx(player)),
{
    let s = sq.0;
    let off = match player {
        Player::Red => s / 14 >= 2,
        Player::Blue => s % 14 >= 2,
        Player::Yellow => s / 14 <= 11,
        Player::Green => s % 14 <= 11,
    };
    match m {
        PieceMetric::Material => piece_value(pt) as i32,
        PieceMetric::Placement => pst_value(pt, sq, player) as i32,
        PieceMetric::Mobility => match pt {
            PieceType::Pawn => 2,
            PieceType::Knight => 4,
            PieceType::Bishop => 5,
            PieceType::Rook => 7,
            PieceType::Queen | PieceType::PromotedQueen => 10,
            PieceType::King => 4,
        },
        PieceMetric::Development => match pt {
            PieceType::Knight | PieceType::Bishop => if off { 3 } else { 0 },
            PieceType::Queen | PieceType::PromotedQueen => if off { 2 } else { 0 },
            PieceType::Rook => if off { 1 } else { 0 },
            _ => 0,
        },
        PieceMetric::HomeMinor => if (pt == PieceType::Knight || pt == PieceType::Bishop) && !off {
            1
        } else {
            0
        },
        PieceMetric::HomeQueen => if (pt == PieceType::Queen || pt == PieceType::PromotedQueen) && !off {
            1
        } else {
            0
        },
        PieceMetric::PawnOnFile(f) => {
            let rf = match player {
                Player::Red | Player::Yellow => s % 14,
                Player::Blue | Player::Green => s / 14,
            };
            if pt == PieceType::Pawn && rf == f { 1 } else { 0 }
        },
    }
}

/// The pieces of player index `p` on the state's board.
pub open spec fn pieces_of(g: GameState, p: int) -> Seq<(PieceType, Square)> {
    g.board_of().pieces_view(p)
}

/// Sum a metric over a player's pieces.
fn sum_pieces(board: &Board, m: PieceMetric, player: Player) -> (v: i32)
    requires
        board.wf(),
    ensures
        v as int == sum_metric(board.pieces_view(pidx(player)), m, pidx(player)),
        -32768 * 196 <= v <= 32767 * 196,
{
    let l = board.pieces(player);
    let ghost p = pidx(player);
    proof {
        board.lemma_pieces_bounded(p);
    }
    let mut acc: i32 = 0;
    let mut j: usize = 0;
    while j < l.len()
        invariant
            l@ == board.pieces_view(p),
            l@.len() <= 196,
            forall|i: int| 0 <= i < l@.len() ==> (#[trigger] l@[i]).1.0 < 196,
            j <= l@.len(),
            acc as int == sum_metric(l@.take(j as int), m, p),
            -32768 * j <= acc <= 32767 * j,
            p == pidx(player),
        decreases l.len() - j,
    {
        let (pt, sq) = l[j];
        let v = metric_exec(m, pt, sq, player);
        proof {
            lemma_sum_metric_step(l@, m, p, j as int);
            lemma_metric_bound(m, pt, sq.0 as int, p);
        }
        acc = acc + v;
        j = j + 1;
    }
    assert(l@.take(l@.len() as int) =~= l@);
    acc
}


// ─── Bootstrap evaluation components ────────────────────────────────────────

/// Player index `q` is an opponent of `p` that has not been eliminated.
pub open spec fn live_opp(g: GameState, p: int, q: int) -> bool {
    q != p && g.statuses()[q] != PlayerStatus::Eliminated
}

/// Total material of the live opponents of `p` among player indices below `n`.
pub open spec fn opp_material(g: GameState, p: int, n: int) -> int
    decreases n,
{
    if n <= 0 {
        0
    } else {
        opp_material(g, p, n - 1) + if live_opp(g, p, n - 1) {
            sum_metric(pieces_of(g, n - 1), PieceMetric::Material, n - 1)
        } else {
            0
        }
    }
}

/// Number of live opponents of `p` among player indices below `n`.
pub open spec fn live_opp_count(g: GameState, p: int, n: int) -> int
    decreases n,
{
    if n <= 0 {
        0
    } else {
        live_opp_count(g, p, n - 1) + if live_opp(g, p, n - 1) { 1int } else { 0int }
    }
}

/// Material balance: own material minus the live opponents' average
/// (rounded toward zero), or own material when no opponent is live.
pub open spec fn material_balance(g: GameState, p: int) -> int {
    let mine = sum_metric(pieces_of(g, p), PieceMetric::Material, p);
    let c = live_opp_count(g, p, 4);
    if c > 0 {
        mine - opp_material(g, p, 4) / c
    } else {
        mine
    }
}

proof fn lemma_material_range(l: Seq<(PieceType, Square)>, p: int)
    ensures
        0 <= sum_metric(l, PieceMetric::Material, p) <= 900 * l.len(),
    decreases l.len(),
{
    if l.len() > 0 {
        lemma_material_range(l.drop_last(), p);
    }
}

proof fn lemma_player_index(i: int)
    requires
        0 <= i < 4,
    ensures
        pidx(player_at(i)) == i,
{
    if i == 0 {
    } else if i == 1 {
    } else if i == 2 {
    } else {
    }
}

/// A pawn of player `p` stands one of its capture steps behind square `s`,
/// so that it guards `s`.
pub open spec fn pawn_guards(sqs: Seq<Option<Piece>>, p: int, s: int) -> bool {
    exists|k: int| 0 <= k < 2 && #[trigger] guard_at(sqs, p, s, k)
}

/// The square one capture step `k` of player `p` behind `s` holds a pawn
/// of `p`.
pub open spec fn guard_at(sqs: Seq<Option<Piece>>, p: int, s: int, k: int) -> bool {
    match sq_at(s / 14 - pawn_cap(p, k).0, s % 14 - pawn_cap(p, k).1) {
        Some(t) => sqs[t] == Some(Piece { piece_type: PieceType::Pawn, player: player_at(p) }),
        None => false,
    }
}

/// How many of the first `n` pieces of list `l` are pawns guarded by a pawn
/// of player index `p`.
pub open spec fn pawn_chain_upto(l: Seq<(PieceType, Square)>, sqs: Seq<Option<Piece>>, p: int, n: int) -> int
    decreases n,
{
    if n <= 0 {
        0
    } else {
        pawn_chain_upto(l, sqs, p, n - 1) + if l[n - 1].0 == PieceType::Pawn && pawn_guards(
            sqs,
            p,
            l[n - 1].1.0 as int,
        ) {
            1int
        } else {
            0int
        }
    }
}

/// The pawn chain of `player`: its pawns that another of its pawns guards.
pub fn pawn_chain_count(board: &Board, player: Player) -> (n: usize)
    requires
        board.wf(),
    ensures
        n == pawn_chain_upto(board.pieces_view(pidx(player)), board@.squares, pidx(player), board.pieces_view(pidx(player)).len() as int),
{
    proof {
        board.lemma_pieces_bounded(pidx(player));
    }
    let pieces = board.pieces(player);
    let ghost l = pieces@;
    let mut n: usize = 0;
    let mut i: usize = 0;
    while i < pieces.len()
        invariant
            board.wf(),
            l == pieces@,
            l == board.pieces_view(pidx(player)),
            l.len() <= 196,
            forall|j: int| 0 <= j < l.len() ==> (#[trigger] l[j]).1.0 < 196,
            i <= l.len(),
            n <= i,
            n == pawn_chain_upto(l, board@.squares, pidx(player), i as int),
        decreases l.len() - i,
    {
        let (pt, sq) = pieces[i];
        proof {
            assert(l[i as int] == (pt, sq));
        }
        if pt == PieceType::Pawn && defended_by_pawn(board, player, sq) {
            n += 1;
        }
        i += 1;
    }
    n
}

/// Whether a pawn of `player` guards square `sq`.
pub fn defended_by_pawn(board: &Board, player: Player, sq: Square) -> (r: bool)
    requires
        board.wf(),
        sq.0 < 196,
    ensures
        r == pawn_guards(board@.squares, pidx(player), sq.0 as int),
{
    proof {
        board.lemma_wf();
    }
    let pi = player.index();
    let mut k: usize = 0;
    while k < 2
        invariant
            k <= 2,
            pi == pidx(player),
            pi < 4,
            board.wf(),
            sq.0 < 196,
            forall|j: int| 0 <= j < k ==> !#[trigger] guard_at(board@.squares, pi as int, sq.0 as int, j),
        decreases 2 - k,
    {
        let (dr, df) = pawn_cap_exec(pi, k);
        let pr = (sq.0 / 14) as i8 - dr;
        let pf = (sq.0 % 14) as i8 - df;
        if pr >= 0 && pr < 14 && pf >= 0 && pf < 14 && is_valid_square(pr as u8, pf as u8) {
            let t = pr as usize * 14 + pf as usize;
            assert(t as int / 14 == pr as int && t as int % 14 == pf as int);
            assert(sq_at(sq.0 / 14 - pawn_cap(pi as int, k as int).0, sq.0 % 14 - pawn_cap(pi as int, k as int).1) == Some(t as int));
            match board.piece_at(Square(t as u8)) {
                Some(p) => {
                    if p.player == player && p.piece_type == PieceType::Pawn {
                        proof {
                            lemma_player_index(pi as int);
                            assert(guard_at(board@.squares, pi as int, sq.0 as int, k as int));
                        }
                        return true;
                    }
                    proof {
                        lemma_player_index(pi as int);
                    }
                },
                None => {},
            }
        }
        k += 1;
    }
    false
}

/// Whether a player still projects zone control: only active players do.
pub fn is_active_for_zones(state: &GameState, player: Player) -> (r: bool)
    ensures
        r == (state.statuses()[pidx(player)] == PlayerStatus::Active),
{
    state.player_status(player) == PlayerStatus::Active
}

impl BootstrapEvaluator {
    pub fn material_score(state: &GameState, player: Player) -> (v: i32)
        requires
            state.wf(),
        ensures
            v as int == material_balance(*state, pidx(player)),
            -705600 <= v <= 176400,
    {
        let board = state.board();
        proof {
            state.lemma_board_wf();
        }
        let ghost g = *state;
        let ghost p = pidx(player);
        let mine = sum_pieces(board, PieceMetric::Material, player);
        proof {
            board.lemma_pieces_bounded(p);
            lemma_material_range(board.pieces_view(p), p);
        }
        let players = Player::all();
        let mut total: u32 = 0;
        let mut count: u32 = 0;
        let mut q: usize = 0;
        while q < 4
            invariant
                q <= 4,
                g == *state,
                board.wf(),
                *board == g.board_of(),
                p == pidx(player),
                forall|i: int| 0 <= i < 4 ==> players@[i] == player_at(i),
                total as int == opp_material(g, p, q as int),
                count as int == live_opp_count(g, p, q as int),
                total <= 176400 * q,
                count <= q,
            decreases 4 - q,
        {
            let opp = players[q];
            assert(opp == players@[q as int]);
            proof {
                lemma_player_index(q as int);
            }
            if q != player.index() && state.player_status(opp) != PlayerStatus::Eliminated {
                let m = sum_pieces(board, PieceMetric::Material, opp);
                proof {
                    board.lemma_pieces_bounded(q as int);
                    lemma_material_range(board.pieces_view(q as int), q as int);
                }
                total = total + m as u32;
                count = count + 1;
            }
            q = q + 1;
        }
        if count > 0 {
            mine - (total / count) as i32
        } else {
            mine
        }
    }
}


// ─── King surroundings ──────────────────────────────────────────────────────

/// What is checked on a square next to the king.
#[derive(Clone, Copy)]
pub enum DirTest {
    /// An own pawn stands there.
    Shelter,
    /// A live opponent attacks it.
    Attacked,
    /// The king could step there safely: not held by an enemy piece and not
    /// attacked by a live opponent.
    Escape,
}

/// Some live opponent of `p` among indices below `n` attacks square index `s`.
pub open spec fn opp_attacks_below(g: GameState, p: int, s: int, n: int) -> bool
    decreases n,
{
    n > 0 && (opp_attacks_below(g, p, s, n - 1) || (live_opp(g, p, n - 1) && attacked_by(
        g.board_of()@.squares,
        s,
        n - 1,
    )))
}

/// Some live opponent of `p` attacks square index `s`.
pub open spec fn opp_attacks(g: GameState, p: int, s: int) -> bool {
    opp_attacks_below(g, p, s, 4)
}

/// The square next to square index `k` in direction `d`, as (rank, file).
pub open spec fn nb_rf(k: int, d: int) -> (int, int) {
    (k / 14 + any_dir(d).0, k % 14 + any_dir(d).1)
}

/// The test `t` holds on the neighbour of `k` in direction `d`, for player `p`.
pub open spec fn dir_test(g: GameState, p: int, k: int, d: int, t: DirTest) -> bool {
    let rf = nb_rf(k, d);
    let s = rf.0 * 14 + rf.1;
    let sqs = g.board_of()@.squares;
    valid_rf(rf.0, rf.1) && match t {
        DirTest::Shelter => sqs[s] == Some(Piece { piece_type: PieceType::Pawn, player: player_at(p) }),
        DirTest::Attacked => opp_attacks(g, p, s),
        DirTest::Escape => !(sqs[s] is Some && pidx(sqs[s]->0.player) != p) && !opp_attacks(g, p, s),
    }
}

/// Number of directions below `n` in which the test holds.
pub open spec fn dir_count(g: GameState, p: int, k: int, t: DirTest, n: int) -> int
    decreases n,
{
    if n <= 0 {
        0
    } else {
        dir_count(g, p, k, t, n - 1) + if dir_test(g, p, k, n - 1, t) { 1int } else { 0int }
    }
}

fn opp_attacks_exec(state: &GameState, player: Player, sq: Square) -> (r: bool)
    requires
        state.wf(),
        sq.0 < 196,
    ensures
        r == opp_attacks(*state, pidx(player), sq.0 as int),
{
    proof {
        state.lemma_board_wf();
    }
    let board = state.board();
    let players = Player::all();
    let mut found = false;
    let mut q: usize = 0;
    while q < 4
        invariant
            q <= 4,
            board.wf(),
            *board == state.board_of(),
            sq.0 < 196,
            forall|i: int| 0 <= i < 4 ==> players@[i] == player_at(i),
            found == opp_attacks_below(*state, pidx(player), sq.0 as int, q as int),
        decreases 4 - q,
    {
        let opp = players[q];
        assert(opp == players@[q as int]);
        proof {
            lemma_player_index(q as int);
        }
        if !found && q != player.index() && state.player_status(opp) != PlayerStatus::Eliminated
            && board.is_square_attacked_by(sq, opp) {
            found = true;
        }
        q = q + 1;
    }
    found
}

fn dir_test_exec(state: &GameState, player: Player, k: u8, d: usize, t: DirTest) -> (r: bool)
    requires
        state.wf(),
        k < 196,
        d < 8,
    ensures
        r == dir_test(*state, pidx(player), k as int, d as int, t),
{
    proof {
        state.lemma_board_wf();
    }
    let board = state.board();
    let (dr, df) = any_dir_exec(d);
    let nr = (k / 14) as i8 + dr;
    let nf = (k % 14) as i8 + df;
    if nr < 0 || nr >= 14 || nf < 0 || nf >= 14 {
        return false;
    }
    if !is_valid_square(nr as u8, nf as u8) {
        return false;
    }
    let sq = Square((nr as u8) * 14 + nf as u8);
    let here = board.piece_at(sq);
    match t {
        DirTest::Shelter => here == Some(Piece::new(PieceType::Pawn, player)),
        DirTest::Attacked => opp_attacks_exec(state, player, sq),
        DirTest::Escape => {
            let enemy = match here {
                Some(pc) => pc.player != player,
                None => false,
            };
            !enemy && !opp_attacks_exec(state, player, sq)
        },
    }
}

fn count_dirs(state: &GameState, player: Player, k: u8, t: DirTest) -> (c: i32)
    requires
        state.wf(),
        k < 196,
    ensures
        c as int == dir_count(*state, pidx(player), k as int, t, 8),
        0 <= c <= 8,
{
    let mut c: i32 = 0;
    let mut d: usize = 0;
    while d < 8
        invariant
            state.wf(),
            k < 196,
            d <= 8,
            c as int == dir_count(*state, pidx(player), k as int, t, d as int),
            0 <= c <= d,
        decreases 8 - d,
    {
        if dir_test_exec(state, player, k, d, t) {
            c = c + 1;
        }
        d = d + 1;
    }
    c
}

/// King safety: shelter pawns rewarded, attacked neighbours and a bare king
/// penalised; 0 for an eliminated king.
pub open spec fn king_safety_of(g: GameState, p: int) -> int {
    let k = g.board_of()@.kings[p] as int;
    if k == 255 {
        0
    } else {
        let shelter = dir_count(g, p, k, DirTest::Shelter, 8);
        let attackers = dir_count(g, p, k, DirTest::Attacked, 8);
        let exposure = if shelter <= 1 { 45int } else if shelter <= 2 { 20int } else { 0int };
        let weight = if shelter <= 1 { 70int } else { 35int };
        shelter * 35 - attackers * weight - exposure
    }
}

/// Safe escape squares next to the king; 0 for an eliminated king.
pub open spec fn escape_routes_of(g: GameState, p: int) -> int {
    let k = g.board_of()@.kings[p] as int;
    if k == 255 {
        0
    } else {
        dir_count(g, p, k, DirTest::Escape, 8)
    }
}

pub fn king_escape_routes(state: &GameState, player: Player) -> (r: i32)
    requires
        state.wf(),
    ensures
        r as int == escape_routes_of(*state, pidx(player)),
        0 <= r <= 8,
{
    proof {
        state.lemma_board_wf();
        state.board_of().lemma_wf();
    }
    let k = state.board().king_square(player);
    if k == 255 {
        return 0;
    }
    count_dirs(state, player, k, DirTest::Escape)
}

impl BootstrapEvaluator {
    pub fn king_safety_score(state: &GameState, player: Player) -> (r: i32)
        requires
            state.wf(),
        ensures
            r as int == king_safety_of(*state, pidx(player)),
            -605 <= r <= 280,
    {
        proof {
            state.lemma_board_wf();
            state.board_of().lemma_wf();
        }
        let k = state.board().king_square(player);
        if k == 255 {
            return 0;
        }
        let shelter = count_dirs(state, player, k, DirTest::Shelter);
        let attackers = count_dirs(state, player, k, DirTest::Attacked);
        let exposure: i32 = if shelter <= 1 { 45 } else if shelter <= 2 { 20 } else { 0 };
        let weight: i32 = if shelter <= 1 { 70 } else { 35 };
        assert(0 <= attackers * weight <= 560) by (nonlinear_arith)
            requires
                0 <= attackers <= 8,
                0 <= weight <= 70,
        ;
        shelter * 35 - attackers * weight - exposure
    }
}


// ─── Castling, development, pawn structure ──────────────────────────────────

/// King destination of castling side `side` (0 king side, 1 queen side).
pub open spec fn castle_dest(p: int, side: int) -> int {
    if p == 0 {
        if side == 0 { 9 } else { 5 }
    } else if p == 1 {
        if side == 0 { 56 } else { 112 }
    } else if p == 2 {
        if side == 0 { 186 } else { 190 }
    } else {
        if side == 0 { 139 } else { 83 }
    }
}

/// Bonus for a king that stands on a castling destination whose right is
/// gone: taken as having castled.
pub open spec fn castled_of(g: GameState, p: int) -> int {
    let k = g.board_of()@.kings[p] as int;
    let c = g.board_of()@.castling;
    if k == 255 {
        0
    } else if (k == castle_dest(p, 0) && !has_right(c, 2 * p)) || (k == castle_dest(p, 1)
        && !has_right(c, 2 * p + 1)) {
        80
    } else {
        0
    }
}

/// Development: bonuses for developed pieces, a quadratic penalty for
/// minors still at home, a further penalty for a home queen while three or
/// more minors are at home, capped at 8.
pub open spec fn development_of(g: GameState, p: int) -> int {
    let l = pieces_of(g, p);
    let dev = sum_metric(l, PieceMetric::Development, p);
    let m = sum_metric(l, PieceMetric::HomeMinor, p);
    let q = sum_metric(l, PieceMetric::HomeQueen, p);
    let raw = dev - m * m - if q > 0 && m >= 3 { 2int } else { 0int };
    if raw < 8 { raw } else { 8 }
}

/// Pawns beyond the first on each relative file, over files below `n`.
pub open spec fn doubled_below(l: Seq<(PieceType, Square)>, p: int, n: int) -> int
    decreases n,
{
    if n <= 0 {
        0
    } else {
        let c = sum_metric(l, PieceMetric::PawnOnFile((n - 1) as u8), p);
        doubled_below(l, p, n - 1) + if c > 1 { c - 1 } else { 0 }
    }
}

/// Pawn structure: 8 centipawns per doubled pawn (advancement carries no
/// weight).
pub open spec fn pawn_structure_of(g: GameState, p: int) -> int {
    -8 * doubled_below(pieces_of(g, p), p, 14)
}

proof fn lemma_unit_metric_range(l: Seq<(PieceType, Square)>, m: PieceMetric, p: int)
    requires
        m is HomeMinor || m is HomeQueen || m is PawnOnFile,
    ensures
        0 <= sum_metric(l, m, p) <= l.len(),
    decreases l.len(),
{
    if l.len() > 0 {
        lemma_unit_metric_range(l.drop_last(), m, p);
    }
}

proof fn lemma_development_range(l: Seq<(PieceType, Square)>, p: int)
    ensures
        0 <= sum_metric(l, PieceMetric::Development, p) <= 3 * l.len(),
    decreases l.len(),
{
    if l.len() > 0 {
        lemma_development_range(l.drop_last(), p);
    }
}

impl BootstrapEvaluator {
    pub fn castled_bonus(state: &GameState, player: Player) -> (r: i32)
        requires
            state.wf(),
        ensures
            r as int == castled_of(*state, pidx(player)),
    {
        proof {
            state.lemma_board_wf();
        }
        let board = state.board();
        let k = board.king_square(player);
        if k == 255 {
            return 0;
        }
        let rights = board.castling_rights();
        let pi = player.index();
        let dests: [u8; 2] = match player {
            Player::Red => [9, 5],
            Player::Blue => [56, 112],
            Player::Yellow => [186, 190],
            Player::Green => [139, 83],
        };
        let ks_bit: u8 = (2 * pi) as u8;
        let qs_bit: u8 = (2 * pi + 1) as u8;
        if k == dests[0] && (rights & (1u8 << ks_bit)) == 0 {
            return 80;
        }
        if k == dests[1] && (rights & (1u8 << qs_bit)) == 0 {
            return 80;
        }
        0
    }

    pub fn development_score(state: &GameState, player: Player) -> (r: i32)
        requires
            state.wf(),
        ensures
            r as int == development_of(*state, pidx(player)),
            -38418 <= r <= 8,
    {
        proof {
            state.lemma_board_wf();
        }
        let board = state.board();
        let ghost p = pidx(player);
        let dev = sum_pieces(board, PieceMetric::Development, player);
        let m = sum_pieces(board, PieceMetric::HomeMinor, player);
        let q = sum_pieces(board, PieceMetric::HomeQueen, player);
        proof {
            board.lemma_pieces_bounded(p);
            lemma_development_range(board.pieces_view(p), p);
            lemma_unit_metric_range(board.pieces_view(p), PieceMetric::HomeMinor, p);
            lemma_unit_metric_range(board.pieces_view(p), PieceMetric::HomeQueen, p);
        }
        assert(0 <= m * m <= 38416) by (nonlinear_arith)
            requires
                0 <= m <= 196,
        ;
        let mut score = dev - m * m;
        if q > 0 && m >= 3 {
            score = score - 2;
        }
        if score < 8 {
            score
        } else {
            8
        }
    }

    pub fn pawn_structure_score(state: &GameState, player: Player) -> (r: i32)
        requires
            state.wf(),
        ensures
            r as int == pawn_structure_of(*state, pidx(player)),
            -8 * 14 * 196 <= r <= 0,
    {
        proof {
            state.lemma_board_wf();
        }
        let board = state.board();
        let ghost p = pidx(player);
        let ghost l = board.pieces_view(p);
        proof {
            board.lemma_pieces_bounded(p);
        }
        let mut doubled: i32 = 0;
        let mut f: u8 = 0;
        while f < 14
            invariant
                board.wf(),
                *board == state.board_of(),
                l == board.pieces_view(p),
                l.len() <= 196,
                p == pidx(player),
                f <= 14,
                doubled as int == doubled_below(l, p, f as int),
                0 <= doubled <= 196 * f,
            decreases 14 - f,
        {
            let c = sum_pieces(board, PieceMetric::PawnOnFile(f), player);
            proof {
                lemma_unit_metric_range(l, PieceMetric::PawnOnFile(f), p);
                assert(((f as int + 1) - 1) as u8 == f);
            }
            if c > 1 {
                doubled = doubled + (c - 1);
            }
            f = f + 1;
        }
        assert(doubled <= 2744);
        0 - doubled * 8
    }
}

proof fn lemma_doubled_bound(l: Seq<(PieceType, Square)>, p: int, n: int)
    requires
        0 <= n <= 14,
        l.len() <= 196,
    ensures
        0 <= doubled_below(l, p, n) <= 196 * n,
    decreases n,
{
    if n > 0 {
        lemma_doubled_bound(l, p, n - 1);
        lemma_unit_metric_range(l, PieceMetric::PawnOnFile((n - 1) as u8), p);
    }
}


// ─── Territory ──────────────────────────────────────────────────────────────

/// Owner mark of a square no active player reaches.
pub const OWNER_NONE: u8 = 255;

/// Owner mark of a square first reached at equal distance by two players.
pub const OWNER_CONTESTED: u8 = 254;

/// Territory analysis: a multi-source breadth-first search by king steps from
/// every piece of every active player.
#[derive(Clone, Copy, Debug)]
pub struct TerritoryInfo {
    /// Squares owned by each player.
    pub counts: [i16; 4],
    /// Owned squares next to a square owned by another player or contested.
    pub frontier: [i16; 4],
    /// Contested squares.
    pub contested: i16,
    /// Owner of each square index: a player index, contested or none.
    pub owner: [u8; 196],
}

/// An owner mark is a player index, contested or none.
pub open spec fn owner_mark(v: u8) -> bool {
    v < 4 || v == OWNER_CONTESTED || v == OWNER_NONE
}

/// Playable squares below `n` whose owner mark is `v`.
pub open spec fn owner_count(o: Seq<u8>, v: int, n: int) -> int
    decreases n,
{
    if n <= 0 {
        0
    } else {
        owner_count(o, v, n - 1) + if valid_index(n - 1) && o[n - 1] == v { 1int } else { 0int }
    }
}

/// Some neighbour of square index `i` in a direction below `n` is owned by
/// another player or contested.
pub open spec fn foreign_neighbour_below(o: Seq<u8>, i: int, n: int) -> bool
    decreases n,
{
    n > 0 && (foreign_neighbour_below(o, i, n - 1) || {
        let rf = nb_rf(i, n - 1);
        let j = rf.0 * 14 + rf.1;
        valid_rf(rf.0, rf.1) && o[j] != o[i] && o[j] != OWNER_NONE
    })
}

/// Playable squares below `n` owned by `v` that border foreign territory.
pub open spec fn frontier_count(o: Seq<u8>, v: int, n: int) -> int
    decreases n,
{
    if n <= 0 {
        0
    } else {
        frontier_count(o, v, n - 1) + if valid_index(n - 1) && o[n - 1] == v
            && foreign_neighbour_below(o, n - 1, 8) {
            1int
        } else {
            0int
        }
    }
}

proof fn lemma_owner_count_bound(o: Seq<u8>, v: int, n: int)
    requires
        0 <= n,
    ensures
        0 <= owner_count(o, v, n) <= n,
        0 <= frontier_count(o, v, n) <= n,
    decreases n,
{
    if n > 0 {
        lemma_owner_count_bound(o, v, n - 1);
    }
}

/// Square `s` holds a piece of active player `p`.
pub open spec fn seed_at(g: GameState, p: int, s: int) -> bool {
    &&& 0 <= s < 196
    &&& g.board_of()@.squares[s] is Some
    &&& pidx(g.board_of()@.squares[s]->0.player) == p
    &&& g.statuses()[p] == PlayerStatus::Active
}

/// One king step leads from square index `a` to playable square `b`.
#[verifier::opaque]
pub open spec fn king_step(a: int, b: int) -> bool {
    exists|k: int| 0 <= k < 8 && #[trigger] sq_at(a / 14 + any_dir(k).0, a % 14 + any_dir(k).1) == Some(b)
}

/// `path` is a walk of king steps from a piece of active player `p` to
/// square `s`.
pub open spec fn is_route(g: GameState, p: int, path: Seq<int>, s: int) -> bool {
    &&& path.len() >= 1
    &&& seed_at(g, p, path[0])
    &&& path.last() == s
    &&& forall|i: int| 0 <= i < path.len() - 1 ==> 0 <= #[trigger] path[i] < 196 && king_step(path[i], path[i + 1])
}

/// Some piece of active player `p` reaches square `s` in at most `d` king
/// steps over playable squares.
#[verifier::opaque]
pub open spec fn reaches(g: GameState, p: int, s: int, d: nat) -> bool {
    exists|path: Seq<int>| #[trigger] is_route(g, p, path, s) && path.len() <= d + 1
}

/// Two different players reach square `s` in at most `d` steps.
pub open spec fn two_reach(g: GameState, s: int, d: nat) -> bool {
    exists|a: int, b: int| 0 <= a < 4 && 0 <= b < 4 && a != b && reaches(g, a, s, d) && reaches(g, b, s, d)
}

/// Every owned square is reached by its owner within its distance, every
/// contested square by two players within its distance, and unowned
/// squares carry no distance.
pub open spec fn claims_ok(g: GameState, o: Seq<u8>, dist: Seq<u8>) -> bool {
    &&& forall|s: int| 0 <= s < 196 && #[trigger] o[s] < 4 ==> reaches(g, o[s] as int, s, dist[s] as nat)
    &&& forall|s: int| 0 <= s < 196 && #[trigger] o[s] == OWNER_CONTESTED ==> two_reach(g, s, dist[s] as nat)
    &&& forall|s: int| 0 <= s < 196 && #[trigger] o[s] == OWNER_NONE ==> dist[s] == 255
}

/// Every queue entry's player reaches its square within its distance.
pub open spec fn queue_ok(g: GameState, queue: Seq<(u8, u8, u8)>) -> bool {
    forall|k: int| 0 <= k < queue.len() ==> reaches(g, (#[trigger] queue[k]).1 as int, queue[k].0 as int, queue[k].2 as nat)
}

proof fn lemma_reach_seed(g: GameState, p: int, s: int)
    requires
        seed_at(g, p, s),
    ensures
        reaches(g, p, s, 0),
{
    let path = seq![s];
    assert(is_route(g, p, path, s));
    reveal(reaches);
}

proof fn lemma_reach_step(g: GameState, p: int, a: int, b: int, d: nat, k: int)
    requires
        0 <= a < 196,
        0 <= b < 196,
        0 <= k < 8,
        sq_at(a / 14 + any_dir(k).0, a % 14 + any_dir(k).1) == Some(b),
        reaches(g, p, a, d),
    ensures
        reaches(g, p, b, (d + 1) as nat),
{
    reveal(reaches);
    let path = choose|path: Seq<int>| #[trigger] is_route(g, p, path, a) && path.len() <= d + 1;
    let q = path.push(b);
    assert(king_step(a, b)) by {
        reveal(king_step);
    }
    assert forall|i: int| 0 <= i < q.len() - 1 implies 0 <= #[trigger] q[i] < 196 && king_step(q[i], q[i + 1]) by {
        if i < path.len() - 1 {
            assert(q[i] == path[i] && q[i + 1] == path[i + 1]);
        } else {
            assert(q[i] == a);
            assert(q[i + 1] == b);
        }
    }
    assert(is_route(g, p, q, b));
}

/// Playable squares below `n` that carry a distance.
pub open spec fn dist_count(dist: Seq<u8>, n: int) -> int
    decreases n,
{
    if n <= 0 {
        0
    } else {
        dist_count(dist, n - 1) + if valid_index(n - 1) && dist[n - 1] < 255 { 1int } else { 0int }
    }
}

/// Playable squares below `n`.
pub open spec fn valid_count(n: int) -> int
    decreases n,
{
    if n <= 0 {
        0
    } else {
        valid_count(n - 1) + if valid_index(n - 1) { 1int } else { 0int }
    }
}

/// Playable squares before rank `r`, file `f`: ranks 3 to 10 have 14,
/// the others 8 (files 3 to 10).
spec fn valid_before(r: int, f: int) -> int {
    let full = if r <= 3 {
        8 * r
    } else if r <= 11 {
        24 + 14 * (r - 3)
    } else {
        136 + 8 * (r - 11)
    };
    let part = if 3 <= r <= 10 {
        f
    } else if f <= 3 {
        0
    } else if f <= 11 {
        f - 3
    } else {
        8
    };
    full + part
}

proof fn lemma_valid_count_at(n: int)
    requires
        0 <= n <= 196,
    ensures
        valid_count(n) == valid_before(n / 14, n % 14),
    decreases n,
{
    if n > 0 {
        lemma_valid_count_at(n - 1);
        let m = n - 1;
        assert(m / 14 * 14 + m % 14 == m);
        assert(n / 14 * 14 + n % 14 == n);
        if m % 14 == 13 {
            assert(n % 14 == 0 && n / 14 == m / 14 + 1);
        } else {
            assert(n % 14 == m % 14 + 1 && n / 14 == m / 14);
        }
    }
}

proof fn lemma_valid_count()
    ensures
        valid_count(196) == 160,
{
    lemma_valid_count_at(196);
}

proof fn lemma_dist_count_le(dist: Seq<u8>, n: int)
    requires
        0 <= n <= 196,
    ensures
        dist_count(dist, n) <= valid_count(n),
        (exists|i: int| 0 <= i < n && valid_index(i) && dist[i] == 255) ==> dist_count(dist, n) < valid_count(n),
    decreases n,
{
    if n > 0 {
        lemma_dist_count_le(dist, n - 1);
        if exists|i: int| 0 <= i < n && valid_index(i) && dist[i] == 255 {
            let i = choose|i: int| 0 <= i < n && valid_index(i) && dist[i] == 255;
            if i < n - 1 {
                assert(exists|i: int| 0 <= i < n - 1 && valid_index(i) && dist[i] == 255);
            }
        }
    }
}

proof fn lemma_dist_count_none(dist: Seq<u8>, n: int)
    requires
        0 <= n <= dist.len(),
        forall|i: int| 0 <= i < n ==> dist[i] == 255,
    ensures
        dist_count(dist, n) == 0,
    decreases n,
{
    if n > 0 {
        lemma_dist_count_none(dist, n - 1);
    }
}

proof fn lemma_dist_count_set(dist: Seq<u8>, i: int, v: u8, n: int)
    requires
        dist.len() == 196,
        0 <= i < 196,
        valid_index(i),
        dist[i] == 255,
        v < 255,
        0 <= n <= 196,
    ensures
        dist_count(dist.update(i, v), n) == dist_count(dist, n) + if i < n { 1int } else { 0int },
    decreases n,
{
    if n > 0 {
        lemma_dist_count_set(dist, i, v, n - 1);
    }
}

/// Every king step from square `sq` lands on a square at most one step
/// further than `d`.
pub open spec fn closed_at(dist: Seq<u8>, sq: int, d: int) -> bool {
    forall|j: int|
        0 <= j < 8 ==> match #[trigger] sq_at(sq / 14 + any_dir(j).0, sq % 14 + any_dir(j).1) {
            Some(n) => dist[n] <= d + 1,
            None => true,
        }
}

/// The distance of the last expanded queue entry (0 before any).
pub open spec fn last_d(q: Seq<(u8, u8, u8)>, h: int) -> int {
    if h <= 0 {
        0
    } else {
        q[h - 1].2 as int
    }
}

/// The breadth-first order: distances never fall along the queue and stay
/// within one of the last expanded entry; every entry's square has the
/// entry's distance; every square with a distance has an entry; expanded
/// entries are closed; and the queue has one entry per square with a
/// distance.
pub open spec fn bfs_ok(q: Seq<(u8, u8, u8)>, dist: Seq<u8>, head: int) -> bool {
    &&& forall|i: int, j: int| 0 <= i < j < q.len() ==> q[i].2 <= q[j].2
    &&& forall|k: int| 0 <= k < q.len() ==> (#[trigger] q[k]).2 <= last_d(q, head) + 1
    &&& forall|k: int| 0 <= k < q.len() ==> dist[(#[trigger] q[k]).0 as int] == q[k].2
    &&& forall|s: int| 0 <= s < 196 && #[trigger] dist[s] < 255 ==> exists|k: int| 0 <= k < q.len() && (#[trigger] q[k]).0 == s
    &&& forall|k: int| 0 <= k < head ==> closed_at(dist, (#[trigger] q[k]).0 as int, q[k].2 as int)
    &&& q.len() == dist_count(dist, 196)
}

/// Player `p` reaches square `s` first: within some number of steps that no
/// player beats.
pub open spec fn nearest_reach(g: GameState, p: int, s: int) -> bool {
    exists|d: nat|
        reaches(g, p, s, d) && forall|q: int, e: nat| 0 <= q < 4 && #[trigger] reaches(g, q, s, e) ==> d <= e
}

/// Two different players reach square `s` first, at the same number of
/// steps.
pub open spec fn nearest_tie(g: GameState, s: int) -> bool {
    exists|d: nat|
        two_reach(g, s, d) && forall|q: int, e: nat| 0 <= q < 4 && #[trigger] reaches(g, q, s, e) ==> d <= e
}

/// Along a route, each square's distance is at most its step count.
proof fn lemma_route_dist(g: GameState, p: int, path: Seq<int>, s: int, o: Seq<u8>, dist: Seq<u8>, i: int)
    requires
        g.wf(),
        is_route(g, p, path, s),
        0 <= i < path.len(),
        dist.len() == 196,
        seeded(g, o, dist, 4),
        forall|x: int| 0 <= x < 196 && #[trigger] dist[x] < 255 ==> dist[x] < 160 && closed_at(dist, x, dist[x] as int),
    ensures
        dist[path[i]] <= i,
        dist[path[i]] < 160,
    decreases i,
{
    g.lemma_board_wf();
    g.board_of().lemma_wf();
    if i == 0 {
        assert(seed_at(g, p, path[0]));
        lemma_player_index(p);
    } else {
        lemma_route_dist(g, p, path, s, o, dist, i - 1);
        let a = path[i - 1];
        let b = path[i];
        assert(0 <= a < 196 && king_step(a, b));
        reveal(king_step);
        let j = choose|j: int| 0 <= j < 8 && #[trigger] sq_at(a / 14 + any_dir(j).0, a % 14 + any_dir(j).1) == Some(b);
        assert(closed_at(dist, a, dist[a] as int));
        assert(dist[b] <= dist[a] + 1);
    }
}

/// Seeding: every square holding a piece of an active player with index
/// below `n` carries that player's mark at distance 0.
pub open spec fn seeded(g: GameState, o: Seq<u8>, dist: Seq<u8>, n: int) -> bool {
    forall|s: int|
        0 <= s < 196 && (#[trigger] g.board_of()@.squares[s]) is Some && pidx(
            g.board_of()@.squares[s]->0.player,
        ) < n && g.statuses()[pidx(g.board_of()@.squares[s]->0.player)] == PlayerStatus::Active
            ==> o[s] == pidx(g.board_of()@.squares[s]->0.player) && dist[s] == 0
}

/// The first `j` pieces of list `l` carry mark `q` at distance 0.
pub open spec fn seeded_prefix(l: Seq<(PieceType, Square)>, o: Seq<u8>, dist: Seq<u8>, q: int, j: int) -> bool {
    forall|i: int|
        #![trigger l[i]]
        0 <= i < j ==> o[l[i].1.0 as int] == q && dist[l[i].1.0 as int] == 0
}

/// Marks at distance 0 sit on squares of their owner's pieces; every mark is
/// well-formed and unplayable squares stay unowned.
pub open spec fn marks_ok(g: GameState, o: Seq<u8>, dist: Seq<u8>) -> bool {
    &&& o.len() == 196
    &&& dist.len() == 196
    &&& forall|i: int| 0 <= i < 196 ==> owner_mark(#[trigger] o[i])
    &&& forall|i: int| 0 <= i < 196 && !valid_index(i) ==> #[trigger] o[i] == OWNER_NONE
    &&& forall|i: int|
        0 <= i < 196 && #[trigger] o[i] != OWNER_NONE && dist[i] == 0 ==> g.board_of()@.squares[i] is Some
            && pidx(g.board_of()@.squares[i]->0.player) == o[i]
}

/// Breadth-first territory from the pieces of every active player.
///
/// Each active piece's square belongs to its owner; every square some
/// active piece reaches by king steps over playable squares is claimed, by
/// a player that reaches it in the fewest steps (the first the search finds
/// there), or marked contested when two players reach it first at the same
/// distance. Counts, contested squares and frontier lengths are then read
/// off the owner map.
pub fn bfs_territory_enhanced(state: &GameState) -> (t: TerritoryInfo)
    requires
        state.wf(),
    ensures
        territory_ok(*state, t.owner@),
        forall|q: int| 0 <= q < 4 ==> #[trigger] t.counts@[q] as int == owner_count(t.owner@, q, 196),
        forall|q: int|
            0 <= q < 4 ==> #[trigger] t.frontier@[q] as int == frontier_count(t.owner@, q, 196),
        t.contested as int == owner_count(t.owner@, OWNER_CONTESTED as int, 196),
{
    proof {
        state.lemma_board_wf();
        state.board_of().lemma_wf();
    }
    let board = state.board();
    let ghost g = *state;
    let mut owner: [u8; 196] = [255u8; 196];
    let mut dist: [u8; 196] = [255u8; 196];
    let mut queue: Vec<(u8, u8, u8)> = Vec::new();
    proof {
        lemma_dist_count_none(dist@, 196);
    }
    let players = Player::all();
    let mut q: usize = 0;
    while q < 4
        invariant
            q <= 4,
            g == *state,
            g.wf(),
            board.wf(),
            *board == g.board_of(),
            forall|i: int| 0 <= i < 196 && (#[trigger] g.board_of()@.squares[i]) is Some ==> valid_index(i),
            forall|i: int| 0 <= i < 4 ==> players@[i] == player_at(i),
            marks_ok(g, owner@, dist@),
            forall|i: int| 0 <= i < 196 && #[trigger] owner@[i] != OWNER_NONE ==> dist@[i] == 0,
            seeded(g, owner@, dist@, q as int),
            claims_ok(g, owner@, dist@),
            queue_ok(g, queue@),
            bfs_ok(queue@, dist@, 0),
            queue_owned(queue@, owner@),
            queue@.len() <= 196 * q,
            forall|k: int|
                0 <= k < queue@.len() ==> (#[trigger] queue@[k]).0 < 196 && queue@[k].1 < 4 && queue@[k].2
                    == 0,
        decreases 4 - q,
    {
        let opp = players[q];
        assert(opp == players@[q as int]);
        proof {
            lemma_player_index(q as int);
        }
        if is_active_for_zones(state, opp) {
            let l = board.pieces(opp);
            proof {
                board.lemma_pieces_bounded(q as int);
                assert(crate::board::list_sync(board.pieces_view(q as int), g.board_of()@.squares, q as int))
                    by {
                    board.lemma_wf();
                }
            }
            let mut j: usize = 0;
            while j < l.len()
                invariant
                    q < 4,
                    g == *state,
                    board.wf(),
                    *board == g.board_of(),
                    g.statuses()[q as int] == PlayerStatus::Active,
                    l@ == pieces_of(g, q as int),
                    l@.len() <= 196,
                    crate::board::list_sync(l@, g.board_of()@.squares, q as int),
                    forall|i: int| 0 <= i < 196 && (#[trigger] g.board_of()@.squares[i]) is Some ==> valid_index(i),
                    j <= l@.len(),
                    marks_ok(g, owner@, dist@),
                    forall|i: int| 0 <= i < 196 && #[trigger] owner@[i] != OWNER_NONE ==> dist@[i] == 0,
                    seeded(g, owner@, dist@, q as int),
                    seeded_prefix(l@, owner@, dist@, q as int, j as int),
                    claims_ok(g, owner@, dist@),
                    queue_ok(g, queue@),
                    bfs_ok(queue@, dist@, 0),
                    queue_owned(queue@, owner@),
            queue_owned(queue@, owner@),
                    queue@.len() <= 196 * q + j,
                    forall|k: int|
                        0 <= k < queue@.len() ==> (#[trigger] queue@[k]).0 < 196 && queue@[k].1 < 4
                            && queue@[k].2 == 0,
                decreases l.len() - j,
            {
                let (_, sq) = l[j];
                let idx = sq.0 as usize;
                assert(l@[j as int].1.0 < 196);
                assert(g.board_of()@.squares[idx as int] == Some(
                    Piece { piece_type: l@[j as int].0, player: player_at(q as int) },
                ));
                proof {
                    lemma_player_index(q as int);
                    assert(seed_at(g, q as int, idx as int));
                    lemma_reach_seed(g, q as int, idx as int);
                }
                if owner[idx] == 255 {
                    let ghost d0 = dist@;
                    let ghost q0 = queue@;
                    proof {
                        assert(d0[idx as int] == 255);
                        lemma_dist_count_set(d0, idx as int, 0, 196);
                    }
                    owner[idx] = q as u8;
                    dist[idx] = 0;
                    queue.push((sq.0, q as u8, 0));
                    proof {
                        assert(dist@ == d0.update(idx as int, 0));
                        assert forall|k: int| 0 <= k < q0.len() implies (#[trigger] q0[k]).0 != idx by {
                            if q0[k].0 == idx {
                                assert(d0[idx as int] == q0[k].2);
                            }
                        }
                        assert forall|s: int| 0 <= s < 196 && #[trigger] dist@[s] < 255 implies exists|k: int|
                            0 <= k < queue@.len() && (#[trigger] queue@[k]).0 == s by {
                            if s == idx {
                                assert(queue@[q0.len() as int].0 == s);
                            } else {
                                let k = choose|k: int| 0 <= k < q0.len() && (#[trigger] q0[k]).0 == s;
                                assert(queue@[k].0 == s);
                            }
                        }
                    }
                }
                proof {
                    assert(owner@[idx as int] == q);
                }
                j = j + 1;
            }
            proof {
                assert(seeded_prefix(pieces_of(g, q as int), owner@, dist@, q as int, l@.len() as int));
            }
        }
        proof {
            lemma_seed_player(g, owner@, dist@, q as int);
        }
        q = q + 1;
    }
    owner_finish(state, owner, dist, queue)
}


proof fn lemma_seed_player(g: GameState, o: Seq<u8>, dist: Seq<u8>, q: int)
    requires
        0 <= q < 4,
        g.wf(),
        seeded(g, o, dist, q),
        g.statuses()[q] == PlayerStatus::Active ==> seeded_prefix(
            pieces_of(g, q),
            o,
            dist,
            q,
            pieces_of(g, q).len() as int,
        ),
    ensures
        seeded(g, o, dist, q + 1),
{
    g.lemma_board_wf();
    g.board_of().lemma_wf();
    let sqs = g.board_of()@.squares;
    let l = pieces_of(g, q);
    assert forall|s: int|
        0 <= s < 196 && (#[trigger] sqs[s]) is Some && pidx(sqs[s]->0.player) < q + 1
            && g.statuses()[pidx(sqs[s]->0.player)] == PlayerStatus::Active implies o[s] == pidx(
        sqs[s]->0.player,
    ) && dist[s] == 0 by {
        if pidx(sqs[s]->0.player) == q {
            assert(crate::board::list_sync(l, sqs, q));
            assert(crate::board::list_has(l, s));
            let i = choose|i: int| 0 <= i < l.len() && l[i].1.0 == s;
            assert(l[i].1.0 == s);
        }
    }
}

/// Every queue entry's square is still marked with the entry's player, or
/// contested.
pub open spec fn queue_owned(q: Seq<(u8, u8, u8)>, o: Seq<u8>) -> bool {
    forall|k: int|
        0 <= k < q.len() ==> o[(#[trigger] q[k]).0 as int] == q[k].1 || o[q[k].0 as int] == OWNER_CONTESTED
}

/// The square one king step from `s` in direction `j`, if playable.
pub open spec fn king_nbr(s: int, j: int) -> Option<int> {
    sq_at(s / 14 + any_dir(j).0, s % 14 + any_dir(j).1)
}

/// Expanding entry `k` in direction `j` left its neighbour one step further
/// marked with the entry's player or contested.
pub open spec fn step_owned(q: Seq<(u8, u8, u8)>, k: int, j: int, dist: Seq<u8>, o: Seq<u8>) -> bool {
    match king_nbr(q[k].0 as int, j) {
        Some(n) => dist[n] == q[k].2 + 1 ==> o[n] == q[k].1 || o[n] == OWNER_CONTESTED,
        None => true,
    }
}


/// Territory ensures of the owner map: marks well-formed, unplayable squares
/// unowned, active pieces' squares their owners', every square some player
/// reaches claimed, owned squares reached first by their owner and
/// contested squares reached first by two players at once.
pub open spec fn territory_ok(g: GameState, o: Seq<u8>) -> bool {
    &&& o.len() == 196
    &&& forall|i: int| 0 <= i < 196 ==> owner_mark(#[trigger] o[i])
    &&& forall|i: int| 0 <= i < 196 && !valid_index(i) ==> #[trigger] o[i] == OWNER_NONE
    &&& forall|s: int|
        0 <= s < 196 && (#[trigger] g.board_of()@.squares[s]) is Some && g.statuses()[pidx(
            g.board_of()@.squares[s]->0.player,
        )] == PlayerStatus::Active ==> o[s] == pidx(g.board_of()@.squares[s]->0.player)
    &&& forall|s: int, q: int, e: nat|
        0 <= s < 196 && 0 <= q < 4 && #[trigger] reaches(g, q, s, e) ==> o[s] != OWNER_NONE
    &&& forall|s: int| 0 <= s < 196 && #[trigger] o[s] < 4 ==> nearest_reach(g, o[s] as int, s)
    &&& forall|s: int| 0 <= s < 196 && #[trigger] o[s] == OWNER_CONTESTED ==> nearest_tie(g, s)
    &&& forall|s: int, t: int, j: int, e: nat|
        #![trigger reaches(g, o[t] as int, t, e), king_nbr(t, j), o[s]]
        0 <= t < 196 && 0 <= j < 8 && king_nbr(t, j) == Some(s) && o[s] < 4 && o[t] < 4 && o[s] != o[t] && reaches(
            g,
            o[t] as int,
            t,
            e,
        ) ==> exists|q: int, e2: nat| 0 <= q < 4 && #[trigger] reaches(g, q, s, e2) && e2 <= e
}

/// Expand the breadth-first search from the seeded queue, returning the
/// owner map.
#[verifier::rlimit(100)]
fn bfs_expand(state: &GameState, owner: [u8; 196], dist: [u8; 196], queue: Vec<(u8, u8, u8)>) -> (o: [u8; 196])
    requires
        state.wf(),
        marks_ok(*state, owner@, dist@),
        seeded(*state, owner@, dist@, 4),
        forall|k: int|
            0 <= k < queue@.len() ==> (#[trigger] queue@[k]).0 < 196 && queue@[k].1 < 4 && queue@[k].2 == 0,
        claims_ok(*state, owner@, dist@),
        queue_ok(*state, queue@),
        bfs_ok(queue@, dist@, 0),
        queue_owned(queue@, owner@),
    ensures
        territory_ok(*state, o@),
{
    let ghost g = *state;
    let mut owner = owner;
    let mut dist = dist;
    let mut queue = queue;
    proof {
        lemma_valid_count();
        lemma_dist_count_le(dist@, 196);
        assert forall|k: int| 0 <= k < queue@.len() implies (#[trigger] queue@[k]).2 <= k by {}
    }
    let mut head: usize = 0;
    while head < queue.len()
        invariant
            g == *state,
            g.wf(),
            marks_ok(g, owner@, dist@),
            seeded(g, owner@, dist@, 4),
            head <= queue@.len(),
            queue@.len() <= 160,
            forall|k: int|
                0 <= k < queue@.len() ==> (#[trigger] queue@[k]).0 < 196 && queue@[k].1 < 4 && queue@[k].2
                    <= k && queue@[k].2 < 160,
            claims_ok(g, owner@, dist@),
            queue_ok(g, queue@),
            bfs_ok(queue@, dist@, head as int),
            queue_owned(queue@, owner@),
            forall|k: int, j: int| 0 <= k < head && 0 <= j < 8 ==> #[trigger] step_owned(queue@, k, j, dist@, owner@),
        decreases 160 - head,
    {
        let (sq_idx, pi, dd) = queue[head];
        assert(queue@[head as int] == (sq_idx, pi, dd));
        assert(reaches(g, pi as int, sq_idx as int, dd as nat));
        head = head + 1;
        let nd: u8 = dd + 1;
        proof {
            assert forall|k: int| 0 <= k < queue@.len() implies (#[trigger] queue@[k]).2 <= dd + 1 by {
                if head - 1 > 0 {
                    assert(queue@[head - 2].2 <= queue@[head - 1].2);
                }
            }
        }
        let mut d: usize = 0;
        while d < 8
            invariant
                g == *state,
                g.wf(),
                marks_ok(g, owner@, dist@),
                seeded(g, owner@, dist@, 4),
                1 <= head <= queue@.len(),
                queue@.len() <= 160,
                sq_idx < 196,
                pi < 4,
                nd >= 1,
                nd <= head,
                nd < 161,
                forall|k: int|
                    0 <= k < queue@.len() ==> (#[trigger] queue@[k]).0 < 196 && queue@[k].1 < 4
                        && queue@[k].2 <= k && queue@[k].2 < 160,
                d <= 8,
                claims_ok(g, owner@, dist@),
                queue_ok(g, queue@),
                nd == dd + 1,
                reaches(g, pi as int, sq_idx as int, dd as nat),
                queue@[head - 1] == (sq_idx, pi, dd),
                forall|i: int, j: int| 0 <= i < j < queue@.len() ==> queue@[i].2 <= queue@[j].2,
                forall|k: int| 0 <= k < queue@.len() ==> (#[trigger] queue@[k]).2 <= dd + 1,
                forall|k: int| 0 <= k < queue@.len() ==> dist@[(#[trigger] queue@[k]).0 as int] == queue@[k].2,
                forall|s: int|
                    0 <= s < 196 && #[trigger] dist@[s] < 255 ==> exists|k: int|
                        0 <= k < queue@.len() && (#[trigger] queue@[k]).0 == s,
                forall|k: int| 0 <= k < head - 1 ==> closed_at(dist@, (#[trigger] queue@[k]).0 as int, queue@[k].2 as int),
                forall|j: int|
                    0 <= j < d ==> match #[trigger] sq_at(sq_idx as int / 14 + any_dir(j).0, sq_idx as int % 14 + any_dir(j).1) {
                        Some(n) => dist@[n] <= nd,
                        None => true,
                    },
                queue@.len() == dist_count(dist@, 196),
                queue_owned(queue@, owner@),
                forall|k: int, j: int| 0 <= k < head - 1 && 0 <= j < 8 ==> #[trigger] step_owned(queue@, k, j, dist@, owner@),
                forall|j: int| 0 <= j < d ==> #[trigger] step_owned(queue@, head - 1, j, dist@, owner@),
            decreases 8 - d,
        {
            let (dr, df) = any_dir_exec(d);
            let nr = (sq_idx / 14) as i8 + dr;
            let nf = (sq_idx % 14) as i8 + df;
            if nr >= 0 && nr < 14 && nf >= 0 && nf < 14 && is_valid_square(nr as u8, nf as u8) {
                let n = (nr as usize) * 14 + nf as usize;
                assert(valid_index(n as int)) by {
                    assert(n as int / 14 == nr as int);
                    assert(n as int % 14 == nf as int);
                }
                proof {
                    assert(sq_at(sq_idx as int / 14 + any_dir(d as int).0, sq_idx as int % 14 + any_dir(d as int).1)
                        == Some(n as int));
                    lemma_reach_step(g, pi as int, sq_idx as int, n as int, dd as nat, d as int);
                }
                let ghost o0 = owner@;
                if nd < dist[n] {
                    let ghost d0 = dist@;
                    let ghost q0 = queue@;
                    proof {
                        if d0[n as int] < 255 {
                            let k = choose|k: int| 0 <= k < q0.len() && (#[trigger] q0[k]).0 == n;
                            assert(d0[n as int] == q0[k].2);
                        }
                        assert(d0[n as int] == 255);
                        lemma_dist_count_le(d0, 196);
                        lemma_valid_count();
                        lemma_dist_count_set(d0, n as int, nd, 196);
                    }
                    dist[n] = nd;
                    owner[n] = pi;
                    if queue.len() < 160 {
                        queue.push((n as u8, pi, nd));
                    }
                    proof {
                        assert(dist@ == d0.update(n as int, nd));
                        assert(queue@ == q0.push((n as u8, pi, nd)));
                        assert forall|k: int| 0 <= k < q0.len() implies (#[trigger] q0[k]).0 != n by {
                            if q0[k].0 == n {
                                assert(d0[n as int] == q0[k].2);
                            }
                        }
                        assert forall|s: int| 0 <= s < 196 && #[trigger] dist@[s] < 255 implies exists|k: int|
                            0 <= k < queue@.len() && (#[trigger] queue@[k]).0 == s by {
                            if s == n {
                                assert(queue@[q0.len() as int].0 == s);
                            } else {
                                let k = choose|k: int| 0 <= k < q0.len() && (#[trigger] q0[k]).0 == s;
                                assert(queue@[k].0 == s);
                            }
                        }
                        assert forall|k: int, j: int| 0 <= k < head - 1 && 0 <= j < 8 implies #[trigger] step_owned(queue@, k, j, dist@, owner@) by {
                            assert(step_owned(q0, k, j, d0, o0));
                            assert(closed_at(d0, q0[k].0 as int, q0[k].2 as int));
                            assert(q0[k].2 <= dd);
                            assert(queue@[k] == q0[k]);
                        }
                        assert forall|j: int| 0 <= j <= d implies #[trigger] step_owned(queue@, head - 1, j, dist@, owner@) by {
                            assert(queue@[head - 1] == q0[head - 1]);
                            if j < d {
                                assert(step_owned(q0, head - 1, j, d0, o0));
                            }
                        }
                        assert(queue_owned(queue@, owner@)) by {
                            assert forall|k: int| 0 <= k < queue@.len() implies owner@[(#[trigger] queue@[k]).0 as int] == queue@[k].1
                                || owner@[queue@[k].0 as int] == OWNER_CONTESTED by {
                                if k < q0.len() {
                                    assert(queue@[k] == q0[k]);
                                    assert(q0[k].0 != n);
                                }
                            }
                        }
                        assert forall|k: int| 0 <= k < head - 1 implies closed_at(dist@, (#[trigger] queue@[k]).0 as int, queue@[k].2 as int) by {
                            assert(closed_at(d0, q0[k].0 as int, q0[k].2 as int));
                            assert forall|j: int| 0 <= j < 8 implies match #[trigger] sq_at(q0[k].0 as int / 14 + any_dir(j).0, q0[k].0 as int % 14 + any_dir(j).1) {
                                Some(m) => dist@[m] <= q0[k].2 + 1,
                                None => true,
                            } by {}
                        }
                    }
                } else if nd == dist[n] && owner[n] != pi && owner[n] != OWNER_CONTESTED {
                    let ghost prev = owner@[n as int];
                    proof {
                        assert(prev < 4);
                        assert(reaches(g, prev as int, n as int, dist@[n as int] as nat));
                    }
                    owner[n] = OWNER_CONTESTED;
                    proof {
                        assert(two_reach(g, n as int, dist@[n as int] as nat)) by {
                            assert(reaches(g, pi as int, n as int, nd as nat));
                        }
                        assert forall|k: int, j: int| 0 <= k < head - 1 && 0 <= j < 8 implies #[trigger] step_owned(queue@, k, j, dist@, owner@) by {
                            assert(step_owned(queue@, k, j, dist@, o0));
                        }
                        assert forall|j: int| 0 <= j <= d implies #[trigger] step_owned(queue@, head - 1, j, dist@, owner@) by {
                            if j < d {
                                assert(step_owned(queue@, head - 1, j, dist@, o0));
                            }
                        }
                        assert forall|k: int| 0 <= k < queue@.len() implies owner@[(#[trigger] queue@[k]).0 as int] == queue@[k].1
                            || owner@[queue@[k].0 as int] == OWNER_CONTESTED by {
                            assert(o0[queue@[k].0 as int] == queue@[k].1 || o0[queue@[k].0 as int] == OWNER_CONTESTED);
                        }
                    }
                } else {
                    proof {
                        assert(step_owned(queue@, head - 1, d as int, dist@, owner@));
                    }
                }
            }
            d = d + 1;
        }
        proof {
            assert(closed_at(dist@, sq_idx as int, dd as int));
        }
    }
    proof {
        assert forall|x: int| 0 <= x < 196 && #[trigger] dist@[x] < 255 implies dist@[x] < 160 && closed_at(
            dist@,
            x,
            dist@[x] as int,
        ) by {
            let k = choose|k: int| 0 <= k < queue@.len() && (#[trigger] queue@[k]).0 == x;
            assert(closed_at(dist@, queue@[k].0 as int, queue@[k].2 as int));
        }
        assert forall|s: int, q: int, e: nat| 0 <= s < 196 && 0 <= q < 4 && #[trigger] reaches(g, q, s, e) implies dist@[s] <= e && dist@[s] < 160 by {
            reveal(reaches);
            let path = choose|path: Seq<int>| #[trigger] is_route(g, q, path, s) && path.len() <= e + 1;
            lemma_route_dist(g, q, path, s, owner@, dist@, path.len() - 1);
        }
        assert forall|s: int| 0 <= s < 196 && #[trigger] owner@[s] < 4 implies nearest_reach(g, owner@[s] as int, s) by {
            assert(reaches(g, owner@[s] as int, s, dist@[s] as nat));
        }
        assert forall|s: int| 0 <= s < 196 && #[trigger] owner@[s] == OWNER_CONTESTED implies nearest_tie(g, s) by {
            assert(two_reach(g, s, dist@[s] as nat));
        }
        let o = owner@;
        assert forall|s: int, t: int, j: int, e: nat|
            #![trigger reaches(g, o[t] as int, t, e), king_nbr(t, j), o[s]]
            0 <= t < 196 && 0 <= j < 8 && king_nbr(t, j) == Some(s) && o[s] < 4 && o[t] < 4 && o[s] != o[t] && reaches(
                g,
                o[t] as int,
                t,
                e,
            ) implies exists|q: int, e2: nat| 0 <= q < 4 && #[trigger] reaches(g, q, s, e2) && e2 <= e by {
            assert(0 <= s < 196);
            assert(reaches(g, o[s] as int, s, dist@[s] as nat));
            assert(dist@[t] <= e && dist@[t] < 160);
            if dist@[s] <= e {
                assert(reaches(g, o[s] as int, s, dist@[s] as nat));
            } else {
                let k = choose|k: int| 0 <= k < queue@.len() && (#[trigger] queue@[k]).0 == t;
                assert(closed_at(dist@, t, dist@[t] as int));
                assert(match sq_at(t / 14 + any_dir(j).0, t % 14 + any_dir(j).1) {
                    Some(m) => dist@[m] <= dist@[t] + 1,
                    None => true,
                });
                assert(step_owned(queue@, k, j, dist@, owner@));
                assert(queue@[k].2 == dist@[t]);
                assert(owner@[t] == queue@[k].1 || owner@[t] == OWNER_CONTESTED);
                assert(false);
            }
        }
    }
    owner
}

fn owner_finish(state: &GameState, owner: [u8; 196], dist: [u8; 196], queue: Vec<(u8, u8, u8)>) -> (t:
    TerritoryInfo)
    requires
        state.wf(),
        marks_ok(*state, owner@, dist@),
        seeded(*state, owner@, dist@, 4),
        forall|k: int|
            0 <= k < queue@.len() ==> (#[trigger] queue@[k]).0 < 196 && queue@[k].1 < 4 && queue@[k].2 == 0,
        claims_ok(*state, owner@, dist@),
        queue_ok(*state, queue@),
        bfs_ok(queue@, dist@, 0),
        queue_owned(queue@, owner@),
    ensures
        territory_ok(*state, t.owner@),
        forall|q: int| 0 <= q < 4 ==> #[trigger] t.counts@[q] as int == owner_count(t.owner@, q, 196),
        forall|q: int|
            0 <= q < 4 ==> #[trigger] t.frontier@[q] as int == frontier_count(t.owner@, q, 196),
        t.contested as int == owner_count(t.owner@, OWNER_CONTESTED as int, 196),
{
    let owner = bfs_expand(state, owner, dist, queue);
    let ghost o = owner@;
    let mut counts: [i16; 4] = [0i16; 4];
    let mut contested: i16 = 0;
    let mut i: usize = 0;
    while i < 196
        invariant
            o == owner@,
            o.len() == 196,
            forall|k: int| 0 <= k < 196 ==> owner_mark(#[trigger] o[k]),
            i <= 196,
            forall|v: int| 0 <= v < 4 ==> #[trigger] counts@[v] as int == owner_count(o, v, i as int),
            contested as int == owner_count(o, OWNER_CONTESTED as int, i as int),
        decreases 196 - i,
    {
        proof {
            lemma_owner_count_bound(o, OWNER_CONTESTED as int, i as int);
            assert forall|v: int| 0 <= v < 4 implies owner_count(o, v, i as int) <= i by {
                lemma_owner_count_bound(o, v, i as int);
            }
        }
        let v = owner[i];
        if is_valid_square((i / 14) as u8, (i % 14) as u8) {
            if v < 4 {
                let c = counts[v as usize];
                assert(c == counts@[v as int]);
                counts[v as usize] = c + 1;
            } else if v == OWNER_CONTESTED {
                contested = contested + 1;
            }
        }
        i = i + 1;
    }
    let mut frontier: [i16; 4] = [0i16; 4];
    let mut i: usize = 0;
    while i < 196
        invariant
            o == owner@,
            o.len() == 196,
            forall|k: int| 0 <= k < 196 ==> owner_mark(#[trigger] o[k]),
            i <= 196,
            forall|v: int| 0 <= v < 4 ==> #[trigger] frontier@[v] as int == frontier_count(o, v, i as int),
        decreases 196 - i,
    {
        proof {
            assert forall|v: int| 0 <= v < 4 implies frontier_count(o, v, i as int) <= i by {
                lemma_owner_count_bound(o, v, i as int);
            }
        }
        let v = owner[i];
        if is_valid_square((i / 14) as u8, (i % 14) as u8) && v < 4 {
            let mut found = false;
            let mut d: usize = 0;
            while d < 8
                invariant
                    o == owner@,
                    o.len() == 196,
                    i < 196,
                    v == o[i as int],
                    d <= 8,
                    found == foreign_neighbour_below(o, i as int, d as int),
                decreases 8 - d,
            {
                let (dr, df) = any_dir_exec(d);
                let nr = (i / 14) as i8 + dr;
                let nf = (i % 14) as i8 + df;
                if nr >= 0 && nr < 14 && nf >= 0 && nf < 14 && is_valid_square(nr as u8, nf as u8) {
                    let n = (nr as usize) * 14 + nf as usize;
                    let w = owner[n];
                    if w != v && w != OWNER_NONE {
                        found = true;
                    }
                }
                d = d + 1;
            }
            if found {
                let c = frontier[v as usize];
                assert(c == frontier@[v as int]);
                frontier[v as usize] = c + 1;
            }
        }
        i = i + 1;
    }
    TerritoryInfo { counts, frontier, contested, owner }
}


// ─── Combining the evaluation ───────────────────────────────────────────────

/// Integer division rounding toward zero.
pub open spec fn trunc_div(a: int, b: int) -> int {
    if a >= 0 {
        a / b
    } else {
        -((-a) / b)
    }
}

/// Clamp to the range of `i16`.
pub open spec fn sat16(x: int) -> int {
    if x < -32768 {
        -32768
    } else if x > 32767 {
        32767
    } else {
        x
    }
}

/// Territory terms: owned squares times the territory weight, minus a
/// penalty for a frontier longer than a quarter of the territory.
pub open spec fn territory_terms(zw: ZoneWeights, t: TerritoryInfo, p: int) -> int {
    let c = t.counts@[p] as int;
    let f = t.frontier@[p] as int;
    let tw = zw.territory as int;
    let half = trunc_div(tw, 2);
    c * tw - sat16(f - trunc_div(c, 4)) * (if half > 1 { half } else { 1 })
}

/// Piece terms: material, placement, mobility, king safety, escape routes,
/// castling, pawn structure and development, with their weights.
pub open spec fn piece_terms(g: GameState, p: int) -> int {
    let l = pieces_of(g, p);
    material_balance(g, p) + sum_metric(l, PieceMetric::Placement, p) + 4 * sum_metric(
        l,
        PieceMetric::Mobility,
        p,
    ) + king_safety_of(g, p) + 15 * escape_routes_of(g, p) + castled_of(g, p) + pawn_structure_of(g, p)
        + 35 * development_of(g, p)
}

/// The unwrapped total of every component for player index `p`, with the
/// zone extras (influence, tension, swarm) already summed in `extra`.
pub open spec fn total_of(g: GameState, zw: ZoneWeights, t: TerritoryInfo, extra: i16, p: int) -> int {
    piece_terms(g, p) + territory_terms(zw, t, p) + extra as int
}

/// A player's score before centring: the sentinel for an eliminated player,
/// otherwise the total wrapped to 16 bits.
pub open spec fn raw_score(g: GameState, zw: ZoneWeights, t: TerritoryInfo, extra: i16, p: int) -> i16 {
    if g.statuses()[p] == PlayerStatus::Eliminated {
        ELIMINATED_SCORE
    } else {
        total_of(g, zw, t, extra, p) as i16
    }
}

/// Number of scores among the first `n` that are not the sentinel.
pub open spec fn live_count(s: Seq<i16>, n: int) -> int
    decreases n,
{
    if n <= 0 {
        0
    } else {
        live_count(s, n - 1) + if s[n - 1] != ELIMINATED_SCORE { 1int } else { 0int }
    }
}

/// Sum of the scores among the first `n` that are not the sentinel.
pub open spec fn live_sum(s: Seq<i16>, n: int) -> int
    decreases n,
{
    if n <= 0 {
        0
    } else {
        live_sum(s, n - 1) + if s[n - 1] != ELIMINATED_SCORE { s[n - 1] as int } else { 0int }
    }
}

/// Zero-centring: with two or more live scores, subtract their mean
/// (rounded toward zero) from each live score, wrapping to 16 bits.
pub open spec fn centred(s: Seq<i16>, i: int) -> i16 {
    let c = live_count(s, 4);
    if c > 1 && s[i] != ELIMINATED_SCORE {
        (s[i] - trunc_div(live_sum(s, 4), c)) as i16
    } else {
        s[i]
    }
}

proof fn lemma_live_bounds(s: Seq<i16>, n: int)
    requires
        0 <= n <= s.len(),
    ensures
        0 <= live_count(s, n) <= n,
        -32768 * live_count(s, n) <= live_sum(s, n) <= 32767 * live_count(s, n),
    decreases n,
{
    if n > 0 {
        lemma_live_bounds(s, n - 1);
    }
}

/// Subtract the mean of the live scores from each live score.
pub fn zero_center(scores: [i16; 4]) -> (r: [i16; 4])
    ensures
        forall|i: int| 0 <= i < 4 ==> #[trigger] r@[i] == centred(scores@, i),
{
    let mut count: i64 = 0;
    let mut sum: i64 = 0;
    let mut i: usize = 0;
    while i < 4
        invariant
            i <= 4,
            count as int == live_count(scores@, i as int),
            sum as int == live_sum(scores@, i as int),
        decreases 4 - i,
    {
        proof {
            lemma_live_bounds(scores@, i as int);
        }
        if scores[i] != ELIMINATED_SCORE {
            count = count + 1;
            sum = sum + scores[i] as i64;
        }
        i = i + 1;
    }
    proof {
        lemma_live_bounds(scores@, 4);
    }
    if count <= 1 {
        return scores;
    }
    let mean: i64 = if sum >= 0 {
        sum / count
    } else {
        -((-sum) / count)
    };
    assert(-32768 <= mean <= 32767) by (nonlinear_arith)
        requires
            2 <= count <= 4,
            -32768 * count <= sum <= 32767 * count,
            mean as int == trunc_div(sum as int, count as int),
    ;
    let mut r = scores;
    let mut j: usize = 0;
    while j < 4
        invariant
            j <= 4,
            count as int == live_count(scores@, 4),
            sum as int == live_sum(scores@, 4),
            count > 1,
            mean as int == trunc_div(sum as int, count as int),
            -32768 <= mean <= 32767,
            forall|k: int| 0 <= k < j ==> #[trigger] r@[k] == centred(scores@, k),
            forall|k: int| j <= k < 4 ==> #[trigger] r@[k] == scores@[k],
        decreases 4 - j,
    {
        if scores[j] != ELIMINATED_SCORE {
            let v: i64 = scores[j] as i64 - mean;
            r[j] = #[verifier::truncate] (v as i16);
        }
        j = j + 1;
    }
    r
}

impl BootstrapEvaluator {
    fn territory_score(&self, t: &TerritoryInfo, player: Player) -> (v: i64)
        ensures
            v as int == territory_terms(self.zone_weights, *t, pidx(player)),
            -3 * 32768 * 32768 <= v <= 3 * 32768 * 32768,
    {
        let pi = player.index();
        let c = t.counts[pi] as i64;
        let f = t.frontier[pi] as i64;
        let tw = self.zone_weights.territory as i64;
        let half: i64 = if tw >= 0 { tw / 2 } else { -((-tw) / 2) };
        let quarter: i64 = if c >= 0 { c / 4 } else { -((-c) / 4) };
        let diff = f - quarter;
        let sat: i64 = if diff < -32768 { -32768 } else if diff > 32767 { 32767 } else { diff };
        let hw: i64 = if half > 1 { half } else { 1 };
        assert(-32768 * 32768 <= c * tw <= 32768 * 32768) by (nonlinear_arith)
            requires
                -32768 <= c <= 32767,
                -32768 <= tw <= 32767,
        ;
        assert(-32768 * 32768 <= sat * hw <= 32768 * 32768) by (nonlinear_arith)
            requires
                -32768 <= sat <= 32767,
                1 <= hw <= 16384,
        ;
        c * tw - sat * hw
    }

    fn piece_score(state: &GameState, player: Player) -> (v: i64)
        requires
            state.wf(),
        ensures
            v as int == piece_terms(*state, pidx(player)),
            -100000000 <= v <= 100000000,
    {
        proof {
            state.lemma_board_wf();
        }
        let board = state.board();
        let material = Self::material_score(state, player) as i64;
        let pst = sum_pieces(board, PieceMetric::Placement, player) as i64;
        let mobility = sum_pieces(board, PieceMetric::Mobility, player) as i64;
        let king = Self::king_safety_score(state, player) as i64;
        let escape = king_escape_routes(state, player) as i64;
        let castled = Self::castled_bonus(state, player) as i64;
        let pawns = Self::pawn_structure_score(state, player) as i64;
        let dev = Self::development_score(state, player) as i64;
        proof {
            assert(castled == 0 || castled == 80);
        }
        material + pst + 4 * mobility + king + 15 * escape + castled + pawns + 35 * dev
    }

    fn total_score(&self, state: &GameState, t: &TerritoryInfo, extra: i16, player: Player) -> (v: i16)
        requires
            state.wf(),
        ensures
            v == total_of(*state, self.zone_weights, *t, extra, pidx(player)) as i16,
    {
        let a = Self::piece_score(state, player);
        let b = self.territory_score(t, player);
        let total: i64 = a + b + extra as i64;
        #[verifier::truncate]
        (total as i16)
    }

    /// Evaluate all four players given the territory analysis and each
    /// player's zone extras (influence, tension and swarm, already weighted
    /// and summed): eliminated players get the sentinel, the others their
    /// component total, then the live scores are zero-centred.
    pub fn eval_4vec_with(&self, state: &GameState, territory: &TerritoryInfo, extras: [i16; 4]) -> (r: [i16; 4])
        requires
            state.wf(),
        ensures
            forall|i: int|
                0 <= i < 4 ==> #[trigger] r@[i] == centred(
                    Seq::new(4, |k: int| raw_score(*state, self.zone_weights, *territory, extras@[k], k)),
                    i,
                ),
    {
        let players = Player::all();
        let mut raw: [i16; 4] = [0i16; 4];
        let mut q: usize = 0;
        while q < 4
            invariant
                q <= 4,
                state.wf(),
                forall|i: int| 0 <= i < 4 ==> players@[i] == player_at(i),
                forall|k: int|
                    0 <= k < q ==> #[trigger] raw@[k] == raw_score(*state, self.zone_weights, *territory, extras@[k], k),
            decreases 4 - q,
        {
            let p = players[q];
            assert(p == players@[q as int]);
            proof {
                lemma_player_index(q as int);
            }
            if state.player_status(p) == PlayerStatus::Eliminated {
                raw[q] = ELIMINATED_SCORE;
            } else {
                raw[q] = self.total_score(state, territory, extras[q], p);
            }
            q = q + 1;
        }
        let ghost target = Seq::new(4, |k: int| raw_score(*state, self.zone_weights, *territory, extras@[k], k));
        assert(raw@ =~= target);
        zero_center(raw)
    }

    /// One player's share of [`BootstrapEvaluator::eval_4vec_with`].
    pub fn eval_scalar_with(&self, state: &GameState, territory: &TerritoryInfo, extras: [i16; 4], player: Player) -> (v: i16)
        requires
            state.wf(),
        ensures
            v == centred(
                Seq::new(4, |k: int| raw_score(*state, self.zone_weights, *territory, extras@[k], k)),
                pidx(player),
            ),
    {
        let scores = self.eval_4vec_with(state, territory, extras);
        scores[player.index()]
    }
}

} // verus!
