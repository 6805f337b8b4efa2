//! NNUE feature encoding: (perspective, square, piece type, owner) to a
//! feature index, with owners taken relative to the perspective player.

use vstd::prelude::*;
use crate::board::Board;
use crate::types::{is_valid_square, pidx, player_at, valid_index, valid_rf, PieceType, Player, Square};

verus! {

/// Playable squares on the board.
pub const NUM_VALID_SQUARES: usize = 160;

/// Piece types in the encoding.
pub const NUM_PIECE_TYPES: usize = 7;

/// Relative players: self, next, across, previous.
pub const NUM_RELATIVE_PLAYERS: usize = 4;

/// Piece-square features per perspective: 4 x 7 x 160.
pub const NUM_PIECE_SQ_FEATURES: usize = 4480;

/// Zone control summary features per perspective.
pub const NUM_ZONE_FEATURES: usize = 8;

/// Input features per perspective.
pub const TOTAL_FEATURES: usize = 4488;

/// First hidden layer size.
pub const HIDDEN1_SIZE: usize = 256;

/// Second hidden layer size.
pub const HIDDEN2_SIZE: usize = 32;

/// Output size per perspective.
pub const OUTPUT_SIZE: usize = 1;

/// Quantisation scale of the weights (Q6).
pub const WEIGHT_SCALE: i32 = 64;

/// Combined output scale, `WEIGHT_SCALE` squared.
pub const OUTPUT_SCALE: i32 = 4096;

/// Number of playable squares with raw index below `s`.
pub open spec fn valid_before(s: int) -> int
    decreases s,
{
    if s <= 0 {
        0
    } else {
        valid_before(s - 1) + if valid_index(s - 1) { 1int } else { 0int }
    }
}

/// Closed form of [`valid_before`] for a square at (rank, file).
pub open spec fn valid_before_rf(r: int, f: int) -> int {
    let row_start = if r <= 3 {
        8 * r
    } else if r <= 11 {
        24 + 14 * (r - 3)
    } else {
        136 + 8 * (r - 11)
    };
    let in_row = if r < 3 || r > 10 {
        if f < 3 { 0 } else if f > 11 { 8 } else { f - 3 }
    } else {
        f
    };
    row_start + in_row
}

proof fn lemma_valid_before(s: int)
    requires
        0 <= s <= 196,
    ensures
        s < 196 ==> valid_before(s) == valid_before_rf(s / 14, s % 14),
        s == 196 ==> valid_before(s) == 160,
    decreases s,
{
    if s > 0 {
        lemma_valid_before(s - 1);
    }
}

/// Map a raw square index to its index among the playable squares, or 255
/// for a corner square or an index off the board.
pub open spec fn valid_ordinal(s: int) -> int {
    if valid_index(s) {
        valid_before(s)
    } else {
        255
    }
}

/// Index of a square among the playable squares (255 for an unplayable one).
pub fn square_to_valid_index(s: u8) -> (r: u8)
    ensures
        r as int == valid_ordinal(s as int),
        valid_index(s as int) ==> r < 160,
{
    if s >= 196 {
        return 255;
    }
    let rank = s / 14;
    let file = s % 14;
    if !is_valid_square(rank, file) {
        return 255;
    }
    proof {
        lemma_valid_before(s as int);
        lemma_valid_before(196);
        lemma_valid_before_mono(s as int);
    }
    let row_start: u8 = if rank <= 3 {
        8 * rank
    } else if rank <= 11 {
        24 + 14 * (rank - 3)
    } else {
        136 + 8 * (rank - 11)
    };
    let in_row: u8 = if rank < 3 || rank > 10 {
        file - 3
    } else {
        file
    };
    row_start + in_row
}

proof fn lemma_valid_before_mono(s: int)
    requires
        0 <= s < 196,
        valid_index(s),
    ensures
        valid_before(s) < 160,
{
    lemma_valid_before_le(s + 1, 196);
    lemma_valid_before(196);
}

proof fn lemma_valid_before_le(a: int, b: int)
    requires
        0 <= a <= b,
    ensures
        valid_before(a) <= valid_before(b),
    decreases b - a,
{
    if a < b {
        lemma_valid_before_le(a, b - 1);
    }
}

/// Owner index relative to the perspective: 0 self, 1 next, 2 across,
/// 3 previous.
pub open spec fn rel_player(persp: int, owner: int) -> int {
    (owner + 4 - persp) % 4
}

/// Relative index of a piece owner seen from a perspective.
pub fn relative_player(perspective: Player, piece_player: Player) -> (r: usize)
    ensures
        r as int == rel_player(pidx(perspective), pidx(piece_player)),
        r < 4,
{
    (piece_player.index() + 4 - perspective.index()) % 4
}

/// Piece type index in the encoding.
pub open spec fn pt_index(pt: PieceType) -> int {
    match pt {
        PieceType::Pawn => 0,
        PieceType::Knight => 1,
        PieceType::Bishop => 2,
        PieceType::Rook => 3,
        PieceType::Queen => 4,
        PieceType::King => 5,
        PieceType::PromotedQueen => 6,
    }
}

/// Feature index of a piece on raw square index `s`, or None for an
/// unplayable square.
pub open spec fn feature_of(persp: int, s: int, pt: PieceType, owner: int) -> Option<int> {
    if valid_index(s) {
        Some(rel_player(persp, owner) * 1120 + pt_index(pt) * 160 + valid_before(s))
    } else {
        None
    }
}

/// Piece-square feature index of a piece seen from a perspective:
/// relative player x 1120 + piece type x 160 + playable-square index.
pub fn feature_index(perspective: Player, sq: Square, piece_type: PieceType, piece_player: Player) -> (r:
    Option<u16>)
    ensures
        match feature_of(pidx(perspective), sq.0 as int, piece_type, pidx(piece_player)) {
            Some(i) => r == Some(i as u16) && 0 <= i < 4480,
            None => r is None,
        },
{
    let valid_idx = square_to_valid_index(sq.0);
    if valid_idx == 255 {
        return None;
    }
    let rel = relative_player(perspective, piece_player);
    let pt_idx: usize = match piece_type {
        PieceType::Pawn => 0,
        PieceType::Knight => 1,
        PieceType::Bishop => 2,
        PieceType::Rook => 3,
        PieceType::Queen => 4,
        PieceType::King => 5,
        PieceType::PromotedQueen => 6,
    };
    let idx = rel * 1120 + pt_idx * 160 + valid_idx as usize;
    Some(idx as u16)
}

/// Feature index of zone summary feature `zone_idx` (0..8), after the
/// piece-square features.
pub fn zone_feature_index(zone_idx: usize) -> (r: u16)
    requires
        zone_idx < 8,
    ensures
        r as int == 4480 + zone_idx,
{
    (4480 + zone_idx) as u16
}

/// Feature indices of the pieces in list `l` of player index `owner`, seen
/// from `persp`, skipping unplayable squares.
pub open spec fn list_features(l: Seq<(PieceType, Square)>, persp: int, owner: int) -> Seq<int>
    decreases l.len(),
{
    if l.len() == 0 {
        Seq::empty()
    } else {
        let rest = list_features(l.drop_last(), persp, owner);
        match feature_of(persp, l.last().1.0 as int, l.last().0, owner) {
            Some(i) => rest.push(i),
            None => rest,
        }
    }
}

/// Active features of players with index below `n`, in turn order and
/// piece-list order.
pub open spec fn features_below(b: Board, persp: int, n: int) -> Seq<int>
    decreases n,
{
    if n <= 0 {
        Seq::empty()
    } else {
        features_below(b, persp, n - 1) + list_features(b.pieces_view(n - 1), persp, n - 1)
    }
}

/// All active piece-square features of a board from a perspective.
pub open spec fn active_features(b: Board, persp: int) -> Seq<int> {
    features_below(b, persp, 4)
}

proof fn lemma_list_features_step(l: Seq<(PieceType, Square)>, persp: int, owner: int, j: int)
    requires
        0 <= j < l.len(),
    ensures
        list_features(l.take(j + 1), persp, owner) == match feature_of(persp, l[j].1.0 as int, l[j].0, owner) {
            Some(i) => list_features(l.take(j), persp, owner).push(i),
            None => list_features(l.take(j), persp, owner),
        },
{
    assert(l.take(j + 1).drop_last() =~= l.take(j));
}

/// Collect every active piece-square feature of a board from a perspective,
/// in turn order and piece-list order.
pub fn collect_active_features(board: &Board, perspective: Player) -> (out: Vec<u16>)
    requires
        board.wf(),
    ensures
        out@.len() == active_features(*board, pidx(perspective)).len(),
        forall|k: int|
            0 <= k < out@.len() ==> #[trigger] out@[k] as int == active_features(*board, pidx(perspective))[k],
        forall|k: int| 0 <= k < out@.len() ==> #[trigger] out@[k] < 4480,
{
    let ghost persp = pidx(perspective);
    let mut out: Vec<u16> = Vec::new();
    let players = Player::all();
    let mut q: usize = 0;
    while q < 4
        invariant
            q <= 4,
            board.wf(),
            forall|i: int| 0 <= i < 4 ==> players@[i] == player_at(i),
            persp == pidx(perspective),
            out@.len() == features_below(*board, persp, q as int).len(),
            forall|k: int| 0 <= k < out@.len() ==> #[trigger] out@[k] as int == features_below(*board, persp, q as int)[k],
            forall|k: int| 0 <= k < out@.len() ==> #[trigger] out@[k] < 4480,
            out@.len() <= 196 * q,
        decreases 4 - q,
    {
        let owner = players[q];
        assert(owner == players@[q as int]);
        proof {
            lemma_owner_index(q as int);
            board.lemma_pieces_bounded(q as int);
        }
        let l = board.pieces(owner);
        let ghost base = out@;
        let ghost prev = features_below(*board, persp, q as int);
        let mut j: usize = 0;
        while j < l.len()
            invariant
                q < 4,
                l@ == board.pieces_view(q as int),
                l@.len() <= 196,
                pidx(owner) == q,
                persp == pidx(perspective),
                j <= l@.len(),
                base.len() == prev.len(),
                base.len() <= 196 * q,
                forall|k: int| 0 <= k < base.len() ==> #[trigger] base[k] as int == prev[k],
                out@.len() == base.len() + list_features(l@.take(j as int), persp, q as int).len(),
                forall|k: int| 0 <= k < base.len() ==> #[trigger] out@[k] == base[k],
                forall|k: int|
                    base.len() <= k < out@.len() ==> #[trigger] out@[k] as int == list_features(
                        l@.take(j as int),
                        persp,
                        q as int,
                    )[k - base.len()],
                forall|k: int| 0 <= k < out@.len() ==> #[trigger] out@[k] < 4480,
                out@.len() <= base.len() + j,
            decreases l.len() - j,
        {
            let (pt, sq) = l[j];
            proof {
                lemma_list_features_step(l@, persp, q as int, j as int);
            }
            match feature_index(perspective, sq, pt, owner) {
                Some(idx) => {
                    out.push(idx);
                },
                None => {},
            }
            j = j + 1;
        }
        proof {
            assert(l@.take(l@.len() as int) =~= l@);
            assert(features_below(*board, persp, q as int + 1) == prev + list_features(l@, persp, q as int));
        }
        q = q + 1;
    }
    out
}

proof fn lemma_owner_index(i: int)
    requires
        0 <= i < 4,
    ensures
        pidx(player_at(i)) == i,
{
    if i == 0 {
    } else if i == 1 {
    } else if i == 2 {
    } else {
    }
}


/// Raw square index of the playable square with index `v` among the
/// playable squares.
pub fn valid_index_to_square(v: u8) -> (s: u8)
    requires
        v < 160,
    ensures
        s < 196,
        valid_index(s as int),
        valid_before(s as int) == v,
{
    proof {
        lemma_valid_before(196);
    }
    let mut count: u8 = 0;
    let mut i: u8 = 0;
    while i < 196
        invariant
            i <= 196,
            v < 160,
            count as int == valid_before(i as int),
            count <= v,
            valid_before(196) == 160,
        decreases 196 - i,
    {
        if is_valid_square(i / 14, i % 14) {
            if count == v {
                return i;
            }
            count = count + 1;
        }
        i = i + 1;
    }
    proof {
        assert(false);
    }
    0
}

} // verus!
