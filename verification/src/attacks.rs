//! Attack queries: which pieces attack a square.
//!
//! Knights, kings and pawns attack fixed offsets. Sliders attack along rays;
//! a ray passes over the invalid corner squares and stops at the first piece.

use vstd::prelude::*;
use crate::board::{Board, BoardState};
use crate::types::{is_other_player, pidx, player_at, valid_rf, Piece, PieceType, Player, Square};

verus! {

// ─── Direction tables as spec functions ─────────────────────────────────────

/// Orthogonal direction `k` (0..4): N, S, E, W.
pub open spec fn ortho_dir(k: int) -> (int, int) {
    if k == 0 {
        (1, 0)
    } else if k == 1 {
        (-1, 0)
    } else if k == 2 {
        (0, 1)
    } else {
        (0, -1)
    }
}

/// Diagonal direction `k` (0..4): NE, NW, SE, SW.
pub open spec fn diag_dir(k: int) -> (int, int) {
    if k == 0 {
        (1, 1)
    } else if k == 1 {
        (1, -1)
    } else if k == 2 {
        (-1, 1)
    } else {
        (-1, -1)
    }
}

/// All eight directions: the orthogonal ones, then the diagonal ones.
pub open spec fn any_dir(k: int) -> (int, int) {
    if k < 4 {
        ortho_dir(k)
    } else {
        diag_dir(k - 4)
    }
}

/// Knight offset `k` (0..8).
pub open spec fn knight_off(k: int) -> (int, int) {
    if k == 0 {
        (2, 1)
    } else if k == 1 {
        (2, -1)
    } else if k == 2 {
        (-2, 1)
    } else if k == 3 {
        (-2, -1)
    } else if k == 4 {
        (1, 2)
    } else if k == 5 {
        (1, -2)
    } else if k == 6 {
        (-1, 2)
    } else {
        (-1, -2)
    }
}

/// Capture delta `k` (0..2) of a pawn of player index `p`.
pub open spec fn pawn_cap(p: int, k: int) -> (int, int) {
    if p == 0 {
        if k == 0 { (1, 1) } else { (1, -1) }
    } else if p == 1 {
        if k == 0 { (1, 1) } else { (-1, 1) }
    } else if p == 2 {
        if k == 0 { (-1, 1) } else { (-1, -1) }
    } else {
        if k == 0 { (1, -1) } else { (-1, -1) }
    }
}

pub fn ortho_dir_exec(k: usize) -> (r: (i8, i8))
    requires
        k < 4,
    ensures
        (r.0 as int, r.1 as int) == ortho_dir(k as int),
{
    if k == 0 {
        (1, 0)
    } else if k == 1 {
        (-1, 0)
    } else if k == 2 {
        (0, 1)
    } else {
        (0, -1)
    }
}

pub fn diag_dir_exec(k: usize) -> (r: (i8, i8))
    requires
        k < 4,
    ensures
        (r.0 as int, r.1 as int) == diag_dir(k as int),
{
    if k == 0 {
        (1, 1)
    } else if k == 1 {
        (1, -1)
    } else if k == 2 {
        (-1, 1)
    } else {
        (-1, -1)
    }
}

pub fn any_dir_exec(k: usize) -> (r: (i8, i8))
    requires
        k < 8,
    ensures
        (r.0 as int, r.1 as int) == any_dir(k as int),
{
    if k < 4 {
        ortho_dir_exec(k)
    } else {
        diag_dir_exec(k - 4)
    }
}

pub fn knight_off_exec(k: usize) -> (r: (i8, i8))
    requires
        k < 8,
    ensures
        (r.0 as int, r.1 as int) == knight_off(k as int),
{
    if k == 0 {
        (2, 1)
    } else if k == 1 {
        (2, -1)
    } else if k == 2 {
        (-2, 1)
    } else if k == 3 {
        (-2, -1)
    } else if k == 4 {
        (1, 2)
    } else if k == 5 {
        (1, -2)
    } else if k == 6 {
        (-1, 2)
    } else {
        (-1, -2)
    }
}

pub fn pawn_cap_exec(p: usize, k: usize) -> (r: (i8, i8))
    requires
        p < 4,
        k < 2,
    ensures
        (r.0 as int, r.1 as int) == pawn_cap(p as int, k as int),
{
    if p == 0 {
        if k == 0 { (1, 1) } else { (1, -1) }
    } else if p == 1 {
        if k == 0 { (1, 1) } else { (-1, 1) }
    } else if p == 2 {
        if k == 0 { (-1, 1) } else { (-1, -1) }
    } else {
        if k == 0 { (1, -1) } else { (-1, -1) }
    }
}

// ─── Attack model ───────────────────────────────────────────────────────────

/// Some `k` below `n` satisfies `f`.
pub open spec fn any_below(n: int, f: spec_fn(int) -> bool) -> bool
    decreases n,
{
    n > 0 && (any_below(n - 1, f) || f(n - 1))
}

/// The occupant of playable square (r, f); None off the board.
pub open spec fn at_rf(sqs: Seq<Option<Piece>>, r: int, f: int) -> Option<Piece> {
    if valid_rf(r, f) {
        sqs[r * 14 + f]
    } else {
        None
    }
}

/// Distance measure that a ray walk decreases.
pub open spec fn ray_measure(r: int, f: int, dr: int, df: int) -> int {
    (if dr == 1 {
        14 - r
    } else if dr == -1 {
        r + 1
    } else {
        0
    }) + (if df == 1 {
        14 - f
    } else if df == -1 {
        f + 1
    } else {
        0
    })
}

/// A unit direction: each delta in -1..=1, not both zero.
pub open spec fn unit_dir(dr: int, df: int) -> bool {
    -1 <= dr <= 1 && -1 <= df <= 1 && (dr != 0 || df != 0)
}

/// Scan from (r, f) in direction (dr, df), skipping invalid corner squares,
/// and return the first piece met with its square index.
pub open spec fn ray_scan(sqs: Seq<Option<Piece>>, r: int, f: int, dr: int, df: int) -> Option<
    (Piece, int),
>
    decreases ray_measure(r, f, dr, df),
{
    if !unit_dir(dr, df) || !(0 <= r < 14 && 0 <= f < 14) {
        None
    } else if valid_rf(r, f) && sqs[r * 14 + f] is Some {
        Some((sqs[r * 14 + f]->0, r * 14 + f))
    } else {
        ray_scan(sqs, r + dr, f + df, dr, df)
    }
}

/// A ray scan ends on an occupied playable square.
pub proof fn lemma_ray_scan(sqs: Seq<Option<Piece>>, r: int, f: int, dr: int, df: int)
    ensures
        ray_scan(sqs, r, f, dr, df) matches Some((pc, i)) ==> 0 <= i < 196 && valid_rf(i / 14, i % 14)
            && sqs[i] == Some(pc),
    decreases ray_measure(r, f, dr, df),
{
    if unit_dir(dr, df) && 0 <= r < 14 && 0 <= f < 14 {
        if !(valid_rf(r, f) && sqs[r * 14 + f] is Some) {
            lemma_ray_scan(sqs, r + dr, f + df, dr, df);
        } else {
            let i = r * 14 + f;
            assert(i / 14 == r && i % 14 == f);
        }
    }
}

/// The first piece seen from square index `s` in direction (dr, df).
pub open spec fn ray_first(sqs: Seq<Option<Piece>>, s: int, dr: int, df: int) -> Option<(Piece, int)> {
    ray_scan(sqs, s / 14 + dr, s % 14 + df, dr, df)
}

/// A pawn of player index `a` attacks square index `s` via capture delta `k`.
pub open spec fn pawn_hit(sqs: Seq<Option<Piece>>, s: int, a: int, k: int) -> bool {
    let (dr, df) = pawn_cap(a, k);
    at_rf(sqs, s / 14 - dr, s % 14 - df) == Some(
        Piece { piece_type: PieceType::Pawn, player: player_at(a) },
    )
}

/// A knight of player index `a` attacks square index `s` via offset `k`.
pub open spec fn knight_hit(sqs: Seq<Option<Piece>>, s: int, a: int, k: int) -> bool {
    let (dr, df) = knight_off(k);
    at_rf(sqs, s / 14 + dr, s % 14 + df) == Some(
        Piece { piece_type: PieceType::Knight, player: player_at(a) },
    )
}

/// A king of player index `a` stands next to square index `s` in direction `k`.
pub open spec fn king_hit(sqs: Seq<Option<Piece>>, s: int, a: int, k: int) -> bool {
    let (dr, df) = any_dir(k);
    at_rf(sqs, s / 14 + dr, s % 14 + df) == Some(
        Piece { piece_type: PieceType::King, player: player_at(a) },
    )
}

/// Piece types that attack along orthogonal rays.
pub open spec fn ortho_slider(pt: PieceType) -> bool {
    pt == PieceType::Rook || pt == PieceType::Queen || pt == PieceType::PromotedQueen
}

/// Piece types that attack along diagonal rays.
pub open spec fn diag_slider(pt: PieceType) -> bool {
    pt == PieceType::Bishop || pt == PieceType::Queen || pt == PieceType::PromotedQueen
}

/// A slider of player index `a` attacks `s` along orthogonal direction `k`.
pub open spec fn ortho_hit(sqs: Seq<Option<Piece>>, s: int, a: int, k: int) -> bool {
    let (dr, df) = ortho_dir(k);
    match ray_first(sqs, s, dr, df) {
        Some((pc, _)) => pidx(pc.player) == a && ortho_slider(pc.piece_type),
        None => false,
    }
}

/// A slider of player index `a` attacks `s` along diagonal direction `k`.
pub open spec fn diag_hit(sqs: Seq<Option<Piece>>, s: int, a: int, k: int) -> bool {
    let (dr, df) = diag_dir(k);
    match ray_first(sqs, s, dr, df) {
        Some((pc, _)) => pidx(pc.player) == a && diag_slider(pc.piece_type),
        None => false,
    }
}

/// Square index `s` is attacked by a piece of player index `a`.
pub open spec fn attacked_by(sqs: Seq<Option<Piece>>, s: int, a: int) -> bool {
    ||| any_below(2, |k: int| pawn_hit(sqs, s, a, k))
    ||| any_below(8, |k: int| knight_hit(sqs, s, a, k))
    ||| any_below(8, |k: int| king_hit(sqs, s, a, k))
    ||| any_below(4, |k: int| ortho_hit(sqs, s, a, k))
    ||| any_below(4, |k: int| diag_hit(sqs, s, a, k))
}

/// Player index `p`'s king is in check: its king square holds a real index
/// and some other player attacks it.
pub open spec fn in_check(st: BoardState, p: int) -> bool {
    st.kings[p] != 255 && exists|o: int|
        0 <= o < 4 && o != p && #[trigger] attacked_by(st.squares, st.kings[p] as int, o)
}

// ─── AttackInfo ─────────────────────────────────────────────────────────────

/// Maximum number of attacker squares recorded.
pub const MAX_ATTACKERS: usize = 16;

/// Information about the attackers of a square.
#[derive(Debug)]
pub struct AttackInfo {
    /// Number of attackers.
    pub count: u8,
    /// Squares of the first attackers found (up to 16).
    pub attacker_squares: [Option<Square>; 16],
    /// Which players have at least one attacker.
    pub attacking_players: [bool; 4],
}

impl AttackInfo {
    /// No attackers.
    pub fn new() -> (r: Self)
        ensures
            r.count == 0,
            forall|i: int| 0 <= i < 16 ==> r.attacker_squares@[i] is None,
            forall|p: int| 0 <= p < 4 ==> !r.attacking_players@[p],
    {
        AttackInfo { count: 0, attacker_squares: [None; 16], attacking_players: [false; 4] }
    }

    /// Whether the square is attacked by anyone.
    pub fn is_attacked(&self) -> (r: bool)
        ensures
            r == (self.count > 0),
    {
        self.count > 0
    }

    /// Whether the square is attacked by a given player.
    pub fn is_attacked_by(&self, player: Player) -> (r: bool)
        ensures
            r == self.attacking_players@[pidx(player)],
    {
        self.attacking_players[player.index()]
    }

    fn add_attacker(&mut self, sq: Square, player: Player)
        requires
            old(self).count < 255,
        ensures
            final(self).count == old(self).count + 1,
            final(self).attacker_squares@ == (if old(self).count < 16 {
                old(self).attacker_squares@.update(old(self).count as int, Some(sq))
            } else {
                old(self).attacker_squares@
            }),
            final(self).attacking_players@ == old(self).attacking_players@.update(pidx(player), true),
    {
        if (self.count as usize) < 16 {
            self.attacker_squares[self.count as usize] = Some(sq);
        }
        self.count = self.count + 1;
        self.attacking_players[player.index()] = true;
    }
}

/// The attackers of square index `s` in the order they are found: pawns
/// (by player, then delta), knights, kings, orthogonal then diagonal sliders.
pub open spec fn attackers_list(sqs: Seq<Option<Piece>>, s: int) -> Seq<(int, int)> {
    pawn_attackers(sqs, s, 8) + offset_attackers(sqs, s, PieceType::Knight, 8) + offset_attackers(
        sqs,
        s,
        PieceType::King,
        8,
    ) + ray_attackers(sqs, s, true, 4) + ray_attackers(sqs, s, false, 4)
}

/// Pawn attackers among the first `n` (player, delta) pairs, as
/// (square index, player index).
pub open spec fn pawn_attackers(sqs: Seq<Option<Piece>>, s: int, n: int) -> Seq<(int, int)>
    decreases n,
{
    if n <= 0 {
        Seq::empty()
    } else {
        let a = (n - 1) / 2;
        let k = (n - 1) % 2;
        let (dr, df) = pawn_cap(a, k);
        let rest = pawn_attackers(sqs, s, n - 1);
        if pawn_hit(sqs, s, a, k) {
            rest.push(((s / 14 - dr) * 14 + (s % 14 - df), a))
        } else {
            rest
        }
    }
}

/// Knight or king attackers among the first `n` offsets.
pub open spec fn offset_attackers(sqs: Seq<Option<Piece>>, s: int, pt: PieceType, n: int) -> Seq<
    (int, int),
>
    decreases n,
{
    if n <= 0 {
        Seq::empty()
    } else {
        let (dr, df) = if pt == PieceType::Knight {
            knight_off(n - 1)
        } else {
            any_dir(n - 1)
        };
        let rest = offset_attackers(sqs, s, pt, n - 1);
        match at_rf(sqs, s / 14 + dr, s % 14 + df) {
            Some(pc) => if pc.piece_type == pt {
                rest.push(((s / 14 + dr) * 14 + (s % 14 + df), pidx(pc.player)))
            } else {
                rest
            },
            None => rest,
        }
    }
}

/// Slider attackers along the first `n` orthogonal (or diagonal) rays.
pub open spec fn ray_attackers(sqs: Seq<Option<Piece>>, s: int, ortho: bool, n: int) -> Seq<
    (int, int),
>
    decreases n,
{
    if n <= 0 {
        Seq::empty()
    } else {
        let (dr, df) = if ortho {
            ortho_dir(n - 1)
        } else {
            diag_dir(n - 1)
        };
        let rest = ray_attackers(sqs, s, ortho, n - 1);
        match ray_first(sqs, s, dr, df) {
            Some((pc, i)) => if (ortho && ortho_slider(pc.piece_type)) || (!ortho && diag_slider(
                pc.piece_type,
            )) {
                rest.push((i, pidx(pc.player)))
            } else {
                rest
            },
            None => rest,
        }
    }
}

/// What `attackers_of` reports for a list of attackers.
pub open spec fn info_matches(info: AttackInfo, l: Seq<(int, int)>) -> bool {
    &&& info.count == l.len()
    &&& forall|i: int|
        0 <= i < 16 ==> #[trigger] info.attacker_squares@[i] == if i < l.len() {
            Some(Square(l[i].0 as u8))
        } else {
            None
        }
    &&& forall|p: int|
        0 <= p < 4 ==> #[trigger] info.attacking_players@[p] == exists|i: int|
            0 <= i < l.len() && l[i].1 == p
}

/// Some entry of an attacker list belongs to player index `a`.
pub open spec fn lists_player(l: Seq<(int, int)>, a: int) -> bool {
    exists|i: int| 0 <= i < l.len() && #[trigger] l[i].1 == a
}

proof fn lemma_lists_push(l: Seq<(int, int)>, x: (int, int), a: int)
    ensures
        lists_player(l.push(x), a) == (lists_player(l, a) || x.1 == a),
{
    if lists_player(l, a) {
        let i = choose|i: int| 0 <= i < l.len() && #[trigger] l[i].1 == a;
        assert(l.push(x)[i].1 == a);
    }
    if x.1 == a {
        assert(l.push(x)[l.len() as int].1 == a);
    }
    if lists_player(l.push(x), a) {
        let i = choose|i: int| 0 <= i < l.push(x).len() && #[trigger] l.push(x)[i].1 == a;
        if i < l.len() {
            assert(l[i].1 == a);
        }
    }
}

proof fn lemma_lists_add(l1: Seq<(int, int)>, l2: Seq<(int, int)>, a: int)
    ensures
        lists_player(l1 + l2, a) == (lists_player(l1, a) || lists_player(l2, a)),
{
    if lists_player(l1, a) {
        let i = choose|i: int| 0 <= i < l1.len() && #[trigger] l1[i].1 == a;
        assert((l1 + l2)[i].1 == a);
    }
    if lists_player(l2, a) {
        let i = choose|i: int| 0 <= i < l2.len() && #[trigger] l2[i].1 == a;
        assert((l1 + l2)[l1.len() + i].1 == a);
    }
    if lists_player(l1 + l2, a) {
        let i = choose|i: int| 0 <= i < (l1 + l2).len() && #[trigger] (l1 + l2)[i].1 == a;
        if i < l1.len() {
            assert(l1[i].1 == a);
        } else {
            assert(l2[i - l1.len()].1 == a);
        }
    }
}

proof fn lemma_pawn_lists(sqs: Seq<Option<Piece>>, s: int, n: int, a: int)
    requires
        0 <= n <= 8,
        0 <= a < 4,
    ensures
        lists_player(pawn_attackers(sqs, s, n), a) == any_below(n, |j: int| j / 2 == a && pawn_hit(sqs, s, a, j % 2)),
    decreases n,
{
    if n == 0 {
    } else {
        lemma_pawn_lists(sqs, s, n - 1, a);
        let b = (n - 1) / 2;
        let k = (n - 1) % 2;
        let (dr, df) = pawn_cap(b, k);
        let rest = pawn_attackers(sqs, s, n - 1);
        if pawn_hit(sqs, s, b, k) {
            lemma_lists_push(rest, ((s / 14 - dr) * 14 + (s % 14 - df), b), a);
        }
    }
}

proof fn lemma_offset_lists(sqs: Seq<Option<Piece>>, s: int, pt: PieceType, n: int, a: int)
    requires
        0 <= n,
        0 <= a < 4,
        pt == PieceType::Knight || pt == PieceType::King,
    ensures
        lists_player(offset_attackers(sqs, s, pt, n), a) == any_below(
            n,
            |k: int|
                if pt == PieceType::Knight {
                    knight_hit(sqs, s, a, k)
                } else {
                    king_hit(sqs, s, a, k)
                },
        ),
    decreases n,
{
    if n > 0 {
        lemma_offset_lists(sqs, s, pt, n - 1, a);
        let (dr, df) = if pt == PieceType::Knight {
            knight_off(n - 1)
        } else {
            any_dir(n - 1)
        };
        let rest = offset_attackers(sqs, s, pt, n - 1);
        match at_rf(sqs, s / 14 + dr, s % 14 + df) {
            Some(pc) => {
                crate::types::lemma_player_cycle(pc.player);
                if pc.piece_type == pt {
                    lemma_lists_push(rest, ((s / 14 + dr) * 14 + (s % 14 + df), pidx(pc.player)), a);
                }
            },
            None => {},
        }
    }
}

proof fn lemma_ray_lists(sqs: Seq<Option<Piece>>, s: int, ortho: bool, n: int, a: int)
    requires
        0 <= n,
        0 <= a < 4,
    ensures
        lists_player(ray_attackers(sqs, s, ortho, n), a) == any_below(
            n,
            |k: int|
                if ortho {
                    ortho_hit(sqs, s, a, k)
                } else {
                    diag_hit(sqs, s, a, k)
                },
        ),
    decreases n,
{
    if n > 0 {
        lemma_ray_lists(sqs, s, ortho, n - 1, a);
        let (dr, df) = if ortho {
            ortho_dir(n - 1)
        } else {
            diag_dir(n - 1)
        };
        let rest = ray_attackers(sqs, s, ortho, n - 1);
        match ray_first(sqs, s, dr, df) {
            Some((pc, i)) => {
                if (ortho && ortho_slider(pc.piece_type)) || (!ortho && diag_slider(pc.piece_type)) {
                    lemma_lists_push(rest, (i, pidx(pc.player)), a);
                }
            },
            None => {},
        }
    }
}

/// Every entry of an attacker list names a player index.
pub open spec fn players_in_range(l: Seq<(int, int)>) -> bool {
    forall|i: int| 0 <= i < l.len() ==> 0 <= (#[trigger] l[i]).1 < 4
}

proof fn lemma_pawn_range(sqs: Seq<Option<Piece>>, s: int, n: int)
    requires
        0 <= n <= 8,
    ensures
        players_in_range(pawn_attackers(sqs, s, n)),
    decreases n,
{
    if n > 0 {
        lemma_pawn_range(sqs, s, n - 1);
    }
}

proof fn lemma_offset_range(sqs: Seq<Option<Piece>>, s: int, pt: PieceType, n: int)
    ensures
        players_in_range(offset_attackers(sqs, s, pt, n)),
    decreases n,
{
    if n > 0 {
        lemma_offset_range(sqs, s, pt, n - 1);
    }
}

proof fn lemma_ray_range(sqs: Seq<Option<Piece>>, s: int, ortho: bool, n: int)
    ensures
        players_in_range(ray_attackers(sqs, s, ortho, n)),
    decreases n,
{
    if n > 0 {
        lemma_ray_range(sqs, s, ortho, n - 1);
    }
}

/// `attackers_of` reports the square attacked (some attacker listed)
/// exactly when some player attacks it.
pub proof fn lemma_attacked_any(sqs: Seq<Option<Piece>>, s: int)
    ensures
        (attackers_list(sqs, s).len() > 0) == exists|q: int| 0 <= q < 4 && #[trigger] attacked_by(sqs, s, q),
{
    let l = attackers_list(sqs, s);
    lemma_pawn_range(sqs, s, 8);
    lemma_offset_range(sqs, s, PieceType::Knight, 8);
    lemma_offset_range(sqs, s, PieceType::King, 8);
    lemma_ray_range(sqs, s, true, 4);
    lemma_ray_range(sqs, s, false, 4);
    let pa = pawn_attackers(sqs, s, 8);
    let kn = offset_attackers(sqs, s, PieceType::Knight, 8);
    let kg = offset_attackers(sqs, s, PieceType::King, 8);
    let ro = ray_attackers(sqs, s, true, 4);
    let rd = ray_attackers(sqs, s, false, 4);
    assert forall|i: int| 0 <= i < l.len() implies 0 <= (#[trigger] l[i]).1 < 4 by {
        let a1 = pa + kn;
        let a2 = a1 + kg;
        let a3 = a2 + ro;
        assert(l == a3 + rd);
        if i < pa.len() {
            assert(l[i] == pa[i]);
        } else if i < a1.len() {
            assert(l[i] == kn[i - pa.len()]);
        } else if i < a2.len() {
            assert(l[i] == kg[i - a1.len()]);
        } else if i < a3.len() {
            assert(l[i] == ro[i - a2.len()]);
        } else {
            assert(l[i] == rd[i - a3.len()]);
        }
    }
    if l.len() > 0 {
        let q = l[0].1;
        assert(lists_player(l, q));
        lemma_attackers_agree(sqs, s, q);
    }
    if exists|q: int| 0 <= q < 4 && #[trigger] attacked_by(sqs, s, q) {
        let q = choose|q: int| 0 <= q < 4 && #[trigger] attacked_by(sqs, s, q);
        lemma_attackers_agree(sqs, s, q);
    }
}

/// The attackers that `attackers_of` lists include a piece of player index
/// `a` exactly when `is_square_attacked_by` finds the square attacked by
/// `a`.
pub proof fn lemma_attackers_agree(sqs: Seq<Option<Piece>>, s: int, a: int)
    requires
        0 <= a < 4,
    ensures
        lists_player(attackers_list(sqs, s), a) == attacked_by(sqs, s, a),
{
    let pa = pawn_attackers(sqs, s, 8);
    let kn = offset_attackers(sqs, s, PieceType::Knight, 8);
    let kg = offset_attackers(sqs, s, PieceType::King, 8);
    let ro = ray_attackers(sqs, s, true, 4);
    let rd = ray_attackers(sqs, s, false, 4);
    lemma_pawn_lists(sqs, s, 8, a);
    lemma_offset_lists(sqs, s, PieceType::Knight, 8, a);
    lemma_offset_lists(sqs, s, PieceType::King, 8, a);
    lemma_ray_lists(sqs, s, true, 4, a);
    lemma_ray_lists(sqs, s, false, 4, a);
    lemma_lists_add(pa, kn, a);
    lemma_lists_add(pa + kn, kg, a);
    lemma_lists_add(pa + kn + kg, ro, a);
    lemma_lists_add(pa + kn + kg + ro, rd, a);
    reveal_with_fuel(any_below, 9);
    assert(any_below(8, |j: int| j / 2 == a && pawn_hit(sqs, s, a, j % 2)) == any_below(
        2,
        |k: int| pawn_hit(sqs, s, a, k),
    ));
    assert(any_below(8, |k: int| if PieceType::Knight == PieceType::Knight { knight_hit(sqs, s, a, k) } else {
        king_hit(sqs, s, a, k)
    }) == any_below(8, |k: int| knight_hit(sqs, s, a, k)));
    assert(any_below(8, |k: int| if PieceType::King == PieceType::Knight { knight_hit(sqs, s, a, k) } else {
        king_hit(sqs, s, a, k)
    }) == any_below(8, |k: int| king_hit(sqs, s, a, k)));
    assert(any_below(4, |k: int| if true { ortho_hit(sqs, s, a, k) } else { diag_hit(sqs, s, a, k) })
        == any_below(4, |k: int| ortho_hit(sqs, s, a, k)));
    assert(any_below(4, |k: int| if false { ortho_hit(sqs, s, a, k) } else { diag_hit(sqs, s, a, k) })
        == any_below(4, |k: int| diag_hit(sqs, s, a, k)));
}

proof fn lemma_pawn_attackers_len(sqs: Seq<Option<Piece>>, s: int, n: int)
    ensures
        pawn_attackers(sqs, s, n).len() <= if n < 0 { 0 } else { n },
    decreases n,
{
    if n > 0 {
        lemma_pawn_attackers_len(sqs, s, n - 1);
    }
}

proof fn lemma_offset_attackers_len(sqs: Seq<Option<Piece>>, s: int, pt: PieceType, n: int)
    ensures
        offset_attackers(sqs, s, pt, n).len() <= if n < 0 { 0 } else { n },
    decreases n,
{
    if n > 0 {
        lemma_offset_attackers_len(sqs, s, pt, n - 1);
    }
}

proof fn lemma_ray_attackers_len(sqs: Seq<Option<Piece>>, s: int, o: bool, n: int)
    ensures
        ray_attackers(sqs, s, o, n).len() <= if n < 0 { 0 } else { n },
    decreases n,
{
    if n > 0 {
        lemma_ray_attackers_len(sqs, s, o, n - 1);
    }
}

impl Board {
    /// Walk a ray from `sq` in direction (dr, df), passing over invalid
    /// corner squares, and return the first piece found with its square.
    fn ray_find_piece(&self, sq: Square, dr: i8, df: i8) -> (r: Option<(Piece, Square)>)
        requires
            self.wf(),
            sq.0 < 196,
            unit_dir(dr as int, df as int),
        ensures
            match ray_first(self@.squares, sq.0 as int, dr as int, df as int) {
                Some((pc, i)) => r == Some((pc, Square(i as u8))) && 0 <= i < 196,
                None => r is None,
            },
    {
        proof {
            self.lemma_wf();
            lemma_ray_scan(self@.squares, sq.0 / 14 + dr, sq.0 % 14 + df, dr as int, df as int);
        }
        let mut rank: i8 = sq.rank() as i8 + dr;
        let mut file: i8 = sq.file() as i8 + df;
        while rank >= 0 && rank < 14 && file >= 0 && file < 14
            invariant
                self.wf(),
                unit_dir(dr as int, df as int),
                -1 <= rank <= 14,
                -1 <= file <= 14,
                ray_first(self@.squares, sq.0 as int, dr as int, df as int) == ray_scan(
                    self@.squares,
                    rank as int,
                    file as int,
                    dr as int,
                    df as int,
                ),
            decreases ray_measure(rank as int, file as int, dr as int, df as int),
        {
            let r = rank as u8;
            let f = file as u8;
            if crate::types::is_valid_square(r, f) {
                let idx = r as usize * 14 + f as usize;
                match self.piece_at(Square(idx as u8)) {
                    Some(piece) => {
                        return Some((piece, Square(idx as u8)));
                    },
                    None => {},
                }
            }
            rank = rank + dr;
            file = file + df;
        }
        None
    }

    fn at_offset(&self, sq: Square, dr: i8, df: i8) -> (r: Option<Piece>)
        requires
            self.wf(),
            sq.0 < 196,
            -2 <= dr <= 2,
            -2 <= df <= 2,
        ensures
            r == at_rf(self@.squares, sq.0 / 14 + dr, sq.0 % 14 + df),
    {
        let r = sq.rank() as i8 + dr;
        let f = sq.file() as i8 + df;
        if r >= 0 && r < 14 && f >= 0 && f < 14 && crate::types::is_valid_square(r as u8, f as u8) {
            self.piece_at(Square((r as u8) * 14 + f as u8))
        } else {
            None
        }
    }

    /// Whether a square is attacked by any piece of the given player.
    pub fn is_square_attacked_by(&self, sq: Square, attacker: Player) -> (r: bool)
        requires
            self.wf(),
            sq.0 < 196,
        ensures
            r == attacked_by(self@.squares, sq.0 as int, pidx(attacker)),
    {
        let ghost sqs = self@.squares;
        let ghost s = sq.0 as int;
        let ghost a = pidx(attacker);
        let ai = attacker.index();
        assert(a < 4);
        let pawn = Piece::new(PieceType::Pawn, attacker);
        let mut found = false;
        let mut k: usize = 0;
        while k < 2
            invariant
                self.wf(),
                sq.0 < 196,
                ai == a,
                a < 4,
                pawn == (Piece { piece_type: PieceType::Pawn, player: player_at(a) }),
                k <= 2,
                found == any_below(k as int, |j: int| pawn_hit(sqs, s, a, j)),
                sqs == self@.squares,
                s == sq.0,
            decreases 2 - k,
        {
            let (dr, df) = pawn_cap_exec(ai, k);
            let hit = self.at_offset(sq, -dr, -df) == Some(pawn);
            found = found || hit;
            k += 1;
        }
        let f_pawn = found;
        let knight = Piece::new(PieceType::Knight, attacker);
        found = false;
        k = 0;
        while k < 8
            invariant
                self.wf(),
                sq.0 < 196,
                knight == (Piece { piece_type: PieceType::Knight, player: player_at(a) }),
                k <= 8,
                found == any_below(k as int, |j: int| knight_hit(sqs, s, a, j)),
                sqs == self@.squares,
                s == sq.0,
            decreases 8 - k,
        {
            let (dr, df) = knight_off_exec(k);
            let hit = self.at_offset(sq, dr, df) == Some(knight);
            found = found || hit;
            k += 1;
        }
        let f_knight = found;
        let king = Piece::new(PieceType::King, attacker);
        found = false;
        k = 0;
        while k < 8
            invariant
                self.wf(),
                sq.0 < 196,
                king == (Piece { piece_type: PieceType::King, player: player_at(a) }),
                k <= 8,
                found == any_below(k as int, |j: int| king_hit(sqs, s, a, j)),
                sqs == self@.squares,
                s == sq.0,
            decreases 8 - k,
        {
            let (dr, df) = any_dir_exec(k);
            let hit = self.at_offset(sq, dr, df) == Some(king);
            found = found || hit;
            k += 1;
        }
        let f_king = found;
        found = false;
        k = 0;
        while k < 4
            invariant
                self.wf(),
                sq.0 < 196,
                k <= 4,
                found == any_below(k as int, |j: int| ortho_hit(sqs, s, a, j)),
                sqs == self@.squares,
                s == sq.0,
                ai == a,
            decreases 4 - k,
        {
            let (dr, df) = ortho_dir_exec(k);
            let hit = match self.ray_find_piece(sq, dr, df) {
                Some((piece, _)) => piece.player.index() == ai && (piece.piece_type
                    == PieceType::Rook || piece.piece_type == PieceType::Queen || piece.piece_type
                    == PieceType::PromotedQueen),
                None => false,
            };
            found = found || hit;
            k += 1;
        }
        let f_ortho = found;
        found = false;
        k = 0;
        while k < 4
            invariant
                self.wf(),
                sq.0 < 196,
                k <= 4,
                found == any_below(k as int, |j: int| diag_hit(sqs, s, a, j)),
                sqs == self@.squares,
                s == sq.0,
                ai == a,
            decreases 4 - k,
        {
            let (dr, df) = diag_dir_exec(k);
            let hit = match self.ray_find_piece(sq, dr, df) {
                Some((piece, _)) => piece.player.index() == ai && (piece.piece_type
                    == PieceType::Bishop || piece.piece_type == PieceType::Queen
                    || piece.piece_type == PieceType::PromotedQueen),
                None => false,
            };
            found = found || hit;
            k += 1;
        }
        f_pawn || f_knight || f_king || f_ortho || found
    }

    /// Full information about all pieces attacking a square.
    pub fn attackers_of(&self, sq: Square) -> (info: AttackInfo)
        requires
            self.wf(),
            sq.0 < 196,
        ensures
            info_matches(info, attackers_list(self@.squares, sq.0 as int)),
    {
        let ghost sqs = self@.squares;
        let ghost s = sq.0 as int;
        let mut l: Vec<(u8, u8)> = Vec::new();
        // Pawns of all players.
        let mut n: usize = 0;
        while n < 8
            invariant
                self.wf(),
                sq.0 < 196,
                n <= 8,
                sqs == self@.squares,
                s == sq.0,
                forall|j: int| 0 <= j < l@.len() ==> #[trigger] l@[j].1 < 4,
                l@.map_values(|e: (u8, u8)| (e.0 as int, e.1 as int)) == pawn_attackers(
                    sqs,
                    s,
                    n as int,
                ),
            decreases 8 - n,
        {
            let a = n / 2;
            let k = n % 2;
            let (dr, df) = pawn_cap_exec(a, k);
            let attacker = Player::from_index(a as u8).unwrap();
            let pawn = Piece::new(PieceType::Pawn, attacker);
            let ghost before = l@;
            if self.at_offset(sq, -dr, -df) == Some(pawn) {
                let pr = (sq.rank() as i8 - dr) as u8;
                let pf = (sq.file() as i8 - df) as u8;
                l.push((pr * 14 + pf, a as u8));
                proof {
                    assert(l@ == before.push(((pr * 14 + pf) as u8, a as u8)));
                    assert(l@.map_values(|e: (u8, u8)| (e.0 as int, e.1 as int)) =~= before.map_values(
                        |e: (u8, u8)| (e.0 as int, e.1 as int),
                    ).push(((pr * 14 + pf) as int, a as int)));
                }
            }
            n += 1;
        }
        let ghost l1 = l@;
        // Knights and kings of all players.
        let mut pass: usize = 0;
        while pass < 2
            invariant
                self.wf(),
                sq.0 < 196,
                pass <= 2,
                sqs == self@.squares,
                s == sq.0,
                forall|j: int| 0 <= j < l@.len() ==> #[trigger] l@[j].1 < 4,
                l@.map_values(|e: (u8, u8)| (e.0 as int, e.1 as int)) == pawn_attackers(sqs, s, 8)
                    + (if pass >= 1 {
                    offset_attackers(sqs, s, PieceType::Knight, 8)
                } else {
                    Seq::empty()
                }) + (if pass >= 2 {
                    offset_attackers(sqs, s, PieceType::King, 8)
                } else {
                    Seq::empty()
                }),
            decreases 2 - pass,
        {
            let pt = if pass == 0 {
                PieceType::Knight
            } else {
                PieceType::King
            };
            let ghost base = l@.map_values(|e: (u8, u8)| (e.0 as int, e.1 as int));
            let mut n: usize = 0;
            while n < 8
                invariant
                    self.wf(),
                    sq.0 < 196,
                    n <= 8,
                    sqs == self@.squares,
                    s == sq.0,
                    pt == PieceType::Knight || pt == PieceType::King,
                    forall|j: int| 0 <= j < l@.len() ==> #[trigger] l@[j].1 < 4,
                    l@.map_values(|e: (u8, u8)| (e.0 as int, e.1 as int)) == base + offset_attackers(
                        sqs,
                        s,
                        pt,
                        n as int,
                    ),
                decreases 8 - n,
            {
                let (dr, df) = if pt == PieceType::Knight {
                    knight_off_exec(n)
                } else {
                    any_dir_exec(n)
                };
                let ghost before = l@;
                match self.at_offset(sq, dr, df) {
                    Some(piece) => {
                        if piece.piece_type == pt {
                            let r = (sq.rank() as i8 + dr) as u8;
                            let f = (sq.file() as i8 + df) as u8;
                            l.push((r * 14 + f, piece.player.index() as u8));
                            proof {
                                assert(l@.map_values(|e: (u8, u8)| (e.0 as int, e.1 as int))
                                    =~= before.map_values(|e: (u8, u8)| (e.0 as int, e.1 as int)).push(
                                    ((r * 14 + f) as int, pidx(piece.player)),
                                ));
                            }
                        }
                    },
                    None => {},
                }
                n += 1;
            }
            proof {
                if pass == 0 {
                    assert(base + offset_attackers(sqs, s, PieceType::Knight, 8) =~= pawn_attackers(
                        sqs,
                        s,
                        8,
                    ) + offset_attackers(sqs, s, PieceType::Knight, 8) + Seq::empty());
                } else {
                    assert(base =~= pawn_attackers(sqs, s, 8) + offset_attackers(
                        sqs,
                        s,
                        PieceType::Knight,
                        8,
                    ) + Seq::empty());
                }
            }
            pass += 1;
        }
        // Sliders: orthogonal rays, then diagonal rays.
        pass = 0;
        let ghost l2 = l@.map_values(|e: (u8, u8)| (e.0 as int, e.1 as int));
        while pass < 2
            invariant
                self.wf(),
                sq.0 < 196,
                pass <= 2,
                sqs == self@.squares,
                s == sq.0,
                forall|j: int| 0 <= j < l@.len() ==> #[trigger] l@[j].1 < 4,
                l@.map_values(|e: (u8, u8)| (e.0 as int, e.1 as int)) == l2 + (if pass >= 1 {
                    ray_attackers(sqs, s, true, 4)
                } else {
                    Seq::empty()
                }) + (if pass >= 2 {
                    ray_attackers(sqs, s, false, 4)
                } else {
                    Seq::empty()
                }),
            decreases 2 - pass,
        {
            let ortho = pass == 0;
            let ghost base = l@.map_values(|e: (u8, u8)| (e.0 as int, e.1 as int));
            let mut n: usize = 0;
            while n < 4
                invariant
                    self.wf(),
                    sq.0 < 196,
                    n <= 4,
                    sqs == self@.squares,
                    s == sq.0,
                    forall|j: int| 0 <= j < l@.len() ==> #[trigger] l@[j].1 < 4,
                    l@.map_values(|e: (u8, u8)| (e.0 as int, e.1 as int)) == base + ray_attackers(
                        sqs,
                        s,
                        ortho,
                        n as int,
                    ),
                decreases 4 - n,
            {
                let (dr, df) = if ortho {
                    ortho_dir_exec(n)
                } else {
                    diag_dir_exec(n)
                };
                let ghost before = l@;
                match self.ray_find_piece(sq, dr, df) {
                    Some((piece, psq)) => {
                        let pt = piece.piece_type;
                        let slides = pt == PieceType::Queen || pt == PieceType::PromotedQueen || (
                        ortho && pt == PieceType::Rook) || (!ortho && pt == PieceType::Bishop);
                        if slides {
                            l.push((psq.0, piece.player.index() as u8));
                            proof {
                                assert(l@.map_values(|e: (u8, u8)| (e.0 as int, e.1 as int))
                                    =~= before.map_values(|e: (u8, u8)| (e.0 as int, e.1 as int)).push(
                                    (psq.0 as int, pidx(piece.player)),
                                ));
                            }
                        }
                    },
                    None => {},
                }
                n += 1;
            }
            proof {
                if pass == 0 {
                    assert(base + ray_attackers(sqs, s, true, 4) =~= l2 + ray_attackers(
                        sqs,
                        s,
                        true,
                        4,
                    ) + Seq::empty());
                } else {
                    assert(base =~= l2 + ray_attackers(sqs, s, true, 4) + Seq::empty());
                }
            }
            pass += 1;
        }
        let ghost full = l@.map_values(|e: (u8, u8)| (e.0 as int, e.1 as int));
        proof {
            lemma_pawn_attackers_len(sqs, s, 8);
            lemma_offset_attackers_len(sqs, s, PieceType::Knight, 8);
            lemma_offset_attackers_len(sqs, s, PieceType::King, 8);
            lemma_ray_attackers_len(sqs, s, true, 4);
            lemma_ray_attackers_len(sqs, s, false, 4);
            assert(full =~= attackers_list(sqs, s));
        }
        let mut info = AttackInfo::new();
        let mut i: usize = 0;
        while i < l.len()
            invariant
                l@.len() <= 32,
                full == l@.map_values(|e: (u8, u8)| (e.0 as int, e.1 as int)),
                i <= l@.len(),
                info.count == i,
                forall|j: int|
                    0 <= j < 16 ==> #[trigger] info.attacker_squares@[j] == if j < i {
                        Some(Square(l@[j].0))
                    } else {
                        None
                    },
                forall|p: int|
                    0 <= p < 4 ==> #[trigger] info.attacking_players@[p] == exists|j: int|
                        0 <= j < i && l@[j].1 == p,
                forall|j: int| 0 <= j < l@.len() ==> #[trigger] l@[j].1 < 4,
            decreases l@.len() - i,
        {
            let (sqi, pi) = l[i];
            let player = Player::from_index(pi).unwrap();
            let ghost old_players = info.attacking_players@;
            info.add_attacker(Square(sqi), player);
            proof {
                assert forall|p: int| 0 <= p < 4 implies #[trigger] info.attacking_players@[p]
                    == exists|j: int| 0 <= j < i + 1 && l@[j].1 == p by {
                    if p == pi {
                        assert(l@[i as int].1 == p);
                    } else {
                        if exists|j: int| 0 <= j < i + 1 && l@[j].1 == p {
                            let j = choose|j: int| 0 <= j < i + 1 && l@[j].1 == p;
                            assert(j != i);
                        }
                    }
                }
            }
            i += 1;
        }
        proof {
            assert forall|i: int| 0 <= i < 16 implies #[trigger] info.attacker_squares@[i] == if i
                < full.len() {
                Some(Square(full[i].0 as u8))
            } else {
                None
            } by {
                if i < full.len() {
                    assert(full[i].0 == l@[i].0);
                }
            }
            assert forall|p: int| 0 <= p < 4 implies #[trigger] info.attacking_players@[p] == exists|
                j: int,
            |
                0 <= j < full.len() && full[j].1 == p by {
                if exists|j: int| 0 <= j < full.len() && full[j].1 == p {
                    let j = choose|j: int| 0 <= j < full.len() && full[j].1 == p;
                    assert(l@[j].1 == full[j].1);
                }
                if exists|j: int| 0 <= j < l@.len() && l@[j].1 == p {
                    let j = choose|j: int| 0 <= j < l@.len() && l@[j].1 == p;
                    assert(l@[j].1 == full[j].1);
                }
            }
        }
        info
    }

    /// Whether a player's king is in check (attacked by any opponent).
    pub fn is_in_check(&self, player: Player) -> (r: bool)
        requires
            self.wf(),
        ensures
            r == in_check(self@, pidx(player)),
    {
        proof {
            self.lemma_wf();
        }
        let king_sq = self.king_square(player);
        if king_sq == 255 {
            return false;
        }
        let opps = player.opponents();
        let mut i: usize = 0;
        while i < 3
            invariant
                self.wf(),
                king_sq == self@.kings[pidx(player)],
                king_sq < 196,
                i <= 3,
                forall|j: int| 0 <= j < 3 ==> opps@[j] != player,
                forall|j: int|
                    0 <= j < i ==> !attacked_by(self@.squares, king_sq as int, pidx(opps@[j])),
                forall|o: int|
                    #[trigger] is_other_player(o, pidx(player)) ==> pidx(opps@[0]) == o || pidx(
                        opps@[1],
                    ) == o || pidx(opps@[2]) == o,
            decreases 3 - i,
        {
            if self.is_square_attacked_by(Square(king_sq), opps[i]) {
                proof {
                    assert(attacked_by(self@.squares, king_sq as int, pidx(opps@[i as int])));
                }
                return true;
            }
            i += 1;
        }
        proof {
            assert forall|o: int|
                0 <= o < 4 && o != pidx(player) implies !#[trigger] attacked_by(
                self@.squares,
                king_sq as int,
                o,
            ) by {
                assert(is_other_player(o, pidx(player)));
                assert(!attacked_by(self@.squares, king_sq as int, pidx(opps@[0])));
                assert(!attacked_by(self@.squares, king_sq as int, pidx(opps@[1])));
                assert(!attacked_by(self@.squares, king_sq as int, pidx(opps@[2])));
            }
        }
        false
    }
}

} // verus!
