//! Move ordering heuristics: killer moves, history heuristic, MVV-LVA scoring.
//!
//! Combines the transposition-table move, captures (MVV-LVA), promotions,
//! killer moves and the history heuristic into one move scoring function.

use vstd::prelude::*;
use vstd::seq_lib::group_to_multiset_ensures;
use vstd::multiset::group_multiset_properties;
use crate::eval::{piece_value, piece_value_of};
use crate::moves::Move;
use crate::types::{pidx, Player};

verus! {

// ─── Constants ─────────────────────────────────────────────────────────────

/// Maximum search depth (plies) the killer table covers.
pub const MAX_DEPTH: usize = 32;

/// Move ordering priority scores.
pub const TT_MOVE_SCORE: i32 = 1_000_000;
pub const PROMOTION_SCORE: i32 = 95_000;
pub const CAPTURE_BASE_SCORE: i32 = 100_000;
pub const KILLER_SCORE_0: i32 = 90_000;
pub const KILLER_SCORE_1: i32 = 80_000;

/// Number of from-to entries of the history table.
pub const HISTORY_SIZE: usize = 38416;

// ─── MVV-LVA ───────────────────────────────────────────────────────────────

/// The MVV-LVA score of a move: victim value times ten minus attacker
/// value, above the capture base; 0 for a quiet move.
pub open spec fn mvv_lva_of(mv: Move) -> int {
    match mv.captured_type() {
        Some(c) => CAPTURE_BASE_SCORE + piece_value_of(c) * 10 - piece_value_of(mv.moved()),
        None => 0,
    }
}

/// Score a capture using Most Valuable Victim - Least Valuable Attacker.
///
/// Higher score = better capture. Queen captured by pawn scores highest.
pub fn mvv_lva_score(mv: Move) -> (s: i32)
    ensures
        s == mvv_lva_of(mv),
{
    match mv.captured() {
        Some(captured) => {
            let victim = piece_value(captured) as i32;
            let attacker = piece_value(mv.piece_type()) as i32;
            CAPTURE_BASE_SCORE + victim * 10 - attacker
        },
        None => 0,
    }
}

// ─── Killer Table ──────────────────────────────────────────────────────────

/// Index of killer slot `s` of player index `p` at ply `ply`.
pub open spec fn kidx(ply: int, p: int, s: int) -> int {
    (ply * 4 + p) * 2 + s
}

/// Killer move table: 2 slots per ply per player.
///
/// Killer moves are quiet moves that caused score improvements or cutoffs
/// at sibling nodes. They are good candidates to try early.
pub struct KillerTable {
    table: Vec<Option<Move>>,
    hits: u64,
    probes: u64,
}

/// Which killer slot of `k` holds `mv` at `ply` for player index `p`.
pub open spec fn killer_slot_of(k: Seq<Option<Move>>, ply: int, p: int, mv: Move) -> Option<int> {
    if ply >= MAX_DEPTH {
        None
    } else if k[kidx(ply, p, 0)] == Some(mv) {
        Some(0)
    } else if k[kidx(ply, p, 1)] == Some(mv) {
        Some(1)
    } else {
        None
    }
}

impl KillerTable {
    /// The slots, flattened by ply, player and slot.
    pub closed spec fn slots(&self) -> Seq<Option<Move>> {
        self.table@
    }

    /// Number of killer hits recorded.
    pub closed spec fn hit_count(&self) -> u64 {
        self.hits
    }

    /// Number of killer probes recorded.
    pub closed spec fn probe_count(&self) -> u64 {
        self.probes
    }

    /// The table has its full size.
    pub closed spec fn wf(&self) -> bool {
        self.table@.len() == 256
    }

    /// A well-formed table has two slots per player for each of the
    /// `MAX_DEPTH` plies.
    pub proof fn lemma_slot_count(&self)
        requires
            self.wf(),
        ensures
            self.slots().len() == 256,
            self.slots().len() == MAX_DEPTH * 4 * 2,
    {
    }

    fn empty_slots() -> (t: Vec<Option<Move>>)
        ensures
            t@.len() == 256,
            forall|i: int| 0 <= i < 256 ==> t@[i] is None,
    {
        let mut t: Vec<Option<Move>> = Vec::new();
        let mut i: usize = 0;
        while i < 256
            invariant
                i <= 256,
                t@.len() == i,
                forall|j: int| 0 <= j < i ==> t@[j] is None,
            decreases 256 - i,
        {
            t.push(None);
            i += 1;
        }
        t
    }

    /// Create an empty killer table.
    pub fn new() -> (k: Self)
        ensures
            k.wf(),
            forall|i: int| 0 <= i < 256 ==> k.slots()[i] is None,
            k.hit_count() == 0,
            k.probe_count() == 0,
    {
        KillerTable { table: Self::empty_slots(), hits: 0, probes: 0 }
    }

    /// Clear all killer moves and reset statistics.
    pub fn clear(&mut self)
        ensures
            final(self).wf(),
            forall|i: int| 0 <= i < 256 ==> final(self).slots()[i] is None,
            final(self).hit_count() == 0,
            final(self).probe_count() == 0,
    {
        self.table = Self::empty_slots();
        self.hits = 0;
        self.probes = 0;
    }

    fn slot_matches(&self, i: usize, mv: Move) -> (r: bool)
        requires
            i < self.table@.len(),
        ensures
            r == (self.table@[i as int] == Some(mv)),
    {
        match self.table[i] {
            Some(m) => m == mv,
            None => false,
        }
    }

    /// Check if a move is a killer at this ply for this player.
    /// Updates the hit statistics.
    pub fn is_killer(&mut self, ply: usize, player: Player, mv: Move) -> (r: bool)
        requires
            old(self).wf(),
            old(self).hit_count() < u64::MAX,
        ensures
            final(self).wf(),
            r == (killer_slot_of(old(self).slots(), ply as int, pidx(player), mv) is Some),
            final(self).slots() == old(self).slots(),
            final(self).probe_count() == old(self).probe_count(),
            final(self).hit_count() == old(self).hit_count() + if r {
                1int
            } else {
                0int
            },
    {
        let is_k = self.is_killer_no_stats(ply, player, mv);
        if is_k {
            self.hits += 1;
        }
        is_k
    }

    /// Check if a move is a killer (without updating stats).
    pub fn is_killer_no_stats(&self, ply: usize, player: Player, mv: Move) -> (r: bool)
        requires
            self.wf(),
        ensures
            r == (killer_slot_of(self.slots(), ply as int, pidx(player), mv) is Some),
    {
        if ply >= MAX_DEPTH {
            return false;
        }
        let base = (ply * 4 + player.index()) * 2;
        self.slot_matches(base, mv) || self.slot_matches(base + 1, mv)
    }

    /// Which killer slot does this move match? 0, 1, or None.
    pub fn killer_slot(&self, ply: usize, player: Player, mv: Move) -> (r: Option<usize>)
        requires
            self.wf(),
        ensures
            match killer_slot_of(self.slots(), ply as int, pidx(player), mv) {
                Some(s) => r == Some(s as usize),
                None => r is None,
            },
    {
        if ply >= MAX_DEPTH {
            return None;
        }
        let base = (ply * 4 + player.index()) * 2;
        if self.slot_matches(base, mv) {
            Some(0)
        } else if self.slot_matches(base + 1, mv) {
            Some(1)
        } else {
            None
        }
    }

    /// Store a killer move: slot 0 shifts to slot 1 and the move takes
    /// slot 0, unless it is already in slot 0.
    /// Only call for quiet moves (not captures, not promotions).
    pub fn store(&mut self, ply: usize, player: Player, mv: Move)
        requires
            old(self).wf(),
        ensures
            final(self).wf(),
            final(self).hit_count() == old(self).hit_count(),
            final(self).probe_count() == old(self).probe_count(),
            ply >= MAX_DEPTH || old(self).slots()[kidx(ply as int, pidx(player), 0)] == Some(mv)
                ==> final(self).slots() == old(self).slots(),
            !(ply >= MAX_DEPTH || old(self).slots()[kidx(ply as int, pidx(player), 0)] == Some(mv))
                ==> final(self).slots() == old(self).slots().update(
                kidx(ply as int, pidx(player), 1),
                old(self).slots()[kidx(ply as int, pidx(player), 0)],
            ).update(kidx(ply as int, pidx(player), 0), Some(mv)),
            ply < MAX_DEPTH ==> killer_slot_of(final(self).slots(), ply as int, pidx(player), mv) == Some(0int),
            forall|m0: Move|
                ply < MAX_DEPTH && old(self).slots()[kidx(ply as int, pidx(player), 0)] == Some(m0) && m0 != mv
                    ==> #[trigger] killer_slot_of(final(self).slots(), ply as int, pidx(player), m0) == Some(1int),
    {
        if ply >= MAX_DEPTH {
            return ;
        }
        let base = (ply * 4 + player.index()) * 2;
        if self.slot_matches(base, mv) {
            return ;
        }
        let first = self.table[base];
        self.table.set(base + 1, first);
        self.table.set(base, Some(mv));
    }

    /// Increment the probe count (called when testing a quiet move).
    pub fn probe_increment(&mut self)
        requires
            old(self).probe_count() < u64::MAX,
        ensures
            final(self).slots() == old(self).slots(),
            final(self).wf() == old(self).wf(),
            final(self).hit_count() == old(self).hit_count(),
            final(self).probe_count() == old(self).probe_count() + 1,
    {
        self.probes += 1;
    }

    /// Get killer statistics: (hits, probes).
    pub fn stats(&self) -> (r: (u64, u64))
        ensures
            r == (self.hit_count(), self.probe_count()),
    {
        (self.hits, self.probes)
    }
}

// ─── History Table ─────────────────────────────────────────────────────────

/// History heuristic table: from-to scoring for quiet move ordering.
///
/// Updated when a quiet move produces a score improvement or a cutoff,
/// with a depth-squared bonus so that deeper results weigh more.
pub struct HistoryTable {
    table: Vec<u32>,
}

/// Index of the from-to pair in the history table.
pub open spec fn hidx(from: int, to: int) -> int {
    from * 196 + to
}

/// Every entry halved.
pub open spec fn halved(t: Seq<u32>) -> Seq<u32> {
    Seq::new(t.len(), |i: int| t[i] / 2)
}

/// The table after adding `bonus` (saturating) to entry `i`, then halving
/// everything if that entry went above one million.
pub open spec fn history_after_update(t: Seq<u32>, i: int, bonus: int) -> Seq<u32> {
    let e = if t[i] + bonus > u32::MAX {
        u32::MAX as int
    } else {
        t[i] + bonus
    };
    let t1 = t.update(i, e as u32);
    if e > 1_000_000 {
        halved(t1)
    } else {
        t1
    }
}

impl HistoryTable {
    /// The entries, indexed by `from * 196 + to`.
    pub closed spec fn entries(&self) -> Seq<u32> {
        self.table@
    }

    fn zeros() -> (t: Vec<u32>)
        ensures
            t@.len() == HISTORY_SIZE,
            forall|i: int| 0 <= i < HISTORY_SIZE ==> t@[i] == 0,
    {
        let mut t: Vec<u32> = Vec::new();
        let mut i: usize = 0;
        while i < HISTORY_SIZE
            invariant
                i <= HISTORY_SIZE,
                t@.len() == i,
                forall|j: int| 0 <= j < i ==> t@[j] == 0,
            decreases HISTORY_SIZE - i,
        {
            t.push(0);
            i += 1;
        }
        t
    }

    /// Create a zeroed history table.
    pub fn new() -> (h: Self)
        ensures
            h.entries().len() == HISTORY_SIZE,
            forall|i: int| 0 <= i < HISTORY_SIZE ==> h.entries()[i] == 0,
    {
        HistoryTable { table: Self::zeros() }
    }

    /// Clear all history scores.
    pub fn clear(&mut self)
        ensures
            final(self).entries().len() == HISTORY_SIZE,
            forall|i: int| 0 <= i < HISTORY_SIZE ==> final(self).entries()[i] == 0,
    {
        self.table = Self::zeros();
    }

    /// Get the history score for a from-to pair.
    pub fn get(&self, from: u8, to: u8) -> (v: u32)
        requires
            self.entries().len() == HISTORY_SIZE,
            from < 196,
            to < 196,
        ensures
            v == self.entries()[hidx(from as int, to as int)],
    {
        self.table[from as usize * 196 + to as usize]
    }

    /// Add the depth-squared bonus to a from-to entry (saturating), halving
    /// the whole table once that entry exceeds one million.
    pub fn update(&mut self, from: u8, to: u8, depth: u32)
        requires
            old(self).entries().len() == HISTORY_SIZE,
            from < 196,
            to < 196,
            depth * depth <= u32::MAX,
        ensures
            final(self).entries() == history_after_update(
                old(self).entries(),
                hidx(from as int, to as int),
                depth * depth,
            ),
    {
        let bonus = depth * depth;
        let i = from as usize * 196 + to as usize;
        let entry = self.table[i].saturating_add(bonus);
        self.table.set(i, entry);
        if entry > 1_000_000 {
            self.age();
        }
    }

    /// Age the table: halve all entries.
    pub fn age(&mut self)
        ensures
            final(self).entries() == halved(old(self).entries()),
    {
        let n = self.table.len();
        let mut i: usize = 0;
        while i < n
            invariant
                n == self.table@.len(),
                n == old(self).table@.len(),
                i <= n,
                forall|j: int| 0 <= j < i ==> self.table@[j] == old(self).table@[j] / 2,
                forall|j: int| i <= j < n ==> self.table@[j] == old(self).table@[j],
            decreases n - i,
        {
            let v = self.table[i] >> 1u32;
            proof {
                let x = old(self).table@[i as int];
                assert(x >> 1u32 == x / 2) by (bit_vector);
            }
            self.table.set(i, v);
            i += 1;
        }
        proof {
            assert(self.table@ =~= halved(old(self).table@));
        }
    }

    /// The raw entries, indexed by `from * 196 + to`.
    pub fn raw(&self) -> (r: &Vec<u32>)
        ensures
            r@ == self.entries(),
    {
        &self.table
    }
}

// ─── Move Scoring ──────────────────────────────────────────────────────────

/// The ordering score of a move: the TT move first, then captures by
/// MVV-LVA, promotions, killer slot 0, killer slot 1, then the history
/// score.
pub open spec fn move_score(
    mv: Move,
    tt_move: Option<Move>,
    k: Seq<Option<Move>>,
    h: Seq<u32>,
    ply: int,
    p: int,
) -> int {
    if tt_move == Some(mv) {
        TT_MOVE_SCORE as int
    } else if mv.captured_type() is Some {
        mvv_lva_of(mv)
    } else if mv.promotion_type() is Some {
        PROMOTION_SCORE as int
    } else {
        match killer_slot_of(k, ply, p, mv) {
            Some(s) => if s == 0 {
                KILLER_SCORE_0 as int
            } else {
                KILLER_SCORE_1 as int
            },
            None => (h[hidx(mv.from_idx(), mv.to_idx())] as i32) as int,
        }
    }
}

/// The ordering bands, highest first: the transposition-table move, then
/// captures by MVV-LVA, then promotions, then killer slot 0, then killer
/// slot 1, then the history score (for history values below the killer
/// scores).
pub proof fn lemma_score_bands(
    mv: Move,
    tt_move: Option<Move>,
    k: Seq<Option<Move>>,
    h: Seq<u32>,
    ply: int,
    p: int,
)
    ensures
        tt_move == Some(mv) ==> move_score(mv, tt_move, k, h, ply, p) == 1_000_000,
        tt_move != Some(mv) && mv.captured_type() is Some ==> 99_100 <= move_score(mv, tt_move, k, h, ply, p)
            <= 109_000,
        tt_move != Some(mv) && mv.captured_type() is None && mv.promotion_type() is Some ==> move_score(
            mv,
            tt_move,
            k,
            h,
            ply,
            p,
        ) == 95_000,
        tt_move != Some(mv) && mv.captured_type() is None && mv.promotion_type() is None && killer_slot_of(
            k,
            ply,
            p,
            mv,
        ) == Some(0int) ==> move_score(mv, tt_move, k, h, ply, p) == 90_000,
        tt_move != Some(mv) && mv.captured_type() is None && mv.promotion_type() is None && killer_slot_of(
            k,
            ply,
            p,
            mv,
        ) == Some(1int) ==> move_score(mv, tt_move, k, h, ply, p) == 80_000,
        tt_move != Some(mv) && mv.captured_type() is None && mv.promotion_type() is None && killer_slot_of(
            k,
            ply,
            p,
            mv,
        ) is None && h[hidx(mv.from_idx(), mv.to_idx())] < 80_000 ==> 0 <= move_score(mv, tt_move, k, h, ply, p)
            < 80_000,
{
    if tt_move != Some(mv) && mv.captured_type() is Some {
        let c = mv.captured_type()->0;
        assert(0 <= crate::eval::piece_value_of(c) <= 900);
        assert(0 <= crate::eval::piece_value_of(mv.moved()) <= 900);
    }
}

/// Score a single move for ordering purposes; higher searches first.
pub fn score_move(
    mv: Move,
    tt_move: Option<Move>,
    killers: &KillerTable,
    history: &HistoryTable,
    ply: usize,
    player: Player,
) -> (s: i32)
    requires
        killers.wf(),
        history.entries().len() == HISTORY_SIZE,
        mv.from_idx() < 196,
        mv.to_idx() < 196,
    ensures
        s == move_score(mv, tt_move, killers.slots(), history.entries(), ply as int, pidx(player)),
{
    let is_tt = match tt_move {
        Some(t) => t == mv,
        None => false,
    };
    if is_tt {
        return TT_MOVE_SCORE;
    }
    if mv.is_capture() {
        return mvv_lva_score(mv);
    }
    if mv.promotion().is_some() {
        return PROMOTION_SCORE;
    }
    match killers.killer_slot(ply, player, mv) {
        Some(slot) => {
            return if slot == 0 {
                KILLER_SCORE_0
            } else {
                KILLER_SCORE_1
            };
        },
        None => {},
    }
    let h = history.get(mv.from_sq().0, mv.to_sq().0);
    h as i32
}

// ─── Sorting ───────────────────────────────────────────────────────────────

/// Sort moves by descending score, where `scores[k]` is `f(moves[k])`.
fn sort_by_scores(moves: &mut Vec<Move>, scores: &mut Vec<i32>, Ghost(f): Ghost<spec_fn(Move) -> int>)
    requires
        old(moves)@.len() == old(scores)@.len(),
        forall|k: int| 0 <= k < old(scores)@.len() ==> old(scores)@[k] == f(old(moves)@[k]),
    ensures
        final(moves)@.len() == final(scores)@.len(),
        final(moves)@.to_multiset() == old(moves)@.to_multiset(),
        forall|k: int| 0 <= k < final(scores)@.len() ==> final(scores)@[k] == f(final(moves)@[k]),
        forall|a: int, b: int| 0 <= a < b < final(scores)@.len() ==> final(scores)@[a] >= final(scores)@[b],
{
    broadcast use group_to_multiset_ensures, group_multiset_properties;

    let n = moves.len();
    if n == 0 {
        return ;
    }
    let mut i: usize = 1;
    while i < n
        invariant
            n == moves@.len(),
            n == scores@.len(),
            1 <= i <= n,
            moves@.to_multiset() == old(moves)@.to_multiset(),
            forall|k: int| 0 <= k < n ==> scores@[k] == f(moves@[k]),
            forall|a: int, b: int| 0 <= a < b < i ==> scores@[a] >= scores@[b],
        decreases n - i,
    {
        let mut j: usize = i;
        while j > 0 && scores[j - 1] < scores[j]
            invariant
                n == moves@.len(),
                n == scores@.len(),
                0 <= j <= i < n,
                moves@.to_multiset() == old(moves)@.to_multiset(),
                forall|k: int| 0 <= k < n ==> scores@[k] == f(moves@[k]),
                forall|a: int, b: int| 0 <= a < b <= i && a != j && b != j ==> scores@[a] >= scores@[b],
                forall|b: int| j < b <= i ==> scores@[j as int] > scores@[b],
            decreases j,
        {
            let x = moves[j];
            let y = moves[j - 1];
            let sx = scores[j];
            let sy = scores[j - 1];
            let ghost m0 = moves@;
            moves.set(j, y);
            moves.set(j - 1, x);
            scores.set(j, sy);
            scores.set(j - 1, sx);
            proof {
                let m1 = m0.update(j as int, y);
                assert(moves@ == m1.update(j - 1, x));
                vstd::seq_lib::to_multiset_update(m0, j as int, y);
                vstd::seq_lib::to_multiset_update(m1, j - 1, x);
                assert(m1[j - 1] == y);
                assert(m0[j as int] == x);
                vstd::seq_lib::to_multiset_contains(m0, x);
                assert(m0.contains(x)) by {
                    assert(m0[j as int] == x);
                }
                assert(moves@.to_multiset() =~= m0.to_multiset());
            }
            j -= 1;
        }
        i += 1;
    }
}

/// The ordering score of `m` in this context.
pub open spec fn score_in(
    tt_move: Option<Move>,
    k: Seq<Option<Move>>,
    h: Seq<u32>,
    ply: int,
    p: int,
) -> spec_fn(Move) -> int {
    |m: Move| move_score(m, tt_move, k, h, ply, p)
}

/// Score and sort a move list in place, by descending score. Moves of
/// equal score come in no promised order.
pub fn order_moves(
    moves: &mut Vec<Move>,
    tt_move: Option<Move>,
    killers: &KillerTable,
    history: &HistoryTable,
    ply: usize,
    player: Player,
)
    requires
        killers.wf(),
        history.entries().len() == HISTORY_SIZE,
        forall|i: int|
            0 <= i < old(moves)@.len() ==> (#[trigger] old(moves)@[i]).from_idx() < 196
                && old(moves)@[i].to_idx() < 196,
    ensures
        final(moves)@.to_multiset() == old(moves)@.to_multiset(),
        forall|a: int, b: int|
            0 <= a < b < final(moves)@.len() ==> score_in(
                tt_move,
                killers.slots(),
                history.entries(),
                ply as int,
                pidx(player),
            )(final(moves)@[a]) >= score_in(
                tt_move,
                killers.slots(),
                history.entries(),
                ply as int,
                pidx(player),
            )(final(moves)@[b]),
{
    let ghost f = score_in(tt_move, killers.slots(), history.entries(), ply as int, pidx(player));
    let mut scores: Vec<i32> = Vec::new();
    let mut i: usize = 0;
    while i < moves.len()
        invariant
            killers.wf(),
            history.entries().len() == HISTORY_SIZE,
            moves@ == old(moves)@,
            i <= moves@.len(),
            scores@.len() == i,
            f == score_in(tt_move, killers.slots(), history.entries(), ply as int, pidx(player)),
            forall|k: int| 0 <= k < i ==> scores@[k] == f(moves@[k]),
            forall|k: int|
                0 <= k < moves@.len() ==> (#[trigger] moves@[k]).from_idx() < 196 && moves@[k].to_idx()
                    < 196,
        decreases moves@.len() - i,
    {
        let mv = moves[i];
        let s = score_move(mv, tt_move, killers, history, ply, player);
        scores.push(s);
        i += 1;
    }
    sort_by_scores(moves, &mut scores, Ghost(f));
    proof {
        assert forall|a: int, b: int| 0 <= a < b < moves@.len() implies f(moves@[a]) >= f(
            moves@[b],
        ) by {
            assert(scores@[a] == f(moves@[a]));
            assert(scores@[b] == f(moves@[b]));
        }
    }
}

/// Sort captures by descending MVV-LVA score (for quiescence search).
/// Moves of equal score come in no promised order.
pub fn order_captures_mvv_lva(captures: &mut Vec<Move>)
    ensures
        final(captures)@.to_multiset() == old(captures)@.to_multiset(),
        forall|a: int, b: int|
            0 <= a < b < final(captures)@.len() ==> mvv_lva_of(final(captures)@[a]) >= mvv_lva_of(
                final(captures)@[b],
            ),
{
    let ghost f = |m: Move| mvv_lva_of(m);
    let mut scores: Vec<i32> = Vec::new();
    let mut i: usize = 0;
    while i < captures.len()
        invariant
            captures@ == old(captures)@,
            i <= captures@.len(),
            scores@.len() == i,
            f == (|m: Move| mvv_lva_of(m)),
            forall|k: int| 0 <= k < i ==> scores@[k] == f(captures@[k]),
        decreases captures@.len() - i,
    {
        let s = mvv_lva_score(captures[i]);
        scores.push(s);
        i += 1;
    }
    sort_by_scores(captures, &mut scores, Ghost(f));
    proof {
        assert forall|a: int, b: int| 0 <= a < b < captures@.len() implies mvv_lva_of(
            captures@[a],
        ) >= mvv_lva_of(captures@[b]) by {
            assert(scores@[a] == f(captures@[a]));
            assert(scores@[b] == f(captures@[b]));
        }
    }
}

} // verus!
