//! Integer parts of the Monte Carlo tree search: the LCG generator, the
//! lightweight opponent policy and the Sequential Halving schedule.

use vstd::prelude::*;
use vstd::arithmetic::power2::pow2;
use crate::board::{Board, BoardState};
use crate::legal::{
    all_makeable, canon_legal, generate_captures_only, generate_legal_moves, gives_check, gives_mate, is_capture_move,
    lemma_canon_hash_free, lemma_legal_contains, lemma_legal_count, lemma_made_consistent, legal_moves, makeable,
};
use crate::makemove::{applicable, kings_consistent, made, make_move, unmake_move};
use crate::move_order::{mvv_lva_of, mvv_lva_score};
use crate::moves::Move;
use crate::search::{legal_in_position, lemma_captures_legal, lemma_contained_legal};

verus! {

/// LCG multiplier.
pub const LCG_A: u64 = 6364136223846793005;

/// LCG increment.
pub const LCG_C: u64 = 1442695040888963407;

/// One step of the 64-bit LCG: multiply and add, wrapping.
pub open spec fn lcg_step(s: u64) -> u64 {
    ((s as int * LCG_A as int + LCG_C as int) % 0x1_0000_0000_0000_0000) as u64
}

/// Advance the LCG state and return it.
pub fn lcg_next(state: &mut u64) -> (r: u64)
    ensures
        r == lcg_step(*old(state)),
        *final(state) == r,
{
    let s = *state as u128;
    assert(s * (LCG_A as u128) <= 0xffff_ffff_ffff_ffffu128 * 0x7fff_ffff_ffff_ffffu128) by (nonlinear_arith)
        requires
            s <= 0xffff_ffff_ffff_ffffu128,
            LCG_A <= 0x7fff_ffff_ffff_ffffu64,
    ;
    let v = (s * (LCG_A as u128) + (LCG_C as u128)) % 0x1_0000_0000_0000_0000u128;
    *state = v as u64;
    *state
}

// ─── Lightweight opponent policy ────────────────────────────────────────────

/// Index of the last maximum of `key` over the first `n` moves (the choice
/// of an iterator's `max_by_key`).
pub open spec fn last_max(s: Seq<Move>, key: spec_fn(Move) -> int, n: int) -> int
    decreases n,
{
    if n <= 1 {
        0
    } else {
        let j = last_max(s, key, n - 1);
        if key(s[n - 1]) >= key(s[j]) {
            n - 1
        } else {
            j
        }
    }
}

/// History score of a move in a flat 196 x 196 table.
pub open spec fn history_of(h: Seq<u32>, m: Move) -> int {
    h[m.from_idx() * 196 + m.to_idx()] as int
}

/// The legal move with the best history score (the last of equals).
pub open spec fn hist_best(h: Seq<u32>, legals: Seq<Move>) -> Move {
    legals[last_max(legals, |m: Move| history_of(h, m), legals.len() as int)]
}

/// A history table is given and its best move has a positive score.
pub open spec fn hist_fires(history: Option<Seq<u32>>, legals: Seq<Move>) -> bool {
    match history {
        Some(h) => history_of(h, hist_best(h, legals)) > 0,
        None => false,
    }
}

/// The lightweight policy's choice from what the board scan found: a mating
/// move, else the best capture by MVV-LVA (the last of equals), else the
/// first checking move, else the best history move when its score is
/// positive, else a move picked by the next LCG value.
pub open spec fn oma_choice(
    mate: Option<Move>,
    captures: Seq<Move>,
    first_check: Option<Move>,
    legals: Seq<Move>,
    history: Option<Seq<u32>>,
    rng: u64,
) -> Option<Move> {
    if legals.len() == 0 {
        None
    } else if mate is Some {
        mate
    } else if captures.len() > 0 {
        Some(captures[last_max(captures, |m: Move| mvv_lva_of(m), captures.len() as int)])
    } else if first_check is Some {
        first_check
    } else if hist_fires(history, legals) {
        Some(hist_best(history.unwrap(), legals))
    } else {
        Some(legals[(((lcg_step(rng) >> 33u64) as int) % (legals.len() as int))])
    }
}

/// Whether the random fallback of [`oma_choice`] is taken (and the
/// generator advanced).
pub open spec fn oma_uses_rng(
    mate: Option<Move>,
    captures: Seq<Move>,
    first_check: Option<Move>,
    legals: Seq<Move>,
    history: Option<Seq<u32>>,
) -> bool {
    legals.len() > 0 && mate is None && captures.len() == 0 && first_check is None && !hist_fires(history, legals)
}

/// The contents of an optional history table.
pub open spec fn hist_view(history: Option<&Vec<u32>>) -> Option<Seq<u32>> {
    match history {
        Some(h) => Some(h@),
        None => None,
    }
}

proof fn lemma_last_max_range(s: Seq<Move>, key: spec_fn(Move) -> int, n: int)
    requires
        n >= 1,
    ensures
        0 <= last_max(s, key, n) < n,
    decreases n,
{
    if n > 1 {
        lemma_last_max_range(s, key, n - 1);
    }
}

proof fn lemma_last_max_is_max(s: Seq<Move>, key: spec_fn(Move) -> int, n: int)
    requires
        1 <= n <= s.len(),
    ensures
        forall|j: int| 0 <= j < n ==> key(#[trigger] s[j]) <= key(s[last_max(s, key, n)]),
    decreases n,
{
    if n > 1 {
        lemma_last_max_is_max(s, key, n - 1);
        lemma_last_max_range(s, key, n - 1);
    }
}

/// Some legal move of position `st` satisfies `pred`.
pub open spec fn some_legal(st: BoardState, pred: spec_fn(Move) -> bool) -> bool {
    exists|m: Move| #[trigger] canon_legal(st).contains(m) && pred(m)
}

fn last_max_mvv(s: &Vec<Move>) -> (i: usize)
    requires
        s@.len() > 0,
    ensures
        i == last_max(s@, |m: Move| mvv_lva_of(m), s@.len() as int),
        i < s@.len(),
{
    let mut best: usize = 0;
    let mut best_key = mvv_lva_score(s[0]);
    let mut k: usize = 1;
    while k < s.len()
        invariant
            1 <= k <= s@.len(),
            best < k,
            best == last_max(s@, |m: Move| mvv_lva_of(m), k as int),
            best_key == mvv_lva_of(s@[best as int]),
        decreases s.len() - k,
    {
        let key = mvv_lva_score(s[k]);
        if key >= best_key {
            best = k;
            best_key = key;
        }
        k = k + 1;
    }
    best
}

fn last_max_history(s: &Vec<Move>, h: &Vec<u32>) -> (i: usize)
    requires
        s@.len() > 0,
        h@.len() == 38416,
        forall|j: int| 0 <= j < s@.len() ==> 0 <= (#[trigger] s@[j]).from_idx() < 196 && 0 <= s@[j].to_idx() < 196,
    ensures
        i == last_max(s@, |m: Move| history_of(h@, m), s@.len() as int),
        i < s@.len(),
{
    let m0 = s[0];
    let mut best: usize = 0;
    let mut best_key = h[(m0.from_sq().0 as usize) * 196 + m0.to_sq().0 as usize];
    let mut k: usize = 1;
    while k < s.len()
        invariant
            1 <= k <= s@.len(),
            h@.len() == 38416,
            forall|j: int| 0 <= j < s@.len() ==> 0 <= (#[trigger] s@[j]).from_idx() < 196 && 0 <= s@[j].to_idx() < 196,
            best < k,
            best == last_max(s@, |m: Move| history_of(h@, m), k as int),
            best_key as int == history_of(h@, s@[best as int]),
        decreases s.len() - k,
    {
        let m = s[k];
        assert(m == s@[k as int]);
        let key = h[(m.from_sq().0 as usize) * 196 + m.to_sq().0 as usize];
        if key >= best_key {
            best = k;
            best_key = key;
        }
        k = k + 1;
    }
    best
}

/// Pick a move for an opponent from what the board scan found (see
/// [`oma_choice`]). The generator advances only when the random fallback is
/// used.
pub fn oma_choose(
    mate: Option<Move>,
    captures: &Vec<Move>,
    first_check: Option<Move>,
    legals: &Vec<Move>,
    history: Option<&Vec<u32>>,
    rng: &mut u64,
) -> (r: Option<Move>)
    requires
        history matches Some(h) ==> h@.len() == 38416,
        forall|j: int| 0 <= j < legals@.len() ==> 0 <= (#[trigger] legals@[j]).from_idx() < 196 && 0 <= legals@[j].to_idx() < 196,
    ensures
        r == oma_choice(mate, captures@, first_check, legals@, hist_view(history), *old(rng)),
        *final(rng) == (if oma_uses_rng(mate, captures@, first_check, legals@, hist_view(history)) {
            lcg_step(*old(rng))
        } else {
            *old(rng)
        }),
{
    if legals.len() == 0 {
        return None;
    }
    if mate.is_some() {
        return mate;
    }
    if captures.len() > 0 {
        let i = last_max_mvv(captures);
        return Some(captures[i]);
    }
    if first_check.is_some() {
        return first_check;
    }
    match history {
        Some(h) => {
            let i = last_max_history(legals, h);
            let m = legals[i];
            if h[(m.from_sq().0 as usize) * 196 + m.to_sq().0 as usize] > 0 {
                return Some(m);
            }
        },
        None => {},
    }
    let v = lcg_next(rng);
    let hi = v >> 33u64;
    assert(hi < 0x8000_0000u64) by (bit_vector)
        requires
            hi == v >> 33u64,
    ;
    let idx = (hi as usize) % legals.len();
    Some(legals[idx])
}


// ─── Board scan of the lightweight policy ───────────────────────────────────

proof fn lemma_applicable_frame(a: BoardState, b: BoardState, m: Move)
    requires
        a.squares == b.squares,
        a.stm == b.stm,
        a.ep == b.ep,
        a.ep_player == b.ep_player,
    ensures
        applicable(a, m) == applicable(b, m),
{
}

/// Make a move, see whether it checks the next player and, if so, whether
/// that player has no legal reply, then unmake it. The board comes back as
/// it was but for the king squares.
fn probe_check(board: &mut Board, mv: Move, Ghost(st): Ghost<BoardState>) -> (r: (bool, bool))
    requires
        old(board).wf(),
        old(board)@ == (BoardState { kings: old(board)@.kings, ..st }),
        makeable(st, mv),
    ensures
        final(board).wf(),
        final(board)@ == (BoardState { kings: final(board)@.kings, ..st }),
        r.1 ==> r.0,
        kings_consistent(st) && old(board)@ == st ==> final(board)@ == st && r.0 == gives_check(st, mv) && r.1
            == gives_mate(st, mv),
{
    let ghost cur = board@;
    proof {
        board.lemma_wf();
        lemma_applicable_frame(st, cur, mv);
        crate::makemove::lemma_make_unmake_squares(cur, mv);
        if kings_consistent(st) && cur == st {
            lemma_made_consistent(st, mv);
        }
    }
    let undo = make_move(board, mv);
    let ghost post = board@;
    proof {
        if kings_consistent(st) && cur == st {
            lemma_canon_hash_free(post, made(st, mv));
            assert(post.squares == made(st, mv).squares && post.kings == made(st, mv).kings);
            assert(kings_consistent(post));
        }
    }
    let next = board.side_to_move();
    let check = board.is_in_check(next);
    let mut mate = false;
    if check {
        let ghost bp = *board;
        let responses = generate_legal_moves(board);
        mate = responses.len() == 0;
        proof {
            assert(crate::board::full_hash(board@) == crate::board::full_hash(post));
            if kings_consistent(st) && cur == st {
                lemma_legal_count(bp);
            }
        }
    }
    proof {
        assert(crate::makemove::unmake_ok(board@, undo));
    }
    let ghost post2 = board@;
    unmake_move(board, &undo);
    proof {
        let fin = board@;
        let b = BoardState { kings: fin.kings, ..cur };
        assert(crate::makemove::unmake_squares(post2, undo) == crate::makemove::unmake_squares(post, undo));
        assert(fin == (BoardState { zobrist: fin.zobrist, ..b }));
        assert(crate::board::full_hash(b) == crate::board::full_hash(cur));
        crate::makemove::lemma_equal_drift_same_hash(fin, b);
    }
    (check, mate)
}

proof fn lemma_capture_facts(b0: Board, st: BoardState, captures: Seq<Move>)
    requires
        b0.wf(),
        b0@ == st,
        captures == legal_moves(b0).filter(|m: Move| is_capture_move(m)),
    ensures
        forall|m: Move| #[trigger] captures.contains(m) <==> canon_legal(st).contains(m) && is_capture_move(m),
        captures.len() > 0 ==> ({
            let x = captures[last_max(captures, |m: Move| mvv_lva_of(m), captures.len() as int)];
            &&& captures.contains(x)
            &&& forall|m: Move| canon_legal(st).contains(m) && is_capture_move(m) ==> mvv_lva_of(m) <= mvv_lva_of(x)
        }),
{
    let lm0 = legal_moves(b0);
    let cf = |m: Move| is_capture_move(m);
    assert forall|m: Move| #[trigger] canon_legal(st).contains(m) && is_capture_move(m) implies captures.contains(m) by {
        lemma_legal_contains(b0, m);
        let j = choose|j: int| 0 <= j < lm0.len() && lm0[j] == m;
        lm0.lemma_filter_contains(cf, j);
    }
    assert forall|m: Move| #[trigger] captures.contains(m) implies canon_legal(st).contains(m) && is_capture_move(m) by {
        lm0.lemma_filter_contains_rev(cf, m);
        lemma_legal_contains(b0, m);
        let j = choose|j: int| 0 <= j < captures.len() && captures[j] == m;
        lm0.lemma_filter_pred(cf, j);
    }
    if captures.len() > 0 {
        let key = |m: Move| mvv_lva_of(m);
        lemma_last_max_is_max(captures, key, captures.len() as int);
        lemma_last_max_range(captures, key, captures.len() as int);
        let x = captures[last_max(captures, key, captures.len() as int)];
        assert(captures.contains(x));
        assert forall|m: Move| canon_legal(st).contains(m) && is_capture_move(m) implies mvv_lva_of(m) <= mvv_lva_of(x) by {
            assert(captures.contains(m));
            let j = choose|j: int| 0 <= j < captures.len() && captures[j] == m;
            assert(key(captures[j]) <= key(x));
        }
    }
}

proof fn lemma_oma_outcome(
    st: BoardState,
    captures: Seq<Move>,
    first_check: Option<Move>,
    legals: Seq<Move>,
    h: Option<Seq<u32>>,
    rng0: u64,
    r: Option<Move>,
    rng1: u64,
)
    requires
        legals.len() > 0,
        r == oma_choice(None, captures, first_check, legals, h, rng0),
        rng1 == (if oma_uses_rng(None, captures, first_check, legals, h) {
            lcg_step(rng0)
        } else {
            rng0
        }),
        forall|m: Move| #[trigger] legals.contains(m) <==> canon_legal(st).contains(m),
        forall|m: Move| #[trigger] canon_legal(st).contains(m) ==> !gives_mate(st, m),
        forall|m: Move| #[trigger] captures.contains(m) <==> canon_legal(st).contains(m) && is_capture_move(m),
        captures.len() > 0 ==> ({
            let x = captures[last_max(captures, |m: Move| mvv_lva_of(m), captures.len() as int)];
            &&& captures.contains(x)
            &&& forall|m: Move| canon_legal(st).contains(m) && is_capture_move(m) ==> mvv_lva_of(m) <= mvv_lva_of(x)
        }),
        first_check matches Some(m) ==> gives_check(st, m) && legals.contains(m),
        first_check is None ==> forall|m: Move| #[trigger] canon_legal(st).contains(m) ==> !gives_check(st, m),
    ensures
        r is Some,
        !some_legal(st, |m: Move| gives_mate(st, m)),
        some_legal(st, |m: Move| is_capture_move(m)) ==> (r matches Some(x) && is_capture_move(x) && (forall|m: Move|
            canon_legal(st).contains(m) && is_capture_move(m) ==> mvv_lva_of(m) <= mvv_lva_of(x))) && rng1 == rng0,
        !some_legal(st, |m: Move| is_capture_move(m)) && some_legal(st, |m: Move| gives_check(st, m)) ==> (r matches Some(
            x,
        ) && gives_check(st, x)) && rng1 == rng0,
{
    if some_legal(st, |m: Move| is_capture_move(m)) {
        let m = choose|m: Move| #[trigger] canon_legal(st).contains(m) && is_capture_move(m);
        assert(captures.contains(m));
        assert(captures.len() > 0);
    }
    if !some_legal(st, |m: Move| is_capture_move(m)) {
        if captures.len() > 0 {
            assert(captures.contains(captures[0]));
        }
        if some_legal(st, |m: Move| gives_check(st, m)) {
            let m = choose|m: Move| #[trigger] canon_legal(st).contains(m) && gives_check(st, m);
            assert(first_check is Some);
        }
    }
}

/// Scan the legal moves for the first one that mates the next player and
/// the first one that checks it. The board comes back as it was but for the
/// king squares.
fn scan_for_checks(
    board: &mut Board,
    legals: &Vec<Move>,
    Ghost(st): Ghost<BoardState>,
    Ghost(st1): Ghost<BoardState>,
) -> (r: (Option<Move>, Option<Move>))
    requires
        old(board).wf(),
        old(board)@ == (BoardState { kings: old(board)@.kings, ..st }),
        st1 == (BoardState { kings: st1.kings, ..st }),
        all_makeable(st1, legals@),
    ensures
        final(board).wf(),
        final(board)@ == (BoardState { kings: final(board)@.kings, ..st }),
        kings_consistent(st) && old(board)@ == st ==> final(board)@ == st,
        r.0 matches Some(m) ==> legals@.contains(m) && makeable(st, m) && (kings_consistent(st) && old(board)@
            == st ==> gives_mate(st, m)),
        r.0 is None && kings_consistent(st) && old(board)@ == st ==> forall|j: int|
            0 <= j < legals@.len() ==> !gives_mate(st, #[trigger] legals@[j]),
        r.1 matches Some(m) ==> legals@.contains(m) && makeable(st, m) && (kings_consistent(st) && old(board)@
            == st ==> gives_check(st, m)),
        r.0 is None && r.1 is None && kings_consistent(st) && old(board)@ == st ==> forall|j: int|
            0 <= j < legals@.len() ==> !gives_check(st, #[trigger] legals@[j]),
{
    let ghost kc = kings_consistent(st) && old(board)@ == st;
    let mut first_check: Option<Move> = None;
    let mut k: usize = 0;
    while k < legals.len()
        invariant
            board.wf(),
            board@ == (BoardState { kings: board@.kings, ..st }),
            st1 == (BoardState { kings: st1.kings, ..st }),
            all_makeable(st1, legals@),
            k <= legals@.len(),
            kc == (kings_consistent(st) && old(board)@ == st),
            kc ==> board@ == st,
            first_check matches Some(m) ==> legals@.contains(m) && makeable(st, m) && (kc ==> gives_check(st, m)),
            kc ==> forall|j: int| 0 <= j < k ==> !gives_mate(st, #[trigger] legals@[j]),
            kc && first_check is None ==> forall|j: int| 0 <= j < k ==> !gives_check(st, #[trigger] legals@[j]),
        decreases legals.len() - k,
    {
        let mv = legals[k];
        proof {
            assert(makeable(st1, legals@[k as int]));
            lemma_applicable_frame(st1, st, mv);
            assert(legals@.contains(legals@[k as int]));
        }
        let (check, mate) = probe_check(board, mv, Ghost(st));
        if mate {
            return (Some(mv), first_check);
        }
        if check && first_check.is_none() {
            first_check = Some(mv);
        }
        k = k + 1;
    }
    (None, first_check)
}

/// The choice after the board scan found no mating move, with what the
/// scan found: the choice is `oma_choose`'s.
fn oma_finish(
    captures: &Vec<Move>,
    first_check: Option<Move>,
    legals: &Vec<Move>,
    history: Option<&Vec<u32>>,
    rng: &mut u64,
    Ghost(st): Ghost<BoardState>,
    Ghost(st1): Ghost<BoardState>,
    Ghost(b0): Ghost<Board>,
) -> (r: Option<Move>)
    requires
        history matches Some(h) ==> h@.len() == 38416,
        legals@.len() > 0,
        forall|j: int| 0 <= j < legals@.len() ==> 0 <= (#[trigger] legals@[j]).from_idx() < 196 && 0 <= legals@[j].to_idx() < 196,
        b0.wf(),
        b0@ == st,
        st1 == (BoardState { kings: st1.kings, ..st }),
        all_makeable(st1, legals@),
        all_makeable(st, captures@),
        first_check matches Some(m) ==> legals@.contains(m) && makeable(st, m) && (kings_consistent(st) ==> gives_check(st, m)),
        kings_consistent(st) ==> captures@ == legal_moves(b0).filter(|m: Move| is_capture_move(m)),
        kings_consistent(st) ==> forall|j: int| 0 <= j < legals@.len() ==> legal_in_position(st, #[trigger] legals@[j]),
        kings_consistent(st) ==> forall|m: Move| #[trigger] legals@.contains(m) <==> canon_legal(st).contains(m),
        kings_consistent(st) ==> forall|m: Move| #[trigger] canon_legal(st).contains(m) ==> !gives_mate(st, m),
        kings_consistent(st) && first_check is None ==> forall|j: int|
            0 <= j < legals@.len() ==> !gives_check(st, #[trigger] legals@[j]),
    ensures
        r is Some,
        r matches Some(m) ==> makeable(st, m),
        kings_consistent(st) ==> (r matches Some(m) ==> legal_in_position(st, m) && canon_legal(st).contains(m)),
        *final(rng) == *old(rng) || *final(rng) == lcg_step(*old(rng)),
        kings_consistent(st) ==> !some_legal(st, |m: Move| gives_mate(st, m)),
        kings_consistent(st) && some_legal(st, |m: Move| is_capture_move(m)) ==> (r matches Some(x) && is_capture_move(x)
            && (forall|m: Move| canon_legal(st).contains(m) && is_capture_move(m) ==> mvv_lva_of(m) <= mvv_lva_of(x)))
            && *final(rng) == *old(rng),
        kings_consistent(st) && !some_legal(st, |m: Move| is_capture_move(m)) && some_legal(st, |m: Move| gives_check(st, m))
            ==> (r matches Some(x) && gives_check(st, x)) && *final(rng) == *old(rng),
{
    let ghost kc = kings_consistent(st);
    proof {
        if kc {
            if first_check is None {
                assert forall|m: Move| #[trigger] canon_legal(st).contains(m) implies !gives_check(st, m) by {
                    assert(legals@.contains(m));
                    let j = choose|j: int| 0 <= j < legals@.len() && legals@[j] == m;
                }
            }
            lemma_capture_facts(b0, st, captures@);
        }
    }
    let r = oma_choose(None, captures, first_check, legals, history, rng);
    proof {
        if kc {
            lemma_oma_outcome(st, captures@, first_check, legals@, hist_view(history), *old(rng), r, *rng);
        }
        if let Some(m) = r {
            if captures@.len() > 0 {
                let i = last_max(captures@, |m: Move| mvv_lva_of(m), captures@.len() as int);
                lemma_last_max_range(captures@, |m: Move| mvv_lva_of(m), captures@.len() as int);
                assert(makeable(st, captures@[i]));
                assert(captures@.contains(captures@[i]));
                if kc {
                    lemma_captures_legal(b0, captures@, captures@[i]);
                }
            } else if first_check is Some {
                if kc {
                    let j = choose|j: int| 0 <= j < legals@.len() && legals@[j] == m;
                    assert(legal_in_position(st, legals@[j]));
                }
            } else if hist_fires(hist_view(history), legals@) {
                let h = hist_view(history).unwrap();
                let i = last_max(legals@, |m: Move| history_of(h, m), legals@.len() as int);
                lemma_last_max_range(legals@, |m: Move| history_of(h, m), legals@.len() as int);
                assert(makeable(st1, legals@[i]));
                lemma_applicable_frame(st1, st, legals@[i]);
                assert(legals@.contains(legals@[i]));
            } else {
                let i = ((lcg_step(*old(rng)) >> 33u64) as int) % (legals@.len() as int);
                assert(makeable(st1, legals@[i]));
                lemma_applicable_frame(st1, st, legals@[i]);
                assert(legals@.contains(legals@[i]));
            }
        }
    }
    r
}

/// The lightweight opponent policy: checkmate, then capture (MVV-LVA), then
/// quiet check, then history, then a random move. It never evaluates.
pub struct OmaPolicy;

impl OmaPolicy {
    /// Select a move for the side to move, or None when it has no legal
    /// move. The board comes back as it was but for the king squares; the
    /// choice among what the scan found is [`oma_choose`]'s.
    pub fn select_move(board: &mut Board, history: Option<&Vec<u32>>, rng: &mut u64) -> (r: Option<Move>)
        requires
            old(board).wf(),
            history matches Some(h) ==> h@.len() == 38416,
        ensures
            final(board).wf(),
            final(board)@ == (BoardState { kings: final(board)@.kings, ..old(board)@ }),
            r matches Some(m) ==> makeable(old(board)@, m),
            kings_consistent(old(board)@) ==> (r matches Some(m) ==> legal_in_position(old(board)@, m)),
            *final(rng) == *old(rng) || *final(rng) == lcg_step(*old(rng)),
            kings_consistent(old(board)@) ==> (r matches Some(m) ==> canon_legal(old(board)@).contains(m)),
            kings_consistent(old(board)@) && canon_legal(old(board)@).len() > 0 ==> r is Some,
            kings_consistent(old(board)@) && some_legal(old(board)@, |m: Move| gives_mate(old(board)@, m))
                ==> (r matches Some(x) && gives_mate(old(board)@, x)) && *final(rng) == *old(rng),
            kings_consistent(old(board)@) && !some_legal(old(board)@, |m: Move| gives_mate(old(board)@, m))
                && some_legal(old(board)@, |m: Move| is_capture_move(m)) ==> (r matches Some(x)
                && is_capture_move(x) && (forall|m: Move|
                canon_legal(old(board)@).contains(m) && is_capture_move(m) ==> mvv_lva_of(m) <= mvv_lva_of(x)))
                && *final(rng) == *old(rng),
            kings_consistent(old(board)@) && !some_legal(old(board)@, |m: Move| gives_mate(old(board)@, m))
                && !some_legal(old(board)@, |m: Move| is_capture_move(m)) && some_legal(
                old(board)@,
                |m: Move| gives_check(old(board)@, m),
            ) ==> (r matches Some(x) && gives_check(old(board)@, x)) && *final(rng) == *old(rng),
    {
        let ghost st = board@;
        let ghost b0 = *board;
        let captures = generate_captures_only(board);
        let ghost b1 = *board;
        let legals = generate_legal_moves(board);
        let ghost st1 = board@;
        let ghost kc = kings_consistent(st);
        proof {
            if kc {
                b1.lemma_wf();
                lemma_legal_count(b1);
                assert forall|j: int| 0 <= j < legals@.len() implies legal_in_position(st, #[trigger] legals@[j]) by {
                    assert(legal_moves(b1).contains(legals@[j]));
                    lemma_contained_legal(b1, legals@[j]);
                }
                assert forall|m: Move| #[trigger] legals@.contains(m) <==> canon_legal(st).contains(m) by {
                    lemma_legal_contains(b1, m);
                }
            }
        }
        if legals.len() == 0 {
            return None;
        }
        let (mate, first_check) = scan_for_checks(board, &legals, Ghost(st), Ghost(st1));
        if mate.is_some() {
            proof {
                let m = mate.unwrap();
                if kc {
                    let j = choose|j: int| 0 <= j < legals@.len() && legals@[j] == m;
                    assert(legal_in_position(st, legals@[j]));
                }
            }
            return mate;
        }
        proof {
            assert forall|j: int| 0 <= j < legals@.len() implies 0 <= (#[trigger] legals@[j]).from_idx() < 196
                && 0 <= legals@[j].to_idx() < 196 by {
                assert(makeable(st1, legals@[j]));
            }
            if kc {
                assert forall|m: Move| #[trigger] canon_legal(st).contains(m) implies !gives_mate(st, m) by {
                    assert(legals@.contains(m));
                    let j = choose|j: int| 0 <= j < legals@.len() && legals@[j] == m;
                }
            }
        }
        oma_finish(&captures, first_check, &legals, history, rng, Ghost(st), Ghost(st1), Ghost(b0))
    }
}


// ─── Sequential Halving ─────────────────────────────────────────────────────

/// Two to the power `r`.
pub open spec fn two_pow(r: nat) -> nat
    decreases r,
{
    if r == 0 {
        1
    } else {
        2 * two_pow((r - 1) as nat)
    }
}

/// `r` is the base-2 logarithm of `k` rounded up (for `k >= 2`).
pub open spec fn is_ceil_log2(k: int, r: int) -> bool {
    r >= 1 && two_pow((r - 1) as nat) < k <= two_pow(r as nat)
}

proof fn lemma_two_pow_mono(a: nat, b: nat)
    requires
        a <= b,
    ensures
        two_pow(a) <= two_pow(b),
    decreases b - a,
{
    if a < b {
        lemma_two_pow_mono(a, (b - 1) as nat);
    }
}

proof fn lemma_two_pow_66()
    ensures
        two_pow(66) == 73786976294838206464nat,
{
    assert(two_pow(0) == 1nat);
    assert(two_pow(1) == 2nat);
    assert(two_pow(2) == 4nat);
    assert(two_pow(3) == 8nat);
    assert(two_pow(4) == 16nat);
    assert(two_pow(5) == 32nat);
    assert(two_pow(6) == 64nat);
    assert(two_pow(7) == 128nat);
    assert(two_pow(8) == 256nat);
    assert(two_pow(9) == 512nat);
    assert(two_pow(10) == 1024nat);
    assert(two_pow(11) == 2048nat);
    assert(two_pow(12) == 4096nat);
    assert(two_pow(13) == 8192nat);
    assert(two_pow(14) == 16384nat);
    assert(two_pow(15) == 32768nat);
    assert(two_pow(16) == 65536nat);
    assert(two_pow(17) == 131072nat);
    assert(two_pow(18) == 262144nat);
    assert(two_pow(19) == 524288nat);
    assert(two_pow(20) == 1048576nat);
    assert(two_pow(21) == 2097152nat);
    assert(two_pow(22) == 4194304nat);
    assert(two_pow(23) == 8388608nat);
    assert(two_pow(24) == 16777216nat);
    assert(two_pow(25) == 33554432nat);
    assert(two_pow(26) == 67108864nat);
    assert(two_pow(27) == 134217728nat);
    assert(two_pow(28) == 268435456nat);
    assert(two_pow(29) == 536870912nat);
    assert(two_pow(30) == 1073741824nat);
    assert(two_pow(31) == 2147483648nat);
    assert(two_pow(32) == 4294967296nat);
    assert(two_pow(33) == 8589934592nat);
    assert(two_pow(34) == 17179869184nat);
    assert(two_pow(35) == 34359738368nat);
    assert(two_pow(36) == 68719476736nat);
    assert(two_pow(37) == 137438953472nat);
    assert(two_pow(38) == 274877906944nat);
    assert(two_pow(39) == 549755813888nat);
    assert(two_pow(40) == 1099511627776nat);
    assert(two_pow(41) == 2199023255552nat);
    assert(two_pow(42) == 4398046511104nat);
    assert(two_pow(43) == 8796093022208nat);
    assert(two_pow(44) == 17592186044416nat);
    assert(two_pow(45) == 35184372088832nat);
    assert(two_pow(46) == 70368744177664nat);
    assert(two_pow(47) == 140737488355328nat);
    assert(two_pow(48) == 281474976710656nat);
    assert(two_pow(49) == 562949953421312nat);
    assert(two_pow(50) == 1125899906842624nat);
    assert(two_pow(51) == 2251799813685248nat);
    assert(two_pow(52) == 4503599627370496nat);
    assert(two_pow(53) == 9007199254740992nat);
    assert(two_pow(54) == 18014398509481984nat);
    assert(two_pow(55) == 36028797018963968nat);
    assert(two_pow(56) == 72057594037927936nat);
    assert(two_pow(57) == 144115188075855872nat);
    assert(two_pow(58) == 288230376151711744nat);
    assert(two_pow(59) == 576460752303423488nat);
    assert(two_pow(60) == 1152921504606846976nat);
    assert(two_pow(61) == 2305843009213693952nat);
    assert(two_pow(62) == 4611686018427387904nat);
    assert(two_pow(63) == 9223372036854775808nat);
    assert(two_pow(64) == 18446744073709551616nat);
    assert(two_pow(65) == 36893488147419103232nat);
    assert(two_pow(66) == 73786976294838206464nat);
}

/// Sequential Halving at the root: each round gives every surviving
/// candidate the same number of simulations, then keeps the better half.
pub struct SequentialHalving {
    /// Indices of the surviving root children.
    pub candidates: Vec<usize>,
    /// Current round, from 0.
    pub round: usize,
    /// Number of halving rounds.
    pub total_rounds: usize,
    /// Simulations per candidate in the current round.
    pub sims_per_candidate: usize,
    /// Total simulation budget.
    pub total_budget: usize,
    /// Budget recorded as used.
    pub budget_used: usize,
    /// Player whose values rank the candidates.
    pub root_player_idx: usize,
}

impl SequentialHalving {
    /// A schedule for the given candidates and budget: the number of rounds
    /// is the base-2 logarithm of the candidate count rounded up (1 for a
    /// single candidate), and each candidate gets the budget divided by
    /// candidates times rounds, at least 1.
    pub fn new(candidates: Vec<usize>, total_budget: usize, root_player_idx: usize) -> (h: Self)
        ensures
            h.candidates@ == candidates@,
            h.round == 0,
            h.budget_used == 0,
            h.total_budget == total_budget,
            h.root_player_idx == root_player_idx,
            candidates@.len() <= 1 ==> h.total_rounds == 1,
            candidates@.len() > 1 ==> is_ceil_log2(candidates@.len() as int, h.total_rounds as int),
            h.sims_per_candidate as int == ({
                let k = if candidates@.len() > 1 { candidates@.len() as int } else { 1int };
                let q = total_budget as int / (k * h.total_rounds as int);
                if q > 1 { q } else { 1int }
            }),
    {
        let n = candidates.len();
        let k: usize = if n > 1 { n } else { 1 };
        let mut rounds: usize = 1;
        if k > 1 {
            let mut r: usize = 1;
            let mut p: u128 = 2;
            proof {
                lemma_two_pow_66();
                assert(two_pow(0) == 1nat);
                assert(two_pow(1) == 2nat);
            }
            while p < k as u128
                invariant
                    1 <= r <= 65,
                    p >= 2,
                    p as nat == two_pow(r as nat),
                    two_pow((r - 1) as nat) < k,
                    p <= 2 * k,
                    k <= usize::MAX,
                    two_pow(66) == 73786976294838206464nat,
                decreases (2 * k as int) - (p as int),
            {
                proof {
                    assert(two_pow((r + 1) as nat) == 2 * two_pow(r as nat));
                    if r + 1 >= 66 {
                        lemma_two_pow_mono(66, (r + 1) as nat);
                    }
                }
                p = p * 2;
                r = r + 1;
            }
            rounds = r;
        }
        assert(1 <= (k as u128) * (rounds as u128) <= 0xffff_ffff_ffff_ffffu128 * 65) by (nonlinear_arith)
            requires
                1 <= k <= 0xffff_ffff_ffff_ffffu128,
                1 <= rounds <= 65,
        ;
        let prod: u128 = (k as u128) * (rounds as u128);
        let q: u128 = (total_budget as u128) / prod;
        let sims: usize = if q > 1 { q as usize } else { 1 };
        SequentialHalving {
            candidates,
            round: 0,
            total_rounds: rounds,
            sims_per_candidate: sims,
            total_budget,
            budget_used: 0,
            root_player_idx,
        }
    }

    /// The surviving candidates.
    pub fn current_candidates(&self) -> (c: &Vec<usize>)
        ensures
            c@ == self.candidates@,
    {
        &self.candidates
    }

    /// Simulations per candidate in this round.
    pub fn sims_this_round(&self) -> (n: usize)
        ensures
            n == self.sims_per_candidate,
    {
        self.sims_per_candidate
    }

    /// The winner: the first surviving candidate, or 0 when none is left.
    pub fn winner(&self) -> (w: usize)
        ensures
            w == (if self.candidates@.len() > 0 { self.candidates@[0] } else { 0 }),
    {
        if self.candidates.len() > 0 {
            self.candidates[0]
        } else {
            0
        }
    }

    /// End a round given the candidates ranked best first: keep the better
    /// half (at least one), then, when rounds remain and more than one
    /// candidate survives, spread the remaining budget over them. Returns
    /// whether another round follows.
    pub fn advance_round_with(&mut self, ranked: &Vec<usize>) -> (more: bool)
        requires
            old(self).round < usize::MAX,
        ensures
            old(self).candidates@.len() <= 1 ==> !more && *final(self) == *old(self),
            old(self).candidates@.len() > 1 ==> {
                let keep = if ranked@.len() / 2 > 1 { ranked@.len() / 2 } else { 1 };
                let kept = ranked@.take(if keep < ranked@.len() { keep as int } else { ranked@.len() as int });
                let round = old(self).round + 1;
                let done = round >= old(self).total_rounds || kept.len() <= 1;
                let rb = if old(self).total_budget >= old(self).budget_used {
                    old(self).total_budget - old(self).budget_used
                } else {
                    0
                };
                let rr = if old(self).total_rounds >= round { old(self).total_rounds - round } else { 0 };
                &&& final(self).candidates@ == kept
                &&& final(self).round == round
                &&& more == !done
                &&& final(self).total_rounds == old(self).total_rounds
                &&& final(self).total_budget == old(self).total_budget
                &&& final(self).budget_used == old(self).budget_used
                &&& final(self).root_player_idx == old(self).root_player_idx
                &&& final(self).sims_per_candidate == (if !done && kept.len() * rr > 0 {
                    let q = rb / (kept.len() * rr);
                    if q > 1 { q } else { 1 }
                } else {
                    old(self).sims_per_candidate as int
                })
            },
    {
        if self.candidates.len() <= 1 {
            return false;
        }
        self.round = self.round + 1;
        let half = ranked.len() / 2;
        let keep = if half > 1 { half } else { 1 };
        let mut kept: Vec<usize> = Vec::new();
        let mut i: usize = 0;
        while i < ranked.len() && i < keep
            invariant
                i <= ranked@.len(),
                i <= keep,
                kept@ == ranked@.take(i as int),
            decreases ranked.len() - i,
        {
            kept.push(ranked[i]);
            i = i + 1;
            assert(kept@ =~= ranked@.take(i as int));
        }
        self.candidates = kept;
        if self.round >= self.total_rounds || self.candidates.len() <= 1 {
            return false;
        }
        let remaining_budget = self.total_budget.saturating_sub(self.budget_used);
        let remaining_rounds = self.total_rounds.saturating_sub(self.round);
        let cl = self.candidates.len() as u128;
        let rr = remaining_rounds as u128;
        assert(cl * rr <= 0xffff_ffff_ffff_ffffu128 * 0xffff_ffff_ffff_ffffu128) by (nonlinear_arith)
            requires
                cl <= 0xffff_ffff_ffff_ffffu128,
                rr <= 0xffff_ffff_ffff_ffffu128,
        ;
        let prod: u128 = cl * rr;
        if prod > 0 {
            let q: u128 = (remaining_budget as u128) / prod;
            self.sims_per_candidate = if q > 1 { q as usize } else { 1 };
        }
        true
    }
}

} // verus!
