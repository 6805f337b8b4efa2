//! Efficiently updatable neural network evaluation for four players.

pub mod features;
pub mod weights;
pub mod accumulator;
pub mod forward;

use std::sync::Arc;
use vstd::prelude::*;
use crate::eval::{trunc_div, ELIMINATED_SCORE};
use crate::game_state::{GameState, PlayerStatus};
use crate::nnue::accumulator::{acc_fold, sat_add, sat_i16, Accumulator};
use crate::nnue::features::active_features;
use crate::nnue::forward::{forward_pass, forward_score};
use crate::nnue::weights::NnueWeights;
use crate::types::{pidx, player_at, Player};

verus! {

/// Contribution of zone feature `zi` with value `zv` to hidden unit `i`:
/// value times weight, divided by 64 rounding toward zero, wrapped to 16 bits.
pub open spec fn zone_contrib(w: NnueWeights, zv: i16, zi: int, i: int) -> i16 {
    trunc_div(zv as int * w.feature_weights@[4480 + zi]@[i] as int, 64) as i16
}

/// Unit `i` after adding the first `n` zone contributions to `a0`, each
/// addition saturating.
pub open spec fn zone_unit(w: NnueWeights, a0: i16, z: Seq<i16>, i: int, n: int) -> i16
    decreases n,
{
    if n <= 0 {
        a0
    } else {
        sat_i16(zone_unit(w, a0, z, i, n - 1) as int + zone_contrib(w, z[n - 1], n - 1, i) as int)
    }
}

/// Accumulator unit `i` of perspective `p`: zero for an eliminated player,
/// otherwise the refreshed value with the zone features added.
pub open spec fn nnue_unit(g: GameState, w: NnueWeights, zone: Seq<Seq<i16>>, p: int, i: int) -> i16 {
    if g.statuses()[p] == PlayerStatus::Eliminated {
        0
    } else {
        zone_unit(w, acc_fold(w, active_features(g.board_of(), p), i), zone[p], i, 8)
    }
}

/// Score of perspective `p` before centring.
pub open spec fn nnue_raw(g: GameState, w: NnueWeights, zone: Seq<Seq<i16>>, p: int) -> i16 {
    if g.statuses()[p] == PlayerStatus::Eliminated {
        ELIMINATED_SCORE
    } else {
        forward_score(Seq::new(256, |i: int| nnue_unit(g, w, zone, p, i)), w)
    }
}

/// Players below `n` not eliminated.
pub open spec fn alive_below(g: GameState, n: int) -> int
    decreases n,
{
    if n <= 0 {
        0
    } else {
        alive_below(g, n - 1) + if g.statuses()[n - 1] != PlayerStatus::Eliminated { 1int } else { 0int }
    }
}

/// Sum of the raw scores of players below `n` not eliminated.
pub open spec fn alive_sum(g: GameState, w: NnueWeights, zone: Seq<Seq<i16>>, n: int) -> int
    decreases n,
{
    if n <= 0 {
        0
    } else {
        alive_sum(g, w, zone, n - 1) + if g.statuses()[n - 1] != PlayerStatus::Eliminated {
            nnue_raw(g, w, zone, n - 1) as int
        } else {
            0int
        }
    }
}

/// Final NNUE score of perspective `p`: with two or more players alive,
/// each alive score minus their mean (rounded toward zero), saturating.
pub open spec fn nnue_score(g: GameState, w: NnueWeights, zone: Seq<Seq<i16>>, p: int) -> i16 {
    let c = alive_below(g, 4);
    let s = nnue_raw(g, w, zone, p);
    if c > 1 && g.statuses()[p] != PlayerStatus::Eliminated {
        sat_i16(s as int - (trunc_div(alive_sum(g, w, zone, 4), c) as i16) as int)
    } else {
        s
    }
}

proof fn lemma_alive_bounds(g: GameState, w: NnueWeights, zone: Seq<Seq<i16>>, n: int)
    requires
        0 <= n <= 4,
    ensures
        0 <= alive_below(g, n) <= n,
        -32768 * alive_below(g, n) <= alive_sum(g, w, zone, n) <= 32767 * alive_below(g, n),
    decreases n,
{
    if n > 0 {
        lemma_alive_bounds(g, w, zone, n - 1);
    }
}

/// NNUE evaluator; the weights are shared between clones.
#[derive(Clone)]
pub struct NnueEvaluator {
    weights: Arc<NnueWeights>,
}

impl NnueEvaluator {
    /// The evaluator's weights.
    pub closed spec fn weights_of(&self) -> NnueWeights {
        *self.weights
    }

    /// An evaluator over the given weights.
    pub fn new(weights: Arc<NnueWeights>) -> (e: Self)
        ensures
            e.weights_of() == *weights,
    {
        NnueEvaluator { weights }
    }

    /// An evaluator over random weights from a seed.
    pub fn with_random_weights(seed: u64) -> (e: Self)
        ensures
            e.weights_of().wf(),
            forall|k: int|
                0 <= k < 1157441 ==> #[trigger] crate::nnue::weights::weight_at(e.weights_of(), k)
                    == crate::nnue::weights::random_weight(seed, k),
    {
        NnueEvaluator { weights: Arc::new(NnueWeights::random(seed)) }
    }

    /// An evaluator over weights decoded from `.fnnue` bytes.
    pub fn from_file(bytes: &[u8]) -> (r: Result<Self, crate::nnue::weights::WeightsError>)
        ensures
            match r {
                Ok(e) => crate::nnue::weights::fnnue_error(bytes@) is None && e.weights_of().wf() && forall|k: int|
                    0 <= k < 1157441 ==> #[trigger] crate::nnue::weights::weight_at(e.weights_of(), k)
                        == crate::nnue::weights::decoded(bytes@, k),
                Err(err) => crate::nnue::weights::fnnue_error(bytes@) == Some(err),
            },
    {
        match NnueWeights::load(bytes) {
            Ok(w) => Ok(NnueEvaluator { weights: Arc::new(w) }),
            Err(e) => Err(e),
        }
    }

    fn apply_zone_features(&self, acc: &mut Accumulator, zone: [i16; 8])
        requires
            self.weights_of().wf(),
        ensures
            forall|i: int|
                0 <= i < 256 ==> #[trigger] final(acc).values@[i] == zone_unit(
                    self.weights_of(),
                    old(acc).values@[i],
                    zone@,
                    i,
                    8,
                ),
    {
        let w: &NnueWeights = &*self.weights;
        let ghost a0 = acc.values@;
        let mut z: usize = 0;
        while z < 8
            invariant
                *w == self.weights_of(),
                w.wf(),
                z <= 8,
                forall|i: int| 0 <= i < 256 ==> #[trigger] acc.values@[i] == zone_unit(*w, a0[i], zone@, i, z as int),
            decreases 8 - z,
        {
            let zv = zone[z];
            let row = &w.feature_weights[4480 + z];
            let ghost before = acc.values@;
            let mut i: usize = 0;
            while i < 256
                invariant
                    z < 8,
                    *row == w.feature_weights@[4480 + z],
                    i <= 256,
                    forall|j: int| 0 <= j < i ==> #[trigger] acc.values@[j] == sat_i16(
                        before[j] as int + zone_contrib(*w, zv, z as int, j) as int,
                    ),
                    forall|j: int| i <= j < 256 ==> #[trigger] acc.values@[j] == before[j],
                decreases 256 - i,
            {
                let a = zv as i64;
                let b = row[i] as i64;
                assert(-1073741824 <= a * b <= 1073741824) by (nonlinear_arith)
                    requires
                        -32768 <= a <= 32767,
                        -32768 <= b <= 32767,
                ;
                let prod: i64 = a * b;
                let q: i64 = if prod >= 0 {
                    prod / 64
                } else {
                    -((-prod) / 64)
                };
                let c: i16 = #[verifier::truncate] (q as i16);
                let v = sat_add(acc.values[i], c);
                acc.values[i] = v;
                i = i + 1;
            }
            proof {
                assert(zone@[z as int] == zv);
            }
            z = z + 1;
        }
    }

    /// Evaluate all four perspectives given each perspective's eight zone
    /// features (territory, frontier, net influence, tension, defended,
    /// undefended, coordinated squares, pawn chains).
    pub fn eval_4vec_with(&self, state: &GameState, zone: [[i16; 8]; 4]) -> (r: [i16; 4])
        requires
            state.wf(),
            self.weights_of().wf(),
        ensures
            forall|p: int|
                0 <= p < 4 ==> #[trigger] r@[p] == nnue_score(
                    *state,
                    self.weights_of(),
                    Seq::new(4, |q: int| zone@[q]@),
                    p,
                ),
    {
        proof {
            state.lemma_board_wf();
        }
        let ghost zs = Seq::new(4, |q: int| zone@[q]@);
        let ghost w = self.weights_of();
        let players = Player::all();
        let mut accs = [Accumulator::new(), Accumulator::new(), Accumulator::new(), Accumulator::new()];
        let mut p: usize = 0;
        while p < 4
            invariant
                state.wf(),
                state.board_of().wf(),
                w == self.weights_of(),
                w.wf(),
                zs == Seq::new(4, |q: int| zone@[q]@),
                forall|i: int| 0 <= i < 4 ==> players@[i] == player_at(i),
                p <= 4,
                forall|q: int, i: int|
                    0 <= q < p && 0 <= i < 256 ==> #[trigger] accs@[q].values@[i] == nnue_unit(*state, w, zs, q, i),
                forall|q: int, i: int| p <= q < 4 && 0 <= i < 256 ==> #[trigger] accs@[q].values@[i] == 0,
            decreases 4 - p,
        {
            let player = players[p];
            assert(player == players@[p as int]);
            proof {
                lemma_player_idx(p as int);
            }
            if state.player_status(player) != PlayerStatus::Eliminated {
                let mut acc = Accumulator::new();
                acc.refresh(state.board(), player, &*self.weights);
                self.apply_zone_features(&mut acc, zone[p]);
                proof {
                    assert(zs[p as int] == zone@[p as int]@);
                }
                accs[p] = acc;
            }
            p = p + 1;
        }
        let mut scores = forward_pass(&accs, &*self.weights);
        assert forall|q: int| 0 <= q < 4 implies accs@[q].values@ == Seq::new(256, |i: int| nnue_unit(*state, w, zs, q, i)) by {
            assert(accs@[q].values@ =~= Seq::new(256, |i: int| nnue_unit(*state, w, zs, q, i)));
        }
        let mut count: i64 = 0;
        let mut sum: i64 = 0;
        let mut q: usize = 0;
        while q < 4
            invariant
                q <= 4,
                w == self.weights_of(),
                forall|i: int| 0 <= i < 4 ==> players@[i] == player_at(i),
                forall|k: int|
                    0 <= k < q ==> #[trigger] scores@[k] == nnue_raw(*state, w, zs, k),
                forall|k: int|
                    q <= k < 4 ==> #[trigger] scores@[k] == forward_score(
                        Seq::new(256, |i: int| nnue_unit(*state, w, zs, k, i)),
                        w,
                    ),
                count as int == alive_below(*state, q as int),
                sum as int == alive_sum(*state, w, zs, q as int),
            decreases 4 - q,
        {
            let player = players[q];
            assert(player == players@[q as int]);
            proof {
                lemma_player_idx(q as int);
                lemma_alive_bounds(*state, w, zs, q as int);
            }
            if state.player_status(player) == PlayerStatus::Eliminated {
                scores[q] = ELIMINATED_SCORE;
            } else {
                count = count + 1;
                sum = sum + scores[q] as i64;
            }
            q = q + 1;
        }
        proof {
            lemma_alive_bounds(*state, w, zs, 4);
        }
        if count > 1 {
            let mean64: i64 = if sum >= 0 {
                sum / count
            } else {
                -((-sum) / count)
            };
            let mean: i16 = #[verifier::truncate] (mean64 as i16);
            let mut k: usize = 0;
            while k < 4
                invariant
                    k <= 4,
                    count > 1,
                    count as int == alive_below(*state, 4),
                    sum as int == alive_sum(*state, w, zs, 4),
                    mean == trunc_div(sum as int, count as int) as i16,
                    w == self.weights_of(),
                    forall|i: int| 0 <= i < 4 ==> players@[i] == player_at(i),
                    forall|j: int| 0 <= j < k ==> #[trigger] scores@[j] == nnue_score(*state, w, zs, j),
                    forall|j: int| k <= j < 4 ==> #[trigger] scores@[j] == nnue_raw(*state, w, zs, j),
                decreases 4 - k,
            {
                let player = players[k];
                assert(player == players@[k as int]);
                proof {
                    lemma_player_idx(k as int);
                }
                if state.player_status(player) != PlayerStatus::Eliminated {
                    let s = scores[k];
                    let d: i32 = s as i32 - mean as i32;
                    let v: i16 = if d < -32768 {
                        -32768
                    } else if d > 32767 {
                        32767
                    } else {
                        d as i16
                    };
                    scores[k] = v;
                }
                k = k + 1;
            }
        }
        scores
    }

    /// One perspective of [`NnueEvaluator::eval_4vec_with`].
    pub fn eval_scalar_with(&self, state: &GameState, zone: [[i16; 8]; 4], player: Player) -> (v: i16)
        requires
            state.wf(),
            self.weights_of().wf(),
        ensures
            v == nnue_score(*state, self.weights_of(), Seq::new(4, |q: int| zone@[q]@), pidx(player)),
    {
        let scores = self.eval_4vec_with(state, zone);
        scores[player.index()]
    }
}

proof fn lemma_player_idx(i: int)
    requires
        0 <= i < 4,
    ensures
        pidx(player_at(i)) == i,
{
    if i == 0 {
    } else if i == 1 {
    } else if i == 2 {
    } else {
    }
}

} // verus!
