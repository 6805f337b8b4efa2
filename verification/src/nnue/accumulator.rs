//! The NNUE accumulator: the first hidden layer, computed as the feature
//! biases plus the weight rows of every active feature, with saturation.

use vstd::prelude::*;
use crate::board::Board;
use crate::nnue::features::{active_features, collect_active_features};
use crate::nnue::weights::NnueWeights;
use crate::types::{pidx, Player};

verus! {

/// Saturate to the range of `i16`.
pub open spec fn sat_i16(x: int) -> i16 {
    if x < -32768 {
        -32768i16
    } else if x > 32767 {
        32767i16
    } else {
        x as i16
    }
}

/// Unit `i` of the accumulator after adding the rows of `feats`, in order,
/// to the biases, each addition saturating.
pub open spec fn acc_fold(w: NnueWeights, feats: Seq<int>, i: int) -> i16
    decreases feats.len(),
{
    if feats.len() == 0 {
        w.feature_biases@[i]
    } else {
        sat_i16(acc_fold(w, feats.drop_last(), i) as int + w.feature_weights@[feats.last()]@[i] as int)
    }
}

/// Per-perspective first hidden layer.
#[derive(Clone, Copy, Debug)]
pub struct Accumulator {
    /// Hidden unit values.
    pub values: [i16; 256],
}

pub(crate) fn sat_add(a: i16, b: i16) -> (r: i16)
    ensures
        r == sat_i16(a + b),
{
    let s: i32 = a as i32 + b as i32;
    if s < -32768 {
        -32768
    } else if s > 32767 {
        32767
    } else {
        s as i16
    }
}

impl Accumulator {
    /// A zeroed accumulator.
    pub fn new() -> (a: Self)
        ensures
            forall|i: int| 0 <= i < 256 ==> #[trigger] a.values@[i] == 0,
    {
        Accumulator { values: [0i16; 256] }
    }

    /// Recompute from scratch for a perspective: biases plus the weight rows
    /// of the active features, in turn order and piece-list order.
    pub fn refresh(&mut self, board: &Board, perspective: Player, weights: &NnueWeights)
        requires
            board.wf(),
            weights.wf(),
        ensures
            forall|i: int|
                0 <= i < 256 ==> #[trigger] final(self).values@[i] == acc_fold(
                    *weights,
                    active_features(*board, pidx(perspective)),
                    i,
                ),
    {
        let feats = collect_active_features(board, perspective);
        let ghost all = active_features(*board, pidx(perspective));
        self.values = weights.feature_biases;
        let mut k: usize = 0;
        while k < feats.len()
            invariant
                weights.wf(),
                feats@.len() == all.len(),
                forall|j: int| 0 <= j < feats@.len() ==> #[trigger] feats@[j] as int == all[j],
                forall|j: int| 0 <= j < feats@.len() ==> #[trigger] feats@[j] < 4480,
                k <= feats@.len(),
                forall|i: int| 0 <= i < 256 ==> #[trigger] self.values@[i] == acc_fold(*weights, all.take(k as int), i),
            decreases feats.len() - k,
        {
            let f = feats[k] as usize;
            let row = &weights.feature_weights[f];
            let ghost before = self.values@;
            let mut i: usize = 0;
            while i < 256
                invariant
                    i <= 256,
                    *row == weights.feature_weights@[f as int],
                    forall|j: int| 0 <= j < i ==> #[trigger] self.values@[j] == sat_i16(before[j] + row@[j]),
                    forall|j: int| i <= j < 256 ==> #[trigger] self.values@[j] == before[j],
                decreases 256 - i,
            {
                let v = sat_add(self.values[i], row[i]);
                self.values[i] = v;
                i = i + 1;
            }
            proof {
                assert(all.take(k as int + 1).drop_last() =~= all.take(k as int));
                assert(all.take(k as int + 1).last() == f as int);
            }
            k = k + 1;
        }
        proof {
            assert(all.take(feats@.len() as int) =~= all);
        }
    }
}

impl Default for Accumulator {
    fn default() -> (a: Self)
        ensures
            forall|i: int| 0 <= i < 256 ==> #[trigger] a.values@[i] == 0,
    {
        Accumulator::new()
    }
}

} // verus!
