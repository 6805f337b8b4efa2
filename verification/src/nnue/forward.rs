//! NNUE forward pass: accumulator, clipped ReLU, 256 x 32 layer, ReLU,
//! 32 x 1 output, quantised integer arithmetic throughout. Sums wrap to
//! 32 bits as two's complement arithmetic does.

use vstd::prelude::*;
use crate::eval::trunc_div;
use crate::nnue::accumulator::Accumulator;
use crate::nnue::weights::NnueWeights;

verus! {

/// Upper clamp of the clipped ReLU: 127 in Q6.
pub const CLIPPED_RELU_MAX: i16 = 8128;

/// Clipped ReLU of an accumulator value.
pub open spec fn clip(v: i16) -> int {
    if v < 0 {
        0
    } else if v > 8128 {
        8128
    } else {
        v as int
    }
}

/// Sum over the first `n` accumulator units of clipped value times weight
/// into hidden unit `j`.
pub open spec fn h1_sum(acc: Seq<i16>, w: NnueWeights, j: int, n: int) -> int
    decreases n,
{
    if n <= 0 {
        0
    } else {
        h1_sum(acc, w, j, n - 1) + clip(acc[n - 1]) * w.hidden1_weights@[n - 1]@[j] as int
    }
}

/// Hidden unit `j` of the second layer, wrapped to 32 bits.
pub open spec fn h1_val(acc: Seq<i16>, w: NnueWeights, j: int) -> i32 {
    (w.hidden1_biases@[j] as int + h1_sum(acc, w, j, 256)) as i32
}

/// Sum over the first `n` hidden units of ReLU, scaled down by 64, times
/// the output weight.
pub open spec fn out_sum(acc: Seq<i16>, w: NnueWeights, n: int) -> int
    decreases n,
{
    if n <= 0 {
        0
    } else {
        let v = h1_val(acc, w, n - 1) as int;
        out_sum(acc, w, n - 1) + (if v > 0 { v / 64 } else { 0 }) * w.hidden2_weights@[n - 1] as int
    }
}

/// Raw output of one perspective, wrapped to 32 bits.
pub open spec fn forward_raw(acc: Seq<i16>, w: NnueWeights) -> i32 {
    (w.hidden2_bias as int + out_sum(acc, w, 32)) as i32
}

/// Score of one perspective in centipawns: raw output divided by 64
/// (rounding toward zero), wrapped to 16 bits.
pub open spec fn forward_score(acc: Seq<i16>, w: NnueWeights) -> i16 {
    trunc_div(forward_raw(acc, w) as int, 64) as i16
}

fn forward_single(acc: &Accumulator, weights: &NnueWeights) -> (raw: i32)
    requires
        weights.wf(),
    ensures
        raw == forward_raw(acc.values@, *weights),
{
    let mut hidden1 = [0i32; 32];
    let mut j: usize = 0;
    while j < 32
        invariant
            weights.wf(),
            j <= 32,
            forall|k: int| 0 <= k < j ==> #[trigger] hidden1@[k] == h1_val(acc.values@, *weights, k),
        decreases 32 - j,
    {
        let mut sum: i64 = weights.hidden1_biases[j] as i64;
        let mut i: usize = 0;
        while i < 256
            invariant
                weights.wf(),
                j < 32,
                i <= 256,
                sum as int == weights.hidden1_biases@[j as int] as int + h1_sum(acc.values@, *weights, j as int, i as int),
                -32768 - i * 8128 * 32768 <= sum <= 32767 + i * 8128 * 32768,
            decreases 256 - i,
        {
            let v = acc.values[i];
            let clamped: i64 = if v < 0 {
                0
            } else if v > 8128 {
                8128
            } else {
                v as i64
            };
            let wt = weights.hidden1_weights[i][j] as i64;
            assert(-8128 * 32768 <= clamped * wt <= 8128 * 32768) by (nonlinear_arith)
                requires
                    0 <= clamped <= 8128,
                    -32768 <= wt <= 32767,
            ;
            sum = sum + clamped * wt;
            i = i + 1;
        }
        hidden1[j] = #[verifier::truncate] (sum as i32);
        j = j + 1;
    }
    let mut output: i64 = weights.hidden2_bias as i64;
    let mut j: usize = 0;
    while j < 32
        invariant
            weights.wf(),
            j <= 32,
            forall|k: int| 0 <= k < 32 ==> #[trigger] hidden1@[k] == h1_val(acc.values@, *weights, k),
            output as int == weights.hidden2_bias as int + out_sum(acc.values@, *weights, j as int),
            -32768 - j * 33554432 * 32768 <= output <= 32767 + j * 33554432 * 32768,
        decreases 32 - j,
    {
        let h = hidden1[j] as i64;
        let scaled: i64 = if h > 0 { h / 64 } else { 0 };
        let wt = weights.hidden2_weights[j] as i64;
        assert(-33554432 * 32768 <= scaled * wt <= 33554432 * 32768) by (nonlinear_arith)
            requires
                0 <= scaled <= 33554432,
                -32768 <= wt <= 32767,
        ;
        output = output + scaled * wt;
        j = j + 1;
    }
    #[verifier::truncate]
    (output as i32)
}

/// The forward pass for all four perspectives.
pub fn forward_pass(accumulators: &[Accumulator; 4], weights: &NnueWeights) -> (scores: [i16; 4])
    requires
        weights.wf(),
    ensures
        forall|p: int| 0 <= p < 4 ==> #[trigger] scores@[p] == forward_score(accumulators@[p].values@, *weights),
{
    let mut scores = [0i16; 4];
    let mut p: usize = 0;
    while p < 4
        invariant
            weights.wf(),
            p <= 4,
            forall|k: int| 0 <= k < p ==> #[trigger] scores@[k] == forward_score(accumulators@[k].values@, *weights),
        decreases 4 - p,
    {
        let raw = forward_single(&accumulators[p], weights);
        let r64 = raw as i64;
        let q: i64 = if r64 >= 0 {
            r64 / 64
        } else {
            -((-r64) / 64)
        };
        scores[p] = #[verifier::truncate] (q as i16);
        p = p + 1;
    }
    scores
}

} // verus!
