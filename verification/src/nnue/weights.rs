//! NNUE weights: storage, the `.fnnue` byte format (header plus
//! little-endian i16 weights) and seeded random weights.

use vstd::prelude::*;
use crate::text::{chars_to_string, dec, push_dec, push_str};
use crate::zobrist::xs_step;

verus! {

/// Number of feature-layer weights: 4488 rows of 256.
pub const NUM_FEATURE_WEIGHTS: usize = 1148928;

/// Total number of stored weights and biases.
pub const TOTAL_WEIGHTS: usize = 1157441;

/// Header size of a `.fnnue` file in bytes.
pub const HEADER_SIZE: usize = 28;

/// Architecture hash of this network layout.
pub const ARCHITECTURE_HASH: u32 = 3340829230;

/// NNUE network weights.
pub struct NnueWeights {
    /// Feature to hidden-1 weights, one row of 256 per feature.
    pub feature_weights: Vec<[i16; 256]>,
    /// Feature layer biases.
    pub feature_biases: [i16; 256],
    /// Hidden-1 to hidden-2 weights, one row of 32 per hidden-1 unit.
    pub hidden1_weights: Vec<[i16; 32]>,
    /// Hidden-2 biases.
    pub hidden1_biases: [i16; 32],
    /// Hidden-2 to output weights.
    pub hidden2_weights: [i16; 32],
    /// Output bias.
    pub hidden2_bias: i16,
}

/// Why a `.fnnue` byte string was refused.
#[derive(Debug, Clone, Copy, PartialEq, Eq, Structural)]
pub enum WeightsError {
    /// The bytes end before the data does.
    Truncated,
    /// The first eight bytes are not the format's magic.
    BadMagic,
    /// The architecture hash differs from this build's.
    ArchitectureMismatch { found: u32 },
    /// The layer sizes differ from this build's.
    LayerSizeMismatch { features: u32, hidden1: u32, hidden2: u32, output: u32 },
}

/// The stored weight at flat index `k`: feature weights row by row, feature
/// biases, hidden-1 weights row by row, hidden-1 biases, hidden-2 weights,
/// output bias.
pub open spec fn weight_at(w: NnueWeights, k: int) -> i16 {
    if k < 1148928 {
        w.feature_weights@[k / 256]@[k % 256]
    } else if k < 1149184 {
        w.feature_biases@[k - 1148928]
    } else if k < 1157376 {
        w.hidden1_weights@[(k - 1149184) / 32]@[(k - 1149184) % 32]
    } else if k < 1157408 {
        w.hidden1_biases@[k - 1157376]
    } else if k < 1157440 {
        w.hidden2_weights@[k - 1157408]
    } else {
        w.hidden2_bias
    }
}

/// All weights in storage order.
pub open spec fn weights_seq(w: NnueWeights) -> Seq<i16> {
    Seq::new(1157441, |k: int| weight_at(w, k))
}

impl NnueWeights {
    /// The row vectors have their layer sizes.
    pub open spec fn wf(&self) -> bool {
        &&& self.feature_weights@.len() == 4488
        &&& self.hidden1_weights@.len() == 256
    }

    /// All-zero weights.
    pub fn zeros() -> (w: Self)
        ensures
            w.wf(),
            forall|k: int| 0 <= k < 1157441 ==> #[trigger] weight_at(w, k) == 0,
    {
        let mut fw: Vec<[i16; 256]> = Vec::new();
        let mut f: usize = 0;
        while f < 4488
            invariant
                f <= 4488,
                fw@.len() == f,
                forall|a: int, b: int| 0 <= a < f && 0 <= b < 256 ==> fw@[a]@[b] == 0,
            decreases 4488 - f,
        {
            let row = [0i16; 256];
            assert(forall|b: int| 0 <= b < 256 ==> row@[b] == 0);
            fw.push(row);
            f = f + 1;
        }
        let mut hw: Vec<[i16; 32]> = Vec::new();
        let mut i: usize = 0;
        while i < 256
            invariant
                i <= 256,
                hw@.len() == i,
                forall|a: int, b: int| 0 <= a < i && 0 <= b < 32 ==> hw@[a]@[b] == 0,
            decreases 256 - i,
        {
            let row = [0i16; 32];
            assert(forall|b: int| 0 <= b < 32 ==> row@[b] == 0);
            hw.push(row);
            i = i + 1;
        }
        let w = NnueWeights {
            feature_weights: fw,
            feature_biases: [0i16; 256],
            hidden1_weights: hw,
            hidden1_biases: [0i16; 32],
            hidden2_weights: [0i16; 32],
            hidden2_bias: 0,
        };
        assert forall|k: int| 0 <= k < 1157441 implies #[trigger] weight_at(w, k) == 0 by {
            if k < 1148928 {
                assert(0 <= k / 256 < 4488);
            } else if 1149184 <= k < 1157376 {
                assert(0 <= (k - 1149184) / 32 < 256);
            }
        }
        w
    }

    /// Architecture hash of the layer sizes (4488, 256, 32, 1), folded with
    /// wrapping multiply by 31 and add from "FNNU".
    pub fn architecture_hash() -> (h: u32)
        ensures
            h == ARCHITECTURE_HASH,
    {
        let mut hash: u64 = 0x464E4E55;
        hash = (hash * 31 + 4488) % 0x1_0000_0000;
        hash = (hash * 31 + 256) % 0x1_0000_0000;
        hash = (hash * 31 + 32) % 0x1_0000_0000;
        hash = (hash * 31 + 1) % 0x1_0000_0000;
        hash as u32
    }
}


// ─── Seeded random weights ──────────────────────────────────────────────────

/// Generator state after `n` xorshift64 steps from `seed` (0 becomes 1).
pub open spec fn rng_state(seed: u64, n: nat) -> u64
    decreases n,
{
    if n == 0 {
        if seed == 0 {
            1u64
        } else {
            seed
        }
    } else {
        xs_step(rng_state(seed, (n - 1) as nat))
    }
}

/// Inclusive value range of the weight at flat index `k`.
pub open spec fn weight_range(k: int) -> (int, int) {
    if k < 1148928 {
        (-32, 32)
    } else if k < 1149184 {
        (-16, 16)
    } else if k < 1157376 {
        (-64, 64)
    } else if k < 1157408 {
        (-16, 16)
    } else if k < 1157440 {
        (-64, 64)
    } else {
        (-16, 16)
    }
}

/// A draw in `[lo, hi]` from the generator's `n`-th state.
pub open spec fn draw(seed: u64, n: nat, lo: int, hi: int) -> i16 {
    (lo + (rng_state(seed, n) % ((hi - lo + 1) as u64)) as int) as i16
}

/// The weight at flat index `k` of the random weights for `seed`: the
/// `k`-th draw, in that weight's range.
pub open spec fn random_weight(seed: u64, k: int) -> i16 {
    draw(seed, (k + 1) as nat, weight_range(k).0, weight_range(k).1)
}

struct WeightRng {
    state: u64,
}

impl WeightRng {
    fn draw_range(&mut self, lo: i16, hi: i16, Ghost(seed): Ghost<u64>, Ghost(n): Ghost<nat>) -> (v: i16)
        requires
            old(self).state == rng_state(seed, n),
            lo <= hi,
            -64 <= lo,
            hi <= 64,
        ensures
            final(self).state == rng_state(seed, n + 1),
            v == draw(seed, n + 1, lo as int, hi as int),
    {
        let mut x = self.state;
        x = x ^ (x << 13u64);
        x = x ^ (x >> 7u64);
        x = x ^ (x << 17u64);
        self.state = x;
        let range: u64 = (hi as i64 - lo as i64 + 1) as u64;
        let val: i64 = (x % range) as i64 + lo as i64;
        val as i16
    }

    fn draw_row256(&mut self, lo: i16, hi: i16, Ghost(seed): Ghost<u64>, Ghost(k0): Ghost<nat>) -> (row: [i16; 256])
        requires
            old(self).state == rng_state(seed, k0),
            lo <= hi,
            -64 <= lo,
            hi <= 64,
        ensures
            final(self).state == rng_state(seed, k0 + 256),
            forall|b: int| 0 <= b < 256 ==> #[trigger] row@[b] == draw(seed, (k0 + b + 1) as nat, lo as int, hi as int),
    {
        let mut row = [0i16; 256];
        let mut b: usize = 0;
        while b < 256
            invariant
                b <= 256,
                self.state == rng_state(seed, (k0 + b) as nat),
                lo <= hi,
                -64 <= lo,
                hi <= 64,
                forall|c: int| 0 <= c < b ==> #[trigger] row@[c] == draw(seed, (k0 + c + 1) as nat, lo as int, hi as int),
            decreases 256 - b,
        {
            let v = self.draw_range(lo, hi, Ghost(seed), Ghost((k0 + b) as nat));
            row[b] = v;
            b = b + 1;
        }
        row
    }

    fn draw_row32(&mut self, lo: i16, hi: i16, Ghost(seed): Ghost<u64>, Ghost(k0): Ghost<nat>) -> (row: [i16; 32])
        requires
            old(self).state == rng_state(seed, k0),
            lo <= hi,
            -64 <= lo,
            hi <= 64,
        ensures
            final(self).state == rng_state(seed, k0 + 32),
            forall|b: int| 0 <= b < 32 ==> #[trigger] row@[b] == draw(seed, (k0 + b + 1) as nat, lo as int, hi as int),
    {
        let mut row = [0i16; 32];
        let mut b: usize = 0;
        while b < 32
            invariant
                b <= 32,
                self.state == rng_state(seed, (k0 + b) as nat),
                lo <= hi,
                -64 <= lo,
                hi <= 64,
                forall|c: int| 0 <= c < b ==> #[trigger] row@[c] == draw(seed, (k0 + c + 1) as nat, lo as int, hi as int),
            decreases 32 - b,
        {
            let v = self.draw_range(lo, hi, Ghost(seed), Ghost((k0 + b) as nat));
            row[b] = v;
            b = b + 1;
        }
        row
    }
}

impl NnueWeights {
    /// Random weights from a seed, drawn from xorshift64 in storage order:
    /// feature weights in [-32, 32], biases in [-16, 16], hidden weights in
    /// [-64, 64].
    pub fn random(seed: u64) -> (w: Self)
        ensures
            w.wf(),
            forall|k: int| 0 <= k < 1157441 ==> #[trigger] weight_at(w, k) == random_weight(seed, k),
    {
        let mut rng = WeightRng { state: if seed == 0 { 1 } else { seed } };
        let mut fw: Vec<[i16; 256]> = Vec::new();
        let mut f: usize = 0;
        while f < 4488
            invariant
                f <= 4488,
                fw@.len() == f,
                rng.state == rng_state(seed, (f * 256) as nat),
                forall|a: int, b: int|
                    0 <= a < f && 0 <= b < 256 ==> #[trigger] fw@[a]@[b] == draw(seed, (a * 256 + b + 1) as nat, -32, 32),
            decreases 4488 - f,
        {
            let row = rng.draw_row256(-32, 32, Ghost(seed), Ghost((f * 256) as nat));
            fw.push(row);
            f = f + 1;
        }
        let fb = rng.draw_row256(-16, 16, Ghost(seed), Ghost(1148928nat));
        let mut hw: Vec<[i16; 32]> = Vec::new();
        let mut i: usize = 0;
        while i < 256
            invariant
                i <= 256,
                hw@.len() == i,
                rng.state == rng_state(seed, (1149184 + i * 32) as nat),
                forall|a: int, b: int|
                    0 <= a < i && 0 <= b < 32 ==> #[trigger] hw@[a]@[b] == draw(seed, (1149184 + a * 32 + b + 1) as nat, -64, 64),
            decreases 256 - i,
        {
            let row = rng.draw_row32(-64, 64, Ghost(seed), Ghost((1149184 + i * 32) as nat));
            hw.push(row);
            i = i + 1;
        }
        let hb = rng.draw_row32(-16, 16, Ghost(seed), Ghost(1157376nat));
        let h2 = rng.draw_row32(-64, 64, Ghost(seed), Ghost(1157408nat));
        let bias = rng.draw_range(-16, 16, Ghost(seed), Ghost(1157440nat));
        let w = NnueWeights {
            feature_weights: fw,
            feature_biases: fb,
            hidden1_weights: hw,
            hidden1_biases: hb,
            hidden2_weights: h2,
            hidden2_bias: bias,
        };
        assert forall|k: int| 0 <= k < 1157441 implies #[trigger] weight_at(w, k) == random_weight(seed, k) by {
            if k < 1148928 {
                let a = k / 256;
                let b = k % 256;
                assert(k == a * 256 + b);
                assert(fw@[a]@[b] == draw(seed, (a * 256 + b + 1) as nat, -32, 32));
            } else if k < 1149184 {
                assert(fb@[k - 1148928] == draw(seed, (1148928 + (k - 1148928) + 1) as nat, -16, 16));
            } else if k < 1157376 {
                let a = (k - 1149184) / 32;
                let b = (k - 1149184) % 32;
                assert(k - 1149184 == a * 32 + b);
                assert(hw@[a]@[b] == draw(seed, (1149184 + a * 32 + b + 1) as nat, -64, 64));
            } else if k < 1157408 {
                assert(hb@[k - 1157376] == draw(seed, (1157376 + (k - 1157376) + 1) as nat, -16, 16));
            } else if k < 1157440 {
                assert(h2@[k - 1157408] == draw(seed, (1157408 + (k - 1157408) + 1) as nat, -64, 64));
            }
        }
        w
    }
}


// ─── The .fnnue byte format ─────────────────────────────────────────────────

/// Low byte of a weight's little-endian encoding.
pub open spec fn lo8(x: i16) -> u8 {
    ((x as u16) % 256) as u8
}

/// High byte of a weight's little-endian encoding.
pub open spec fn hi8(x: i16) -> u8 {
    ((x as u16) / 256) as u8
}

/// The weight encoded little-endian by two bytes.
pub open spec fn dec16(lo: u8, hi: u8) -> i16 {
    ((lo as int + 256 * hi as int) as u16) as i16
}

/// Little-endian bytes of a 32-bit value.
pub open spec fn le32(n: u32) -> Seq<u8> {
    seq![(n % 256) as u8, ((n / 256) % 256) as u8, ((n / 65536) % 256) as u8, (n / 16777216) as u8]
}

/// The 32-bit value read little-endian at byte `p`.
pub open spec fn le32_at(b: Seq<u8>, p: int) -> u32 {
    (b[p] as int + 256 * b[p + 1] as int + 65536 * b[p + 2] as int + 16777216 * b[p + 3] as int) as u32
}

/// The format's magic bytes: "FNNUE", 0, 1, 0.
pub open spec fn fnnue_magic() -> Seq<u8> {
    seq![70u8, 78u8, 78u8, 85u8, 69u8, 0u8, 1u8, 0u8]
}

/// The 28-byte header: magic, architecture hash, then the four layer sizes.
pub open spec fn fnnue_header() -> Seq<u8> {
    fnnue_magic() + le32(ARCHITECTURE_HASH) + le32(4488) + le32(256) + le32(32) + le32(1)
}

/// Header followed by every weight, two little-endian bytes each.
pub open spec fn fnnue_bytes(ws: Seq<i16>) -> Seq<u8> {
    fnnue_header() + Seq::new(
        (2 * ws.len()) as nat,
        |i: int|
            if i % 2 == 0 {
                lo8(ws[i / 2])
            } else {
                hi8(ws[i / 2])
            },
    )
}

/// The error reading a byte string meets first, if any: running out of
/// bytes, a wrong magic, a wrong architecture hash, wrong layer sizes.
pub open spec fn fnnue_error(b: Seq<u8>) -> Option<WeightsError> {
    if b.len() < 8 {
        Some(WeightsError::Truncated)
    } else if b.subrange(0, 8) != fnnue_magic() {
        Some(WeightsError::BadMagic)
    } else if b.len() < 12 {
        Some(WeightsError::Truncated)
    } else if le32_at(b, 8) != ARCHITECTURE_HASH {
        Some(WeightsError::ArchitectureMismatch { found: le32_at(b, 8) })
    } else if b.len() < 28 {
        Some(WeightsError::Truncated)
    } else if le32_at(b, 12) != 4488 || le32_at(b, 16) != 256 || le32_at(b, 20) != 32 || le32_at(b, 24)
        != 1 {
        Some(
            WeightsError::LayerSizeMismatch {
                features: le32_at(b, 12),
                hidden1: le32_at(b, 16),
                hidden2: le32_at(b, 20),
                output: le32_at(b, 24),
            },
        )
    } else if b.len() < 28 + 2 * 1157441 {
        Some(WeightsError::Truncated)
    } else {
        None
    }
}

fn push_le32(out: &mut Vec<u8>, n: u32)
    ensures
        final(out)@ == old(out)@ + le32(n),
{
    out.push((n % 256) as u8);
    out.push(((n / 256) % 256) as u8);
    out.push(((n / 65536) % 256) as u8);
    out.push((n / 16777216) as u8);
    assert(final(out)@ =~= old(out)@ + le32(n));
}

fn push_i16(out: &mut Vec<u8>, x: i16)
    ensures
        final(out)@ == old(out)@.push(lo8(x)).push(hi8(x)),
{
    let u = x as u16;
    out.push((u % 256) as u8);
    out.push((u / 256) as u8);
}

fn read_i16(b: &[u8], p: usize) -> (x: i16)
    requires
        p + 1 < b@.len(),
    ensures
        x == dec16(b@[p as int], b@[p as int + 1]),
{
    let v: u16 = b[p] as u16 + 256 * (b[p + 1] as u16);
    v as i16
}

fn read_u32(b: &[u8], p: usize) -> (n: u32)
    requires
        p + 3 < b@.len(),
    ensures
        n == le32_at(b@, p as int),
{
    (b[p] as u32) + 256 * (b[p + 1] as u32) + 65536 * (b[p + 2] as u32) + 16777216 * (b[p + 3] as u32)
}

/// Bytes written so far: the header, then the encodings of the first `k`
/// weights.
pub open spec fn written(out: Seq<u8>, ws: Seq<i16>, k: int) -> bool {
    &&& out.len() == 28 + 2 * k
    &&& out.subrange(0, 28) == fnnue_header()
    &&& forall|j: int| 0 <= j < k ==> #[trigger] out[28 + 2 * j] == lo8(ws[j]) && out[29 + 2 * j] == hi8(ws[j])
}

proof fn lemma_written_push(out: Seq<u8>, ws: Seq<i16>, k: int, x: i16)
    requires
        written(out, ws, k),
        0 <= k < ws.len(),
        ws[k] == x,
    ensures
        written(out.push(lo8(x)).push(hi8(x)), ws, k + 1),
{
    let o2 = out.push(lo8(x)).push(hi8(x));
    assert(o2.subrange(0, 28) =~= out.subrange(0, 28));
    assert forall|j: int| 0 <= j < k + 1 implies #[trigger] o2[28 + 2 * j] == lo8(ws[j]) && o2[29 + 2 * j]
        == hi8(ws[j]) by {
        if j < k {
            assert(o2[28 + 2 * j] == out[28 + 2 * j]);
            assert(o2[29 + 2 * j] == out[29 + 2 * j]);
        }
    }
}

proof fn lemma_written_at(out: Seq<u8>, ws: Seq<i16>, j: int)
    requires
        written(out, ws, ws.len() as int),
        0 <= j < ws.len(),
    ensures
        out[28 + 2 * j] == lo8(ws[j]),
        out[29 + 2 * j] == hi8(ws[j]),
{
    assert(out[28 + 2 * j] == lo8(ws[j]) && out[29 + 2 * j] == hi8(ws[j]));
}

proof fn lemma_written_all(out: Seq<u8>, ws: Seq<i16>)
    requires
        written(out, ws, ws.len() as int),
    ensures
        out == fnnue_bytes(ws),
{
    let t = fnnue_bytes(ws);
    assert forall|i: int| 0 <= i < out.len() implies out[i] == t[i] by {
        if i < 28 {
            assert(out[i] == out.subrange(0, 28)[i]);
        } else {
            let j = (i - 28) / 2;
            assert(i - 28 == 2 * j + (i - 28) % 2);
            assert(0 <= (i - 28) % 2 < 2);
            assert(0 <= j < ws.len());
            lemma_written_at(out, ws, j);
        }
    }
    assert(out =~= t);
}

proof fn lemma_div_mod(k: int, d: int, a: int, b: int)
    requires
        d > 0,
        0 <= b < d,
        k == a * d + b,
    ensures
        k / d == a,
        k % d == b,
{
    vstd::arithmetic::div_mod::lemma_fundamental_div_mod_converse(k, d, a, b);
}

impl NnueWeights {
    /// Encode the weights in the `.fnnue` format.
    pub fn save(&self) -> (out: Vec<u8>)
        requires
            self.wf(),
        ensures
            out@ == fnnue_bytes(weights_seq(*self)),
    {
        let ghost ws = weights_seq(*self);
        let mut out: Vec<u8> = Vec::new();
        out.push(70);
        out.push(78);
        out.push(78);
        out.push(85);
        out.push(69);
        out.push(0);
        out.push(1);
        out.push(0);
        push_le32(&mut out, ARCHITECTURE_HASH);
        push_le32(&mut out, 4488);
        push_le32(&mut out, 256);
        push_le32(&mut out, 32);
        push_le32(&mut out, 1);
        assert(out@.subrange(0, 28) =~= fnnue_header());
        let mut f: usize = 0;
        while f < 4488
            invariant
                self.wf(),
                ws == weights_seq(*self),
                f <= 4488,
                written(out@, ws, (f * 256) as int),
            decreases 4488 - f,
        {
            let row = &self.feature_weights[f];
            let mut b: usize = 0;
            while b < 256
                invariant
                    self.wf(),
                    ws == weights_seq(*self),
                    f < 4488,
                    *row == self.feature_weights@[f as int],
                    b <= 256,
                    written(out@, ws, (f * 256 + b) as int),
                decreases 256 - b,
            {
                let x = row[b];
                proof {
                    lemma_div_mod(f * 256 + b, 256, f as int, b as int);
                    lemma_written_push(out@, ws, (f * 256 + b) as int, x);
                }
                push_i16(&mut out, x);
                b = b + 1;
            }
            f = f + 1;
        }
        let mut i: usize = 0;
        while i < 256
            invariant
                ws == weights_seq(*self),
                i <= 256,
                written(out@, ws, 1148928 + i),
            decreases 256 - i,
        {
            let x = self.feature_biases[i];
            proof {
                lemma_written_push(out@, ws, 1148928 + i, x);
            }
            push_i16(&mut out, x);
            i = i + 1;
        }
        let mut r: usize = 0;
        while r < 256
            invariant
                self.wf(),
                ws == weights_seq(*self),
                r <= 256,
                written(out@, ws, 1149184 + r * 32),
            decreases 256 - r,
        {
            let row = &self.hidden1_weights[r];
            let mut c: usize = 0;
            while c < 32
                invariant
                    self.wf(),
                    ws == weights_seq(*self),
                    r < 256,
                    *row == self.hidden1_weights@[r as int],
                    c <= 32,
                    written(out@, ws, 1149184 + r * 32 + c),
                decreases 32 - c,
            {
                let x = row[c];
                proof {
                    lemma_div_mod(r * 32 + c, 32, r as int, c as int);
                    lemma_written_push(out@, ws, 1149184 + r * 32 + c, x);
                }
                push_i16(&mut out, x);
                c = c + 1;
            }
            r = r + 1;
        }
        let mut i: usize = 0;
        while i < 32
            invariant
                ws == weights_seq(*self),
                i <= 32,
                written(out@, ws, 1157376 + i),
            decreases 32 - i,
        {
            let x = self.hidden1_biases[i];
            proof {
                lemma_written_push(out@, ws, 1157376 + i, x);
            }
            push_i16(&mut out, x);
            i = i + 1;
        }
        let mut i: usize = 0;
        while i < 32
            invariant
                ws == weights_seq(*self),
                i <= 32,
                written(out@, ws, 1157408 + i),
            decreases 32 - i,
        {
            let x = self.hidden2_weights[i];
            proof {
                lemma_written_push(out@, ws, 1157408 + i, x);
            }
            push_i16(&mut out, x);
            i = i + 1;
        }
        proof {
            lemma_written_push(out@, ws, 1157440, self.hidden2_bias);
        }
        push_i16(&mut out, self.hidden2_bias);
        proof {
            lemma_written_all(out@, ws);
        }
        out
    }
}


/// The weights decoded from the bytes after the header.
pub open spec fn decoded(b: Seq<u8>, k: int) -> i16 {
    dec16(b[28 + 2 * k], b[29 + 2 * k])
}

fn check_header(bytes: &[u8]) -> (r: Option<WeightsError>)
    ensures
        r == fnnue_error(bytes@),
{
    let n = bytes.len();
    if n < 8 {
        return Some(WeightsError::Truncated);
    }
    let magic: [u8; 8] = [70, 78, 78, 85, 69, 0, 1, 0];
    let mut i: usize = 0;
    while i < 8
        invariant
            i <= 8,
            n == bytes@.len(),
            n >= 8,
            magic@ == fnnue_magic(),
            forall|j: int| 0 <= j < i ==> bytes@[j] == magic@[j],
        decreases 8 - i,
    {
        if bytes[i] != magic[i] {
            assert(bytes@.subrange(0, 8)[i as int] != fnnue_magic()[i as int]);
            return Some(WeightsError::BadMagic);
        }
        i = i + 1;
    }
    assert(bytes@.subrange(0, 8) =~= fnnue_magic());
    if n < 12 {
        return Some(WeightsError::Truncated);
    }
    let hash = read_u32(bytes, 8);
    if hash != ARCHITECTURE_HASH {
        return Some(WeightsError::ArchitectureMismatch { found: hash });
    }
    if n < 28 {
        return Some(WeightsError::Truncated);
    }
    let features = read_u32(bytes, 12);
    let hidden1 = read_u32(bytes, 16);
    let hidden2 = read_u32(bytes, 20);
    let output = read_u32(bytes, 24);
    if features != 4488 || hidden1 != 256 || hidden2 != 32 || output != 1 {
        return Some(WeightsError::LayerSizeMismatch { features, hidden1, hidden2, output });
    }
    if n < 28 + 2 * 1157441 {
        return Some(WeightsError::Truncated);
    }
    None
}

impl NnueWeights {
    /// Decode weights in the `.fnnue` format. Trailing bytes after the last
    /// weight are ignored.
    pub fn load(bytes: &[u8]) -> (r: Result<Self, WeightsError>)
        ensures
            match r {
                Ok(w) => fnnue_error(bytes@) is None && w.wf() && forall|k: int|
                    0 <= k < 1157441 ==> #[trigger] weight_at(w, k) == decoded(bytes@, k),
                Err(e) => fnnue_error(bytes@) == Some(e),
            },
    {
        match check_header(bytes) {
            Some(e) => {
                return Err(e);
            },
            None => {},
        }
        let mut fw: Vec<[i16; 256]> = Vec::new();
        let mut f: usize = 0;
        while f < 4488
            invariant
                bytes@.len() >= 28 + 2 * 1157441,
                f <= 4488,
                fw@.len() == f,
                forall|a: int, b: int|
                    0 <= a < f && 0 <= b < 256 ==> #[trigger] fw@[a]@[b] == decoded(bytes@, a * 256 + b),
            decreases 4488 - f,
        {
            let mut row = [0i16; 256];
            let mut b: usize = 0;
            while b < 256
                invariant
                    bytes@.len() >= 28 + 2 * 1157441,
                    f < 4488,
                    b <= 256,
                    forall|c: int| 0 <= c < b ==> #[trigger] row@[c] == decoded(bytes@, f * 256 + c),
                decreases 256 - b,
            {
                row[b] = read_i16(bytes, 28 + 2 * (f * 256 + b));
                b = b + 1;
            }
            fw.push(row);
            f = f + 1;
        }
        let mut fb = [0i16; 256];
        let mut i: usize = 0;
        while i < 256
            invariant
                bytes@.len() >= 28 + 2 * 1157441,
                i <= 256,
                forall|c: int| 0 <= c < i ==> #[trigger] fb@[c] == decoded(bytes@, 1148928 + c),
            decreases 256 - i,
        {
            fb[i] = read_i16(bytes, 28 + 2 * (1148928 + i));
            i = i + 1;
        }
        let mut hw: Vec<[i16; 32]> = Vec::new();
        let mut r: usize = 0;
        while r < 256
            invariant
                bytes@.len() >= 28 + 2 * 1157441,
                r <= 256,
                hw@.len() == r,
                forall|a: int, b: int|
                    0 <= a < r && 0 <= b < 32 ==> #[trigger] hw@[a]@[b] == decoded(bytes@, 1149184 + a * 32 + b),
            decreases 256 - r,
        {
            let mut row = [0i16; 32];
            let mut c: usize = 0;
            while c < 32
                invariant
                    bytes@.len() >= 28 + 2 * 1157441,
                    r < 256,
                    c <= 32,
                    forall|d: int| 0 <= d < c ==> #[trigger] row@[d] == decoded(bytes@, 1149184 + r * 32 + d),
                decreases 32 - c,
            {
                row[c] = read_i16(bytes, 28 + 2 * (1149184 + r * 32 + c));
                c = c + 1;
            }
            hw.push(row);
            r = r + 1;
        }
        let mut hb = [0i16; 32];
        let mut i: usize = 0;
        while i < 32
            invariant
                bytes@.len() >= 28 + 2 * 1157441,
                i <= 32,
                forall|c: int| 0 <= c < i ==> #[trigger] hb@[c] == decoded(bytes@, 1157376 + c),
            decreases 32 - i,
        {
            hb[i] = read_i16(bytes, 28 + 2 * (1157376 + i));
            i = i + 1;
        }
        let mut h2 = [0i16; 32];
        let mut i: usize = 0;
        while i < 32
            invariant
                bytes@.len() >= 28 + 2 * 1157441,
                i <= 32,
                forall|c: int| 0 <= c < i ==> #[trigger] h2@[c] == decoded(bytes@, 1157408 + c),
            decreases 32 - i,
        {
            h2[i] = read_i16(bytes, 28 + 2 * (1157408 + i));
            i = i + 1;
        }
        let bias = read_i16(bytes, 28 + 2 * 1157440);
        let w = NnueWeights {
            feature_weights: fw,
            feature_biases: fb,
            hidden1_weights: hw,
            hidden1_biases: hb,
            hidden2_weights: h2,
            hidden2_bias: bias,
        };
        assert forall|k: int| 0 <= k < 1157441 implies #[trigger] weight_at(w, k) == decoded(bytes@, k) by {
            if k < 1148928 {
                let a = k / 256;
                let b = k % 256;
                assert(k == a * 256 + b);
                assert(fw@[a]@[b] == decoded(bytes@, a * 256 + b));
            } else if k < 1149184 {
                assert(fb@[k - 1148928] == decoded(bytes@, 1148928 + (k - 1148928)));
            } else if k < 1157376 {
                let a = (k - 1149184) / 32;
                let b = (k - 1149184) % 32;
                assert(k - 1149184 == a * 32 + b);
                assert(hw@[a]@[b] == decoded(bytes@, 1149184 + a * 32 + b));
            } else if k < 1157408 {
                assert(hb@[k - 1157376] == decoded(bytes@, 1157376 + (k - 1157376)));
            } else if k < 1157440 {
                assert(h2@[k - 1157408] == decoded(bytes@, 1157408 + (k - 1157408)));
            }
        }
        Ok(w)
    }
}

proof fn lemma_dec16(x: i16)
    ensures
        dec16(lo8(x), hi8(x)) == x,
{
    let u = x as u16;
    assert(lo8(x) as int + 256 * hi8(x) as int == u as int);
    assert((u as i16) == x) by (bit_vector)
        requires
            u == x as u16,
    ;
}

/// Reading back what was written gives the same weights: a byte string
/// encoding any sequence of weights passes every header check and decodes to
/// that sequence.
pub proof fn lemma_fnnue_roundtrip(ws: Seq<i16>)
    requires
        ws.len() == 1157441,
    ensures
        fnnue_error(fnnue_bytes(ws)) is None,
        forall|k: int| 0 <= k < 1157441 ==> #[trigger] decoded(fnnue_bytes(ws), k) == ws[k],
{
    let b = fnnue_bytes(ws);
    assert(b.subrange(0, 8) =~= fnnue_magic());
    assert(le32_at(b, 8) == ARCHITECTURE_HASH);
    assert(le32_at(b, 12) == 4488);
    assert(le32_at(b, 16) == 256);
    assert(le32_at(b, 20) == 32);
    assert(le32_at(b, 24) == 1);
    assert forall|k: int| 0 <= k < 1157441 implies #[trigger] decoded(b, k) == ws[k] by {
        assert((2 * k) % 2 == 0 && (2 * k) / 2 == k);
        assert((2 * k + 1) % 2 == 1 && (2 * k + 1) / 2 == k);
        assert(b[28 + 2 * k] == lo8(ws[k]));
        assert(b[29 + 2 * k] == hi8(ws[k]));
        lemma_dec16(ws[k]);
    }
}

impl WeightsError {
    /// A message naming the error.
    pub fn to_string(&self) -> (s: String)
        ensures
            s@ == weights_error_text(*self),
    {
        let mut out: Vec<char> = Vec::new();
        match self {
            WeightsError::Truncated => push_str(&mut out, "failed to fill whole buffer"),
            WeightsError::BadMagic => push_str(&mut out, "Invalid .fnnue magic bytes"),
            WeightsError::ArchitectureMismatch { found } => {
                push_str(&mut out, "Architecture hash mismatch: file=");
                push_dec(&mut out, *found as u64);
                push_str(&mut out, ", expected=");
                push_dec(&mut out, ARCHITECTURE_HASH as u64);
            },
            WeightsError::LayerSizeMismatch { features, hidden1, hidden2, output } => {
                push_str(&mut out, "Layer size mismatch: file=(");
                push_dec(&mut out, *features as u64);
                push_str(&mut out, ",");
                push_dec(&mut out, *hidden1 as u64);
                push_str(&mut out, ",");
                push_dec(&mut out, *hidden2 as u64);
                push_str(&mut out, ",");
                push_dec(&mut out, *output as u64);
                push_str(&mut out, "), expected=(4488,256,32,1)");
            },
        }
        chars_to_string(&out)
    }
}

/// Message text of a weights error.
pub open spec fn weights_error_text(e: WeightsError) -> Seq<char> {
    match e {
        WeightsError::Truncated => "failed to fill whole buffer"@,
        WeightsError::BadMagic => "Invalid .fnnue magic bytes"@,
        WeightsError::ArchitectureMismatch { found } => "Architecture hash mismatch: file="@ + dec(
            found as nat,
        ) + ", expected="@ + dec(ARCHITECTURE_HASH as nat),
        WeightsError::LayerSizeMismatch { features, hidden1, hidden2, output } => "Layer size mismatch: file=("@
            + dec(features as nat) + ","@ + dec(hidden1 as nat) + ","@ + dec(hidden2 as nat) + ","@ + dec(
            output as nat,
        ) + "), expected=(4488,256,32,1)"@,
    }
}

} // verus!
