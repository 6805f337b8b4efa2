//! Zobrist hashing keys for four-player chess positions.
//!
//! Deterministic key generation with the xorshift64 generator. Keys:
//! 7 piece types x 4 players x 196 squares, then 4 side-to-move keys,
//! 8 castling keys and 196 en passant keys, all drawn in that order.

use vstd::prelude::*;

verus! {

/// Seed of the key generator.
pub const ZOBRIST_SEED: u64 = 0x4652_4559_4A41_3450;

/// Offset of the side-to-move keys in the key table.
pub const STM_KEY_BASE: usize = 5488;

/// Offset of the castling keys in the key table.
pub const CASTLING_KEY_BASE: usize = 5492;

/// Offset of the en passant keys in the key table.
pub const EP_KEY_BASE: usize = 5500;

/// Number of keys in the table.
pub const KEY_COUNT: usize = 5696;

/// One step of xorshift64 (shifts 13, 7, 17).
pub open spec fn xs_step(x: u64) -> u64 {
    let a = x ^ (x << 13u64);
    let b = a ^ (a >> 7u64);
    b ^ (b << 17u64)
}

/// Generator state after `n` steps from the seed.
pub open spec fn xs_state(n: nat) -> u64
    decreases n,
{
    if n == 0 {
        ZOBRIST_SEED
    } else {
        xs_step(xs_state((n - 1) as nat))
    }
}

/// The `k`-th key drawn (0-based).
pub open spec fn zkey(k: int) -> u64 {
    xs_state((k + 1) as nat)
}

/// Index of the key of piece type `pt`, player `pl` on square `sq`.
pub open spec fn piece_key_index(pt: int, pl: int, sq: int) -> int {
    (pt * 4 + pl) * 196 + sq
}

/// Key of a piece (by type and owner indices) on a square.
pub open spec fn piece_key(pt: int, pl: int, sq: int) -> u64 {
    zkey(piece_key_index(pt, pl, sq))
}

/// Key of a side to move.
pub open spec fn stm_key(pl: int) -> u64 {
    zkey(5488 + pl)
}

/// Key of one castling rights bit.
pub open spec fn castling_key(bit: int) -> u64 {
    zkey(5492 + bit)
}

/// Key of an en passant square index.
pub open spec fn ep_key(sq: int) -> u64 {
    zkey(5500 + sq)
}

/// Simple xorshift64 generator.
pub struct Xorshift64 {
    pub state: u64,
}

impl Xorshift64 {
    /// A generator at the given state (a zero seed becomes 1).
    pub fn new(seed: u64) -> (r: Self)
        ensures
            r.state == (if seed == 0 {
                1u64
            } else {
                seed
            }),
    {
        Xorshift64 { state: if seed == 0 { 1 } else { seed } }
    }

    /// Advance one step and return the new state.
    pub fn next(&mut self) -> (r: u64)
        ensures
            r == xs_step(old(self).state),
            final(self).state == r,
    {
        let mut x = self.state;
        x ^= x << 13u64;
        x ^= x >> 7u64;
        x ^= x << 17u64;
        self.state = x;
        x
    }
}

/// Zobrist key table. Use the accessors to read a key.
#[derive(Debug)]
pub struct ZobristKeys {
    table: Vec<u64>,
}

impl ZobristKeys {
    /// The table holds exactly the generated keys.
    pub open spec fn wf(&self) -> bool {
        &&& self.table_view().len() == KEY_COUNT
        &&& forall|k: int| 0 <= k < KEY_COUNT ==> #[trigger] self.table_view()[k] == zkey(k)
    }

    /// The keys in drawing order.
    pub closed spec fn table_view(&self) -> Seq<u64> {
        self.table@
    }

    /// Generate the keys from the fixed seed.
    pub fn generate() -> (r: Self)
        ensures
            r.wf(),
    {
        let mut rng = Xorshift64::new(ZOBRIST_SEED);
        let mut table: Vec<u64> = Vec::new();
        let mut k: usize = 0;
        while k < KEY_COUNT
            invariant
                k <= KEY_COUNT,
                table@.len() == k,
                rng.state == xs_state(k as nat),
                forall|j: int| 0 <= j < k ==> #[trigger] table@[j] == zkey(j),
            decreases KEY_COUNT - k,
        {
            let x = rng.next();
            table.push(x);
            k += 1;
        }
        ZobristKeys { table }
    }

    /// Key of a piece of type `pt` owned by `player` on square index `sq`.
    pub fn piece(&self, pt: usize, player: usize, sq: usize) -> (r: u64)
        requires
            self.wf(),
            pt < 7,
            player < 4,
            sq < 196,
        ensures
            r == piece_key(pt as int, player as int, sq as int),
    {
        self.table[(pt * 4 + player) * 196 + sq]
    }

    /// Side-to-move key of a player index.
    pub fn side_to_move(&self, player: usize) -> (r: u64)
        requires
            self.wf(),
            player < 4,
        ensures
            r == stm_key(player as int),
    {
        self.table[STM_KEY_BASE + player]
    }

    /// Key of castling rights bit `bit`.
    pub fn castling(&self, bit: usize) -> (r: u64)
        requires
            self.wf(),
            bit < 8,
        ensures
            r == castling_key(bit as int),
    {
        self.table[CASTLING_KEY_BASE + bit]
    }

    /// En passant key of square index `sq`.
    pub fn en_passant(&self, sq: usize) -> (r: u64)
        requires
            self.wf(),
            sq < 196,
        ensures
            r == ep_key(sq as int),
    {
        self.table[EP_KEY_BASE + sq]
    }
}

/// The Zobrist key table.
pub fn zobrist_keys() -> (r: ZobristKeys)
    ensures
        r.wf(),
{
    ZobristKeys::generate()
}

} // verus!
