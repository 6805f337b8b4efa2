//! Board representation for four-player chess.
//!
//! 14x14 grid with 36 invalid corner squares = 160 valid squares. The board
//! keeps a square array, a piece list per player, each player's king square,
//! the castling rights, the en passant state, the side to move and an
//! incrementally maintained Zobrist hash.

use std::rc::Rc;
use vstd::prelude::*;
use crate::types::{is_valid_index, pidx, player_at, ptidx, valid_index, Piece, PieceType, Player, Square};
use crate::zobrist::{
    castling_key, ep_key, piece_key, stm_key, zobrist_keys, ZobristKeys,
};

verus! {

// ─── Direction constants ────────────────────────────────────────────────────

/// Orthogonal direction deltas: (rank_delta, file_delta).
pub const ORTHOGONAL_DIRS: [(i8, i8); 4] = [(1, 0), (-1, 0), (0, 1), (0, -1)];

/// Diagonal direction deltas.
pub const DIAGONAL_DIRS: [(i8, i8); 4] = [(1, 1), (1, -1), (-1, 1), (-1, -1)];

/// All 8 direction deltas.
pub const ALL_DIRS: [(i8, i8); 8] = [
    (1, 0),
    (-1, 0),
    (0, 1),
    (0, -1),
    (1, 1),
    (1, -1),
    (-1, 1),
    (-1, -1),
];

/// Knight move offsets: (rank_delta, file_delta).
pub const KNIGHT_OFFSETS: [(i8, i8); 8] = [
    (2, 1),
    (2, -1),
    (-2, 1),
    (-2, -1),
    (1, 2),
    (1, -2),
    (-1, 2),
    (-1, -2),
];

/// Pawn capture deltas from the pawn's square, per player:
/// Red NE/NW, Blue NE/SE, Yellow SE/SW, Green NW/SW.
pub const PAWN_CAPTURE_DELTAS: [[(i8, i8); 2]; 4] = [
    [(1, 1), (1, -1)],
    [(1, 1), (-1, 1)],
    [(-1, 1), (-1, -1)],
    [(1, -1), (-1, -1)],
];

// ─── Model ──────────────────────────────────────────────────────────────────

/// The abstract state of a board.
pub ghost struct BoardState {
    /// Occupant of each of the 196 grid squares.
    pub squares: Seq<Option<Piece>>,
    /// King square index of each player (255 once eliminated).
    pub kings: Seq<u8>,
    /// Castling rights, one bit per (player, side).
    pub castling: u8,
    /// En passant target square.
    pub ep: Option<Square>,
    /// Player whose double push created the en passant target.
    pub ep_player: Option<Player>,
    /// Player to move.
    pub stm: Player,
    /// Stored Zobrist hash.
    pub zobrist: u64,
}

/// The hash contribution of grid square `i`.
pub open spec fn square_contrib(sqs: Seq<Option<Piece>>, i: int) -> u64 {
    if valid_index(i) {
        match sqs[i] {
            Some(pc) => piece_key(ptidx(pc.piece_type), pidx(pc.player), i),
            None => 0,
        }
    } else {
        0
    }
}

/// XOR of the contributions of squares below `n`.
pub open spec fn pieces_hash(sqs: Seq<Option<Piece>>, n: int) -> u64
    decreases n,
{
    if n <= 0 {
        0
    } else {
        pieces_hash(sqs, n - 1) ^ square_contrib(sqs, n - 1)
    }
}

/// XOR of the keys of the castling bits below `n` that are set.
pub open spec fn castling_hash(c: u8, n: int) -> u64
    decreases n,
{
    if n <= 0 {
        0
    } else {
        castling_hash(c, n - 1) ^ (if c & (1u8 << ((n - 1) as u8)) != 0 {
            castling_key(n - 1)
        } else {
            0
        })
    }
}

/// Hash contribution of an en passant target.
pub open spec fn ep_hash(ep: Option<Square>) -> u64 {
    match ep {
        Some(s) => ep_key(s.0 as int),
        None => 0,
    }
}

/// The Zobrist hash of a position, computed from scratch.
pub open spec fn full_hash(st: BoardState) -> u64 {
    pieces_hash(st.squares, 196) ^ stm_key(pidx(st.stm)) ^ castling_hash(st.castling, 8)
        ^ ep_hash(st.ep)
}

/// The stored hash agrees with the position.
pub open spec fn hash_consistent(st: BoardState) -> bool {
    st.zobrist == full_hash(st)
}

/// The difference between the stored hash and the position's hash.
pub open spec fn hash_drift(st: BoardState) -> u64 {
    st.zobrist ^ full_hash(st)
}

/// Two states describe the same position (what board equality compares).
pub open spec fn same_position(a: BoardState, b: BoardState) -> bool {
    &&& a.squares == b.squares
    &&& a.castling == b.castling
    &&& a.ep == b.ep
    &&& a.ep_player == b.ep_player
    &&& a.stm == b.stm
}

/// Whether some entry of a piece list stands on square index `s`.
pub open spec fn list_has(l: Seq<(PieceType, Square)>, s: int) -> bool {
    exists|i: int| 0 <= i < l.len() && l[i].1.0 == s
}

/// Every recorded king square (other than the sentinel) holds its player's
/// king.
pub open spec fn kings_placed(st: BoardState) -> bool {
    forall|p: int|
        0 <= p < 4 && #[trigger] st.kings[p] != 255 ==> st.squares[st.kings[p] as int] == Some(
            Piece { piece_type: PieceType::King, player: player_at(p) },
        )
}

/// A piece list agrees with the square array for player index `p`.
pub open spec fn list_sync(l: Seq<(PieceType, Square)>, sqs: Seq<Option<Piece>>, p: int) -> bool {
    &&& forall|i: int|
        0 <= i < l.len() ==> (#[trigger] l[i]).1.0 < 196 && sqs[l[i].1.0 as int] == Some(
            Piece { piece_type: l[i].0, player: player_at(p) },
        )
    &&& forall|i: int, j: int| 0 <= i < j < l.len() ==> (#[trigger] l[i]).1 != (#[trigger] l[j]).1
    &&& forall|s: int|
        0 <= s < 196 && (#[trigger] sqs[s]) is Some && pidx(sqs[s]->0.player) == p ==> list_has(
            l,
            s,
        )
}

// ─── XOR algebra ────────────────────────────────────────────────────────────

proof fn lemma_xor_swap(a: u64, b: u64, c: u64, d: u64)
    ensures
        (a ^ b) ^ (c ^ d) == (a ^ c) ^ (b ^ d),
        (a ^ b) ^ b == a,
        a ^ 0 == a,
        (a ^ b) ^ c == a ^ (b ^ c),
        a ^ b == b ^ a,
{
    assert((a ^ b) ^ (c ^ d) == (a ^ c) ^ (b ^ d)) by (bit_vector);
    assert((a ^ b) ^ b == a) by (bit_vector);
    assert(a ^ 0 == a) by (bit_vector);
    assert((a ^ b) ^ c == a ^ (b ^ c)) by (bit_vector);
    assert(a ^ b == b ^ a) by (bit_vector);
}

proof fn lemma_xor_drift(z: u64, k: u64, p: u64, s: u64, c: u64, e: u64)
    ensures
        (z ^ k) ^ ((((p ^ k) ^ s) ^ c) ^ e) == z ^ (((p ^ s) ^ c) ^ e),
        (z ^ k) ^ (((p ^ s) ^ (c ^ k)) ^ e) == z ^ (((p ^ s) ^ c) ^ e),
        (z ^ k) ^ (((p ^ s) ^ c) ^ (e ^ k)) == z ^ (((p ^ s) ^ c) ^ e),
        (z ^ k) ^ (((p ^ (s ^ k)) ^ c) ^ e) == z ^ (((p ^ s) ^ c) ^ e),
{
    assert((z ^ k) ^ ((((p ^ k) ^ s) ^ c) ^ e) == z ^ (((p ^ s) ^ c) ^ e)) by (bit_vector);
    assert((z ^ k) ^ (((p ^ s) ^ (c ^ k)) ^ e) == z ^ (((p ^ s) ^ c) ^ e)) by (bit_vector);
    assert((z ^ k) ^ (((p ^ s) ^ c) ^ (e ^ k)) == z ^ (((p ^ s) ^ c) ^ e)) by (bit_vector);
    assert((z ^ k) ^ (((p ^ (s ^ k)) ^ c) ^ e) == z ^ (((p ^ s) ^ c) ^ e)) by (bit_vector);
}

proof fn lemma_pieces_hash_prefix(a: Seq<Option<Piece>>, b: Seq<Option<Piece>>, n: int)
    requires
        forall|i: int| 0 <= i < n ==> square_contrib(a, i) == square_contrib(b, i),
    ensures
        pieces_hash(a, n) == pieces_hash(b, n),
    decreases n,
{
    if n > 0 {
        lemma_pieces_hash_prefix(a, b, n - 1);
    }
}

/// Changing one square changes the pieces hash by that square's old and new
/// contributions.
pub proof fn lemma_pieces_hash_update(sqs: Seq<Option<Piece>>, k: int, v: Option<Piece>, n: int)
    requires
        0 <= k < n,
        n <= sqs.len(),
    ensures
        pieces_hash(sqs.update(k, v), n) == pieces_hash(sqs, n) ^ (square_contrib(sqs, k)
            ^ square_contrib(sqs.update(k, v), k)),
    decreases n,
{
    let t = sqs.update(k, v);
    let ck = square_contrib(sqs, k);
    let ck2 = square_contrib(t, k);
    if n - 1 == k {
        assert forall|i: int| 0 <= i < k implies square_contrib(t, i) == square_contrib(sqs, i) by {
            assert(t[i] == sqs[i]);
        }
        lemma_pieces_hash_prefix(t, sqs, k);
        let p = pieces_hash(sqs, k);
        lemma_xor_swap(p, ck, ck, ck2);
        assert((p ^ ck2) == (p ^ ck) ^ (ck ^ ck2)) by (bit_vector);
    } else {
        lemma_pieces_hash_update(sqs, k, v, n - 1);
        assert(t[n - 1] == sqs[n - 1]);
        let p = pieces_hash(sqs, n - 1);
        let c = square_contrib(sqs, n - 1);
        assert((p ^ (ck ^ ck2)) ^ c == (p ^ c) ^ (ck ^ ck2)) by (bit_vector);
    }
}

/// A piece list of distinct in-range squares has at most 196 entries.
proof fn lemma_list_len(l: Seq<(PieceType, Square)>)
    requires
        forall|i: int| 0 <= i < l.len() ==> (#[trigger] l[i]).1.0 < 196,
        forall|i: int, j: int| 0 <= i < j < l.len() ==> (#[trigger] l[i]).1 != (#[trigger] l[j]).1,
    ensures
        l.len() <= 196,
{
    let m = l.map_values(|e: (PieceType, Square)| e.1.0 as int);
    assert forall|i: int, j: int| 0 <= i < m.len() && 0 <= j < m.len() && i != j implies m[i]
        != m[j] by {
        if i < j {
            assert(l[i].1 != l[j].1);
        } else {
            assert(l[j].1 != l[i].1);
        }
    }
    assert(m.no_duplicates());
    m.unique_seq_to_set();
    vstd::set_lib::lemma_int_range(0, 196);
    assert forall|x: int| m.to_set().contains(x) implies vstd::set_lib::set_int_range(
        0,
        196,
    ).contains(x) by {
        let i = choose|i: int| 0 <= i < m.len() && m[i] == x;
        assert(l[i].1.0 < 196);
    }
    vstd::set_lib::lemma_len_subset(m.to_set(), vstd::set_lib::set_int_range(0, 196));
}

// ─── Board ──────────────────────────────────────────────────────────────────

/// The four-player chess board.
#[derive(Debug, Clone)]
pub struct Board {
    squares: Vec<Option<Piece>>,
    piece_lists: Vec<Vec<(PieceType, Square)>>,
    king_squares: Vec<u8>,
    zobrist: u64,
    castling_rights: u8,
    en_passant: Option<Square>,
    en_passant_pushing_player: Option<Player>,
    side_to_move: Player,
    keys: Rc<ZobristKeys>,
}

impl View for Board {
    type V = BoardState;

    closed spec fn view(&self) -> BoardState {
        BoardState {
            squares: self.squares@,
            kings: self.king_squares@,
            castling: self.castling_rights,
            ep: self.en_passant,
            ep_player: self.en_passant_pushing_player,
            stm: self.side_to_move,
            zobrist: self.zobrist,
        }
    }
}

/// A shared handle to the same key table.
///
/// Trusted: `Rc::clone` returns a pointer to the same value.
#[verifier::external_body]
fn share_keys(k: &Rc<ZobristKeys>) -> (r: Rc<ZobristKeys>)
    ensures
        *r == **k,
{
    Rc::clone(k)
}

impl Board {
    /// The board's internal invariant: square array, piece lists and king
    /// squares agree, and every square index held is in range.
    pub closed spec fn wf(&self) -> bool {
        &&& self.squares@.len() == 196
        &&& forall|i: int| 0 <= i < 196 && (#[trigger] self.squares@[i]) is Some ==> valid_index(i)
        &&& self.piece_lists@.len() == 4
        &&& forall|p: int| 0 <= p < 4 ==> list_sync(#[trigger] self.piece_lists@[p]@, self.squares@, p)
        &&& self.king_squares@.len() == 4
        &&& forall|p: int|
            0 <= p < 4 ==> #[trigger] self.king_squares@[p] == 255 || self.king_squares@[p] < 196
        &&& self.en_passant matches Some(s) ==> s.0 < 196 && valid_index(s.0 as int)
        &&& self.keys.wf()
    }

    /// The pieces of player index `p`, in piece-list order.
    pub closed spec fn pieces_view(&self, p: int) -> Seq<(PieceType, Square)> {
        self.piece_lists@[p]@
    }

    /// Properties of a well-formed board that callers rely on.
    pub proof fn lemma_wf(&self)
        requires
            self.wf(),
        ensures
            self@.squares.len() == 196,
            self@.kings.len() == 4,
            forall|i: int| 0 <= i < 196 && (#[trigger] self@.squares[i]) is Some ==> valid_index(i),
            forall|p: int| 0 <= p < 4 ==> #[trigger] self@.kings[p] == 255 || self@.kings[p] < 196,
            self@.ep matches Some(s) ==> s.0 < 196 && valid_index(s.0 as int),
            forall|p: int| 0 <= p < 4 ==> list_sync(#[trigger] self.pieces_view(p), self@.squares, p),
    {
    }

    /// A player's piece list is short and names in-range squares.
    pub proof fn lemma_pieces_bounded(&self, p: int)
        requires
            self.wf(),
            0 <= p < 4,
        ensures
            self.pieces_view(p).len() <= 196,
            forall|i: int| 0 <= i < self.pieces_view(p).len() ==> (#[trigger] self.pieces_view(p)[i]).1.0 < 196,
    {
        assert(list_sync(self.piece_lists@[p]@, self.squares@, p));
        lemma_list_len(self.piece_lists@[p]@);
    }

    fn new_empty_lists() -> (r: Vec<Vec<(PieceType, Square)>>)
        ensures
            r@.len() == 4,
            forall|p: int| 0 <= p < 4 ==> (#[trigger] r@[p])@.len() == 0,
    {
        let mut r: Vec<Vec<(PieceType, Square)>> = Vec::new();
        r.push(Vec::new());
        r.push(Vec::new());
        r.push(Vec::new());
        r.push(Vec::new());
        r
    }

    /// An empty board with no pieces: no castling rights, no en passant,
    /// Red to move, every king square at the sentinel, stored hash 0.
    pub fn empty() -> (b: Self)
        ensures
            b.wf(),
            forall|i: int| 0 <= i < 196 ==> b@.squares[i] is None,
            forall|p: int| 0 <= p < 4 ==> b@.kings[p] == 255,
            b@.castling == 0,
            b@.ep is None,
            b@.ep_player is None,
            b@.stm == Player::Red,
            b@.zobrist == 0,
            forall|p: int| 0 <= p < 4 ==> b.pieces_view(p).len() == 0,
    {
        let mut squares: Vec<Option<Piece>> = Vec::new();
        let mut i: usize = 0;
        while i < 196
            invariant
                i <= 196,
                squares@.len() == i,
                forall|j: int| 0 <= j < i ==> squares@[j] is None,
            decreases 196 - i,
        {
            squares.push(None);
            i += 1;
        }
        let keys = Rc::new(zobrist_keys());
        Board {
            squares,
            piece_lists: Self::new_empty_lists(),
            king_squares: vec![255u8, 255u8, 255u8, 255u8],
            zobrist: 0,
            castling_rights: 0,
            en_passant: None,
            en_passant_pushing_player: None,
            side_to_move: Player::Red,
            keys,
        }
    }

    /// A copy of the board (sharing the key table).
    pub fn clone_board(&self) -> (r: Self)
        requires
            self.wf(),
        ensures
            r.wf(),
            r@ == self@,
            forall|p: int| 0 <= p < 4 ==> r.pieces_view(p) == self.pieces_view(p),
    {
        let mut squares: Vec<Option<Piece>> = Vec::new();
        let mut i: usize = 0;
        while i < 196
            invariant
                self.wf(),
                i <= 196,
                squares@ == self.squares@.subrange(0, i as int),
            decreases 196 - i,
        {
            squares.push(self.squares[i]);
            i += 1;
        }
        assert(squares@ =~= self.squares@);
        let mut lists: Vec<Vec<(PieceType, Square)>> = Vec::new();
        let mut p: usize = 0;
        while p < 4
            invariant
                self.wf(),
                p <= 4,
                lists@.len() == p,
                forall|q: int| 0 <= q < p ==> (#[trigger] lists@[q])@ == self.piece_lists@[q]@,
            decreases 4 - p,
        {
            let src = &self.piece_lists[p];
            let mut l: Vec<(PieceType, Square)> = Vec::new();
            let mut j: usize = 0;
            while j < src.len()
                invariant
                    j <= src@.len(),
                    l@ == src@.subrange(0, j as int),
                decreases src@.len() - j,
            {
                l.push(src[j]);
                j += 1;
            }
            assert(l@ =~= src@);
            lists.push(l);
            p += 1;
        }
        let kings = vec![
            self.king_squares[0],
            self.king_squares[1],
            self.king_squares[2],
            self.king_squares[3],
        ];
        assert(kings@ =~= self.king_squares@);
        Board {
            squares,
            piece_lists: lists,
            king_squares: kings,
            zobrist: self.zobrist,
            castling_rights: self.castling_rights,
            en_passant: self.en_passant,
            en_passant_pushing_player: self.en_passant_pushing_player,
            side_to_move: self.side_to_move,
            keys: share_keys(&self.keys),
        }
    }

    // ─── Accessors ──────────────────────────────────────────────────────────

    /// The piece at a square (None for empty or invalid squares).
    pub fn piece_at(&self, sq: Square) -> (r: Option<Piece>)
        requires
            self.wf(),
            sq.0 < 196,
        ensures
            r == self@.squares[sq.0 as int],
    {
        self.squares[sq.0 as usize]
    }

    /// The current side to move.
    pub fn side_to_move(&self) -> (r: Player)
        ensures
            r == self@.stm,
    {
        self.side_to_move
    }

    /// A player's king square index (the sentinel 255 once eliminated).
    pub fn king_square(&self, player: Player) -> (r: u8)
        requires
            self.wf(),
        ensures
            r == self@.kings[pidx(player)],
    {
        self.king_squares[player.index()]
    }

    /// The castling rights byte.
    pub fn castling_rights(&self) -> (r: u8)
        ensures
            r == self@.castling,
    {
        self.castling_rights
    }

    /// The en passant target square, if any.
    pub fn en_passant(&self) -> (r: Option<Square>)
        ensures
            r == self@.ep,
    {
        self.en_passant
    }

    /// The player whose double push created the en passant target.
    pub fn en_passant_pushing_player(&self) -> (r: Option<Player>)
        ensures
            r == self@.ep_player,
    {
        self.en_passant_pushing_player
    }

    /// The stored Zobrist hash.
    pub fn zobrist_hash(&self) -> (r: u64)
        ensures
            r == self@.zobrist,
    {
        self.zobrist
    }

    /// Number of pieces a player has.
    pub fn piece_count(&self, player: Player) -> (r: u8)
        requires
            self.wf(),
        ensures
            r == self.pieces_view(pidx(player)).len(),
    {
        let l = &self.piece_lists[player.index()];
        proof {
            assert(list_sync(self.piece_lists@[pidx(player)]@, self.squares@, pidx(player)));
            lemma_list_len(l@);
        }
        l.len() as u8
    }

    /// A player's pieces, in piece-list order.
    pub fn pieces(&self, player: Player) -> (r: Vec<(PieceType, Square)>)
        requires
            self.wf(),
        ensures
            r@ == self.pieces_view(pidx(player)),
    {
        let src = &self.piece_lists[player.index()];
        let mut l: Vec<(PieceType, Square)> = Vec::new();
        let mut j: usize = 0;
        while j < src.len()
            invariant
                j <= src@.len(),
                l@ == src@.subrange(0, j as int),
            decreases src@.len() - j,
        {
            l.push(src[j]);
            j += 1;
        }
        assert(l@ =~= src@);
        l
    }

    // ─── Piece lists ────────────────────────────────────────────────────────

    fn find_in_piece_list(&self, player: Player, sq: Square) -> (r: Option<usize>)
        requires
            self.wf(),
        ensures
            r matches Some(i) ==> i < self.pieces_view(pidx(player)).len()
                && self.pieces_view(pidx(player))[i as int].1 == sq,
            r is None ==> !list_has(self.pieces_view(pidx(player)), sq.0 as int),
    {
        let l = &self.piece_lists[player.index()];
        let mut i: usize = 0;
        while i < l.len()
            invariant
                i <= l@.len(),
                l@ == self.pieces_view(pidx(player)),
                forall|j: int| 0 <= j < i ==> l@[j].1 != sq,
            decreases l@.len() - i,
        {
            if l[i].1 == sq {
                return Some(i);
            }
            i += 1;
        }
        None
    }

    // ─── Mutation ───────────────────────────────────────────────────────────

    /// Place a piece on an empty playable square, updating the square array,
    /// the piece list, the king square (for a king) and the Zobrist hash.
    pub fn set_piece(&mut self, sq: Square, piece: Piece)
        requires
            old(self).wf(),
            sq.valid(),
            old(self)@.squares[sq.0 as int] is None,
        ensures
            final(self).wf(),
            final(self)@.squares == old(self)@.squares.update(sq.0 as int, Some(piece)),
            final(self)@.kings == (if piece.piece_type == PieceType::King {
                old(self)@.kings.update(pidx(piece.player), sq.0)
            } else {
                old(self)@.kings
            }),
            final(self)@.castling == old(self)@.castling,
            final(self)@.ep == old(self)@.ep,
            final(self)@.ep_player == old(self)@.ep_player,
            final(self)@.stm == old(self)@.stm,
            final(self)@.zobrist == old(self)@.zobrist ^ piece_key(
                ptidx(piece.piece_type),
                pidx(piece.player),
                sq.0 as int,
            ),
            hash_drift(final(self)@) == hash_drift(old(self)@),
            final(self).pieces_view(pidx(piece.player)) == old(self).pieces_view(
                pidx(piece.player),
            ).push((piece.piece_type, sq)),
            forall|p: int|
                0 <= p < 4 && p != pidx(piece.player) ==> #[trigger] final(self).pieces_view(p)
                    == old(self).pieces_view(p),
    {
        let ghost old_sqs = self.squares@;
        let ghost old_lists = self.piece_lists@;
        let idx = sq.0 as usize;
        let key = self.keys.piece(piece.piece_type.index(), piece.player.index(), idx);
        self.squares.set(idx, Some(piece));
        self.zobrist = self.zobrist ^ key;
        let p = piece.player.index();
        self.piece_lists[p].push((piece.piece_type, sq));
        if piece.piece_type == PieceType::King {
            self.king_squares.set(p, sq.0);
        }
        proof {
            let new_sqs = self.squares@;
            assert(new_sqs == old_sqs.update(idx as int, Some(piece)));
            assert forall|q: int| 0 <= q < 4 implies list_sync(
                #[trigger] self.piece_lists@[q]@,
                new_sqs,
                q,
            ) by {
                let ol = old_lists[q]@;
                assert(list_sync(ol, old_sqs, q));
                let nl = self.piece_lists@[q]@;
                assert forall|i: int| 0 <= i < ol.len() implies (#[trigger] ol[i]).1.0 != idx by {
                    assert(old_sqs[ol[i].1.0 as int] is Some);
                }
                if q == p {
                    assert(nl == ol.push((piece.piece_type, sq)));
                    assert forall|s: int|
                        0 <= s < 196 && (#[trigger] new_sqs[s]) is Some && pidx(
                            new_sqs[s]->0.player,
                        ) == q implies list_has(nl, s) by {
                        if s == idx {
                            assert(nl[ol.len() as int].1.0 == s);
                        } else {
                            assert(old_sqs[s] == new_sqs[s]);
                            assert(list_has(ol, s));
                            let i = choose|i: int| 0 <= i < ol.len() && ol[i].1.0 == s;
                            assert(nl[i] == ol[i]);
                        }
                    }
                    assert forall|i: int, j: int| 0 <= i < j < nl.len() implies (#[trigger] nl[i]).1
                        != (#[trigger] nl[j]).1 by {
                        if j == ol.len() {
                            assert(nl[i] == ol[i]);
                            assert(ol[i].1.0 != idx);
                        } else {
                            assert(nl[i] == ol[i] && nl[j] == ol[j]);
                        }
                    }
                    assert forall|i: int| 0 <= i < nl.len() implies (#[trigger] nl[i]).1.0 < 196
                        && new_sqs[nl[i].1.0 as int] == Some(
                        Piece { piece_type: nl[i].0, player: player_at(q) },
                    ) by {
                        if i < ol.len() {
                            assert(nl[i] == ol[i]);
                        }
                    }
                } else {
                    assert(nl == ol);
                    assert forall|s: int|
                        0 <= s < 196 && (#[trigger] new_sqs[s]) is Some && pidx(
                            new_sqs[s]->0.player,
                        ) == q implies list_has(nl, s) by {
                        assert(s != idx);
                        assert(old_sqs[s] == new_sqs[s]);
                    }
                    assert forall|i: int| 0 <= i < nl.len() implies (#[trigger] nl[i]).1.0 < 196
                        && new_sqs[nl[i].1.0 as int] == Some(
                        Piece { piece_type: nl[i].0, player: player_at(q) },
                    ) by {
                        assert(ol[i].1.0 != idx);
                    }
                }
            }
            assert forall|i: int| 0 <= i < 196 && (#[trigger] new_sqs[i]) is Some implies valid_index(
                i,
            ) by {
                if i != idx {
                    assert(old_sqs[i] == new_sqs[i]);
                }
            }
            lemma_pieces_hash_update(old_sqs, idx as int, Some(piece), 196);
            assert(square_contrib(old_sqs, idx as int) == 0);
            assert(square_contrib(new_sqs, idx as int) == key);
            let o = old(self)@;
            let ph = pieces_hash(old_sqs, 196);
            assert(ph ^ (0u64 ^ key) == ph ^ key) by (bit_vector);
            assert(pieces_hash(new_sqs, 196) == ph ^ key);
            lemma_xor_drift(
                o.zobrist,
                key,
                ph,
                stm_key(pidx(o.stm)),
                castling_hash(o.castling, 8),
                ep_hash(o.ep),
            );
        }
    }

    /// Remove the piece on a square, updating the square array, the piece
    /// list and the Zobrist hash (the king square is left as it was).
    /// Returns the removed piece.
    pub fn remove_piece(&mut self, sq: Square) -> (r: Piece)
        requires
            old(self).wf(),
            sq.0 < 196,
            old(self)@.squares[sq.0 as int] is Some,
        ensures
            final(self).wf(),
            Some(r) == old(self)@.squares[sq.0 as int],
            final(self)@.squares == old(self)@.squares.update(sq.0 as int, None),
            final(self)@.kings == old(self)@.kings,
            final(self)@.castling == old(self)@.castling,
            final(self)@.ep == old(self)@.ep,
            final(self)@.ep_player == old(self)@.ep_player,
            final(self)@.stm == old(self)@.stm,
            final(self)@.zobrist == old(self)@.zobrist ^ piece_key(
                ptidx(r.piece_type),
                pidx(r.player),
                sq.0 as int,
            ),
            hash_drift(final(self)@) == hash_drift(old(self)@),
            forall|p: int|
                0 <= p < 4 && p != pidx(r.player) ==> #[trigger] final(self).pieces_view(p)
                    == old(self).pieces_view(p),
            exists|k: int|
                0 <= k < old(self).pieces_view(pidx(r.player)).len() && (#[trigger] old(self).pieces_view(pidx(r.player))[k]).1
                    == sq && final(self).pieces_view(pidx(r.player)) == old(self).pieces_view(pidx(r.player)).update(
                    k,
                    old(self).pieces_view(pidx(r.player)).last(),
                ).drop_last(),
    {
        let ghost old_sqs = self.squares@;
        let ghost old_lists = self.piece_lists@;
        let idx = sq.0 as usize;
        let piece = self.squares[idx].unwrap();
        let key = self.keys.piece(piece.piece_type.index(), piece.player.index(), idx);
        let p = piece.player.index();
        proof {
            assert(valid_index(idx as int));
            assert(list_sync(old_lists[p as int]@, old_sqs, p as int));
        }
        let pos = self.find_in_piece_list(piece.player, sq);
        self.squares.set(idx, None);
        self.zobrist = self.zobrist ^ key;
        let ghost ol = old_lists[p as int]@;
        match pos {
            Some(pos) => {
                let count = self.piece_lists[p].len();
                let last = self.piece_lists[p][count - 1];
                self.piece_lists[p].set(pos, last);
                self.piece_lists[p].pop();
                proof {
                    let nl = self.piece_lists@[p as int]@;
                    assert(nl =~= ol.update(pos as int, ol[count - 1]).drop_last());
                    assert(ol.last() == ol[count - 1]);
                }
            },
            None => {
                proof {
                    assert(list_has(ol, idx as int));
                }
            },
        }
        proof {
            let new_sqs = self.squares@;
            let pos = pos->0;
            let count = ol.len();
            assert forall|q: int| 0 <= q < 4 implies list_sync(
                #[trigger] self.piece_lists@[q]@,
                new_sqs,
                q,
            ) by {
                let oq = old_lists[q]@;
                assert(list_sync(oq, old_sqs, q));
                let nl = self.piece_lists@[q]@;
                if q == p {
                    assert forall|i: int| 0 <= i < nl.len() implies (#[trigger] nl[i]).1.0 < 196
                        && new_sqs[nl[i].1.0 as int] == Some(
                        Piece { piece_type: nl[i].0, player: player_at(q) },
                    ) by {
                        if i == pos {
                            assert(nl[i] == ol[count - 1]);
                            assert(ol[count - 1].1 != ol[pos as int].1);
                        } else {
                            assert(nl[i] == ol[i]);
                            assert(ol[i].1 != ol[pos as int].1);
                        }
                    }
                    assert forall|i: int, j: int| 0 <= i < j < nl.len() implies (#[trigger] nl[i]).1
                        != (#[trigger] nl[j]).1 by {
                        if i == pos {
                            assert(nl[i] == ol[count - 1] && nl[j] == ol[j]);
                        } else if j == pos {
                            assert(nl[j] == ol[count - 1] && nl[i] == ol[i]);
                        } else {
                            assert(nl[i] == ol[i] && nl[j] == ol[j]);
                        }
                    }
                    assert forall|s: int|
                        0 <= s < 196 && (#[trigger] new_sqs[s]) is Some && pidx(
                            new_sqs[s]->0.player,
                        ) == q implies list_has(nl, s) by {
                        assert(s != idx);
                        assert(old_sqs[s] == new_sqs[s]);
                        assert(list_has(ol, s));
                        let i = choose|i: int| 0 <= i < ol.len() && ol[i].1.0 == s;
                        assert(i != pos);
                        if i == count - 1 {
                            assert(nl[pos as int] == ol[i]);
                        } else {
                            assert(nl[i] == ol[i]);
                        }
                    }
                } else {
                    assert(nl == oq);
                    assert forall|i: int| 0 <= i < nl.len() implies (#[trigger] nl[i]).1.0 < 196
                        && new_sqs[nl[i].1.0 as int] == Some(
                        Piece { piece_type: nl[i].0, player: player_at(q) },
                    ) by {
                        assert(old_sqs[nl[i].1.0 as int] == Some(
                            Piece { piece_type: nl[i].0, player: player_at(q) },
                        ));
                        assert(nl[i].1.0 != idx);
                    }
                    assert forall|s: int|
                        0 <= s < 196 && (#[trigger] new_sqs[s]) is Some && pidx(
                            new_sqs[s]->0.player,
                        ) == q implies list_has(nl, s) by {
                        assert(old_sqs[s] == new_sqs[s]);
                    }
                }
            }
            assert forall|i: int| 0 <= i < 196 && (#[trigger] new_sqs[i]) is Some implies valid_index(
                i,
            ) by {
                assert(old_sqs[i] == new_sqs[i]);
            }
            lemma_pieces_hash_update(old_sqs, idx as int, None, 196);
            assert(square_contrib(old_sqs, idx as int) == key);
            assert(square_contrib(new_sqs, idx as int) == 0);
            let o = old(self)@;
            let ph = pieces_hash(old_sqs, 196);
            assert(ph ^ (key ^ 0u64) == ph ^ key) by (bit_vector);
            assert(pieces_hash(new_sqs, 196) == ph ^ key);
            lemma_xor_drift(
                o.zobrist,
                key,
                ph,
                stm_key(pidx(o.stm)),
                castling_hash(o.castling, 8),
                ep_hash(o.ep),
            );
        }
        piece
    }

    /// Mark a player's king as gone: the king square becomes the sentinel.
    pub fn set_king_eliminated(&mut self, player: Player)
        requires
            old(self).wf(),
        ensures
            final(self).wf(),
            final(self)@ == (BoardState { kings: old(self)@.kings.update(pidx(player), 255u8), ..old(self)@ }),
            forall|p: int| 0 <= p < 4 ==> #[trigger] final(self).pieces_view(p) == old(self).pieces_view(p),
    {
        self.king_squares.set(player.index(), 255u8);
    }

    /// Set the castling rights, updating the Zobrist hash.
    pub fn set_castling_rights(&mut self, rights: u8)
        requires
            old(self).wf(),
        ensures
            final(self).wf(),
            final(self)@ == (BoardState {
                castling: rights,
                zobrist: old(self)@.zobrist ^ castling_hash(old(self)@.castling, 8) ^ castling_hash(
                    rights,
                    8,
                ),
                ..old(self)@
            }),
            hash_drift(final(self)@) == hash_drift(old(self)@),
            forall|p: int| 0 <= p < 4 ==> #[trigger] final(self).pieces_view(p) == old(self).pieces_view(p),
    {
        let old_rights = self.castling_rights;
        let h1 = self.castling_bits_hash(old_rights);
        let h2 = self.castling_bits_hash(rights);
        self.zobrist = self.zobrist ^ h1;
        self.castling_rights = rights;
        self.zobrist = self.zobrist ^ h2;
        proof {
            let o = old(self)@;
            lemma_xor_drift(
                o.zobrist ^ h1,
                h2,
                pieces_hash(o.squares, 196),
                stm_key(pidx(o.stm)),
                h1,
                ep_hash(o.ep),
            );
            let z = o.zobrist;
            let p = pieces_hash(o.squares, 196);
            let s = stm_key(pidx(o.stm));
            let e = ep_hash(o.ep);
            assert(((z ^ h1) ^ h2) ^ (((p ^ s) ^ h2) ^ e) == z ^ (((p ^ s) ^ h1) ^ e))
                by (bit_vector);
        }
    }

    /// XOR of the castling keys of the set bits of `c`.
    fn castling_bits_hash(&self, c: u8) -> (h: u64)
        requires
            self.wf(),
        ensures
            h == castling_hash(c, 8),
    {
        let mut h: u64 = 0;
        let mut bit: usize = 0;
        while bit < 8
            invariant
                self.wf(),
                bit <= 8,
                h == castling_hash(c, bit as int),
            decreases 8 - bit,
        {
            if c & (1u8 << (bit as u8)) != 0 {
                h = h ^ self.keys.castling(bit);
            } else {
                proof {
                    lemma_xor_swap(h, 0, 0, 0);
                }
            }
            bit += 1;
        }
        h
    }

    /// Set the en passant state, updating the Zobrist hash.
    pub fn set_en_passant(&mut self, ep_sq: Option<Square>, pushing_player: Option<Player>)
        requires
            old(self).wf(),
            ep_sq matches Some(s) ==> s.0 < 196 && valid_index(s.0 as int),
        ensures
            final(self).wf(),
            final(self)@ == (BoardState {
                ep: ep_sq,
                ep_player: pushing_player,
                zobrist: old(self)@.zobrist ^ ep_hash(old(self)@.ep) ^ ep_hash(ep_sq),
                ..old(self)@
            }),
            hash_drift(final(self)@) == hash_drift(old(self)@),
            forall|p: int| 0 <= p < 4 ==> #[trigger] final(self).pieces_view(p) == old(self).pieces_view(p),
    {
        let h1: u64 = match self.en_passant {
            Some(s) => self.keys.en_passant(s.0 as usize),
            None => 0,
        };
        let h2: u64 = match ep_sq {
            Some(s) => self.keys.en_passant(s.0 as usize),
            None => 0,
        };
        self.zobrist = self.zobrist ^ h1;
        self.en_passant = ep_sq;
        self.en_passant_pushing_player = pushing_player;
        self.zobrist = self.zobrist ^ h2;
        proof {
            let o = old(self)@;
            let z = o.zobrist;
            let p = pieces_hash(o.squares, 196);
            let s = stm_key(pidx(o.stm));
            let c = castling_hash(o.castling, 8);
            assert(((z ^ h1) ^ h2) ^ (((p ^ s) ^ c) ^ h2) == z ^ (((p ^ s) ^ c) ^ h1))
                by (bit_vector);
        }
    }

    /// Set the side to move, updating the Zobrist hash.
    pub fn set_side_to_move(&mut self, player: Player)
        requires
            old(self).wf(),
        ensures
            final(self).wf(),
            final(self)@ == (BoardState {
                stm: player,
                zobrist: old(self)@.zobrist ^ stm_key(pidx(old(self)@.stm)) ^ stm_key(pidx(player)),
                ..old(self)@
            }),
            hash_drift(final(self)@) == hash_drift(old(self)@),
            forall|p: int| 0 <= p < 4 ==> #[trigger] final(self).pieces_view(p) == old(self).pieces_view(p),
    {
        let h1 = self.keys.side_to_move(self.side_to_move.index());
        let h2 = self.keys.side_to_move(player.index());
        self.zobrist = self.zobrist ^ h1;
        self.side_to_move = player;
        self.zobrist = self.zobrist ^ h2;
        proof {
            let o = old(self)@;
            let z = o.zobrist;
            let p = pieces_hash(o.squares, 196);
            let c = castling_hash(o.castling, 8);
            let e = ep_hash(o.ep);
            assert(((z ^ h1) ^ h2) ^ (((p ^ h2) ^ c) ^ e) == z ^ (((p ^ h1) ^ c) ^ e))
                by (bit_vector);
        }
    }

    /// Compute the Zobrist hash from scratch.
    pub fn compute_full_hash(&self) -> (h: u64)
        requires
            self.wf(),
        ensures
            h == full_hash(self@),
    {
        let mut ph: u64 = 0;
        let mut i: usize = 0;
        while i < 196
            invariant
                self.wf(),
                i <= 196,
                ph == pieces_hash(self.squares@, i as int),
            decreases 196 - i,
        {
            if is_valid_index(i) {
                match self.squares[i] {
                    Some(piece) => {
                        ph = ph ^ self.keys.piece(piece.piece_type.index(), piece.player.index(), i);
                    },
                    None => {
                        proof {
                            lemma_xor_swap(ph, 0, 0, 0);
                        }
                    },
                }
            } else {
                proof {
                    lemma_xor_swap(ph, 0, 0, 0);
                }
            }
            i += 1;
        }
        let mut hash = ph ^ self.keys.side_to_move(self.side_to_move.index());
        hash = hash ^ self.castling_bits_hash(self.castling_rights);
        match self.en_passant {
            Some(ep) => {
                hash = hash ^ self.keys.en_passant(ep.0 as usize);
            },
            None => {
                proof {
                    lemma_xor_swap(hash, 0, 0, 0);
                }
            },
        }
        hash
    }

    /// Recompute and store the Zobrist hash.
    pub fn refresh_hash(&mut self)
        requires
            old(self).wf(),
        ensures
            final(self).wf(),
            final(self)@ == (BoardState { zobrist: full_hash(old(self)@), ..old(self)@ }),
            hash_consistent(final(self)@),
            forall|p: int| 0 <= p < 4 ==> #[trigger] final(self).pieces_view(p) == old(self).pieces_view(p),
    {
        self.zobrist = self.compute_full_hash();
    }

    /// The piece lists agree with the square array: every listed piece
    /// stands on its square, no square is listed twice, and every occupied
    /// square is listed for its owner; and every recorded king square holds
    /// its player's king. The board's invariant carries the first part; a
    /// board whose recorded king square lost its king fails the check, so
    /// such a board is not accepted.
    pub fn assert_piece_list_sync(&self)
        requires
            self.wf(),
            kings_placed(self@),
        ensures
            forall|p: int| 0 <= p < 4 ==> list_sync(#[trigger] self.pieces_view(p), self@.squares, p),
    {
    }

    /// Whether two boards hold the same position: same squares, castling
    /// rights, en passant state and side to move.
    pub fn same_position(&self, other: &Board) -> (r: bool)
        requires
            self.wf(),
            other.wf(),
        ensures
            r == same_position(self@, other@),
    {
        let mut i: usize = 0;
        while i < 196
            invariant
                self.wf(),
                other.wf(),
                i <= 196,
                forall|j: int| 0 <= j < i ==> self@.squares[j] == other@.squares[j],
            decreases 196 - i,
        {
            if self.squares[i] != other.squares[i] {
                return false;
            }
            i += 1;
        }
        assert(self@.squares =~= other@.squares);
        self.castling_rights == other.castling_rights && self.en_passant == other.en_passant
            && self.en_passant_pushing_player == other.en_passant_pushing_player
            && self.side_to_move == other.side_to_move
    }
}

/// Back-rank order for Red and Green: R N B Q K B N R.
pub open spec fn back_rank_a(k: int) -> PieceType {
    if k == 0 || k == 7 {
        PieceType::Rook
    } else if k == 1 || k == 6 {
        PieceType::Knight
    } else if k == 2 || k == 5 {
        PieceType::Bishop
    } else if k == 3 {
        PieceType::Queen
    } else {
        PieceType::King
    }
}

/// Back-rank order for Blue and Yellow: R N B K Q B N R.
pub open spec fn back_rank_b(k: int) -> PieceType {
    if k == 3 {
        PieceType::King
    } else if k == 4 {
        PieceType::Queen
    } else {
        back_rank_a(k)
    }
}

/// The occupant of grid square `i` in the starting position.
pub open spec fn start_piece(i: int) -> Option<Piece> {
    let r = i / 14;
    let f = i % 14;
    if !(0 <= i < 196) {
        None
    } else if r == 0 && 3 <= f <= 10 {
        Some(Piece { piece_type: back_rank_a(f - 3), player: Player::Red })
    } else if r == 1 && 3 <= f <= 10 {
        Some(Piece { piece_type: PieceType::Pawn, player: Player::Red })
    } else if f == 0 && 3 <= r <= 10 {
        Some(Piece { piece_type: back_rank_b(r - 3), player: Player::Blue })
    } else if f == 1 && 3 <= r <= 10 {
        Some(Piece { piece_type: PieceType::Pawn, player: Player::Blue })
    } else if r == 13 && 3 <= f <= 10 {
        Some(Piece { piece_type: back_rank_b(f - 3), player: Player::Yellow })
    } else if r == 12 && 3 <= f <= 10 {
        Some(Piece { piece_type: PieceType::Pawn, player: Player::Yellow })
    } else if f == 13 && 3 <= r <= 10 {
        Some(Piece { piece_type: back_rank_a(r - 3), player: Player::Green })
    } else if f == 12 && 3 <= r <= 10 {
        Some(Piece { piece_type: PieceType::Pawn, player: Player::Green })
    } else {
        None
    }
}

/// Position of `i` on the line of 8 squares `base, base + step, ...`.
pub open spec fn line_pos(i: int, base: int, step: int) -> int {
    if step == 1 {
        i - base
    } else {
        (i - base) / 14
    }
}

/// Whether `i` lies on the line of 8 squares `base, base + step, ...`.
pub open spec fn on_line(i: int, base: int, step: int) -> bool {
    if step == 1 {
        base <= i < base + 8
    } else {
        i >= base && (i - base) % 14 == 0 && (i - base) / 14 < 8
    }
}

/// The piece that a starting line places at position `k`.
pub open spec fn line_piece(kind: int, k: int) -> PieceType {
    if kind == 0 {
        back_rank_a(k)
    } else if kind == 1 {
        back_rank_b(k)
    } else {
        PieceType::Pawn
    }
}

fn line_piece_exec(kind: u8, k: u8) -> (r: PieceType)
    requires
        k < 8,
        kind < 3,
    ensures
        r == line_piece(kind as int, k as int),
{
    if kind == 2 {
        PieceType::Pawn
    } else if k == 0 || k == 7 {
        PieceType::Rook
    } else if k == 1 || k == 6 {
        PieceType::Knight
    } else if k == 2 || k == 5 {
        PieceType::Bishop
    } else if k == 3 {
        if kind == 0 {
            PieceType::Queen
        } else {
            PieceType::King
        }
    } else {
        if kind == 0 {
            PieceType::King
        } else {
            PieceType::Queen
        }
    }
}

/// Squares `s1` result from `s0` by placing one starting line.
pub open spec fn line_placed(
    s0: Seq<Option<Piece>>,
    s1: Seq<Option<Piece>>,
    player: Player,
    kind: int,
    base: int,
    step: int,
) -> bool {
    forall|i: int|
        0 <= i < 196 ==> #[trigger] s1[i] == if on_line(i, base, step) {
            Some(Piece { piece_type: line_piece(kind, line_pos(i, base, step)), player })
        } else {
            s0[i]
        }
}

#[verifier::rlimit(50)]
proof fn lemma_start_layout(
    s0: Seq<Option<Piece>>,
    s1: Seq<Option<Piece>>,
    s2: Seq<Option<Piece>>,
    s3: Seq<Option<Piece>>,
    s4: Seq<Option<Piece>>,
    s5: Seq<Option<Piece>>,
    s6: Seq<Option<Piece>>,
    s7: Seq<Option<Piece>>,
    s8: Seq<Option<Piece>>,
)
    requires
        forall|i: int| 0 <= i < 196 ==> s0[i] is None,
        line_placed(s0, s1, Player::Red, 0, 3, 1),
        line_placed(s1, s2, Player::Red, 2, 17, 1),
        line_placed(s2, s3, Player::Blue, 1, 42, 14),
        line_placed(s3, s4, Player::Blue, 2, 43, 14),
        line_placed(s4, s5, Player::Yellow, 1, 185, 1),
        line_placed(s5, s6, Player::Yellow, 2, 171, 1),
        line_placed(s6, s7, Player::Green, 0, 55, 14),
        line_placed(s7, s8, Player::Green, 2, 54, 14),
    ensures
        forall|i: int| 0 <= i < 196 ==> #[trigger] s8[i] == start_piece(i),
{
    assert forall|i: int| 0 <= i < 196 implies #[trigger] s8[i] == start_piece(i) by {
        assert(s1[i] == s1[i] && s2[i] == s2[i] && s3[i] == s3[i] && s4[i] == s4[i]);
        assert(s5[i] == s5[i] && s6[i] == s6[i] && s7[i] == s7[i] && s8[i] == s8[i]);
    }
}

impl Board {
    /// Place the eight pieces of one starting line for `player`.
    fn place_line(&mut self, player: Player, kind: u8, base: u8, step: u8)
        requires
            old(self).wf(),
            step == 1 || step == 14,
            kind < 3,
            base + 7 * step < 196,
            forall|k: int| 0 <= k < 8 ==> #[trigger] valid_index(base + k * step),
            forall|k: int| 0 <= k < 8 ==> (#[trigger] old(self)@.squares[base + k * step]) is None,
        ensures
            final(self).wf(),
            forall|i: int|
                0 <= i < 196 ==> #[trigger] final(self)@.squares[i] == if on_line(
                    i,
                    base as int,
                    step as int,
                ) {
                    Some(
                        Piece {
                            piece_type: line_piece(kind as int, line_pos(i, base as int, step as int)),
                            player,
                        },
                    )
                } else {
                    old(self)@.squares[i]
                },
            final(self)@.kings == (if kind == 2 {
                old(self)@.kings
            } else {
                old(self)@.kings.update(
                    pidx(player),
                    (base + (if kind == 0 {
                        4int
                    } else {
                        3int
                    }) * step) as u8,
                )
            }),
            final(self)@.castling == old(self)@.castling,
            final(self)@.ep == old(self)@.ep,
            final(self)@.ep_player == old(self)@.ep_player,
            final(self)@.stm == old(self)@.stm,
            final(self).pieces_view(pidx(player)).len() == old(self).pieces_view(pidx(player)).len()
                + 8,
            forall|p: int|
                0 <= p < 4 && p != pidx(player) ==> #[trigger] final(self).pieces_view(p)
                    == old(self).pieces_view(p),
    {
        let mut k: u8 = 0;
        while k < 8
            invariant
                self.wf(),
                k <= 8,
                step == 1 || step == 14,
                kind < 3,
                base + 7 * step < 196,
                forall|j: int| 0 <= j < 8 ==> #[trigger] valid_index(base + j * step),
                forall|i: int|
                    0 <= i < 196 ==> #[trigger] self@.squares[i] == if on_line(
                        i,
                        base as int,
                        step as int,
                    ) && line_pos(i, base as int, step as int) < k {
                        Some(
                            Piece {
                                piece_type: line_piece(
                                    kind as int,
                                    line_pos(i, base as int, step as int),
                                ),
                                player,
                            },
                        )
                    } else {
                        old(self)@.squares[i]
                    },
                forall|j: int| 0 <= j < 8 ==> (#[trigger] old(self)@.squares[base + j * step]) is None,
                self@.kings == (if kind == 2 || k <= (if kind == 0 {
                    4u8
                } else {
                    3u8
                }) {
                    old(self)@.kings
                } else {
                    old(self)@.kings.update(
                        pidx(player),
                        (base + (if kind == 0 {
                            4int
                        } else {
                            3int
                        }) * step) as u8,
                    )
                }),
                self@.castling == old(self)@.castling,
                self@.ep == old(self)@.ep,
                self@.ep_player == old(self)@.ep_player,
                self@.stm == old(self)@.stm,
                self.pieces_view(pidx(player)).len() == old(self).pieces_view(pidx(player)).len()
                    + k,
                forall|p: int|
                    0 <= p < 4 && p != pidx(player) ==> #[trigger] self.pieces_view(p)
                        == old(self).pieces_view(p),
            decreases 8 - k,
        {
            let sq = if step == 1 {
                Square(base + k)
            } else {
                Square(base + 14 * k)
            };
            let pt = line_piece_exec(kind, k);
            proof {
                assert(valid_index(base + k * step));
                let idx = base + k * step;
                if step == 1 {
                    assert(idx == base + k);
                } else {
                    assert(k * step == 14 * k) by (nonlinear_arith)
                        requires
                            step == 14,
                    ;
                    assert(idx == base + 14 * k);
                    assert((14 * k) % 14 == 0);
                    assert((14 * k) / 14 == k);
                }
                assert(on_line(idx as int, base as int, step as int));
                assert(line_pos(idx as int, base as int, step as int) == k);
                assert(old(self)@.squares[base + k * step] is None);
                assert(pt == PieceType::King <==> (kind != 2 && k == (if kind == 0 {
                    4u8
                } else {
                    3u8
                })));
            }
            self.set_piece(sq, Piece::new(pt, player));
            k += 1;
        }
    }

    /// The standard starting position: Red (south) on ranks 1-2, Blue
    /// (west) on files a-b, Yellow (north) on ranks 13-14, Green (east) on
    /// files m-n; all castling rights; Red to move; hash computed.
    #[verifier::rlimit(100)]
    pub fn starting_position() -> (b: Self)
        ensures
            b.wf(),
            forall|i: int| 0 <= i < 196 ==> #[trigger] b@.squares[i] == start_piece(i),
            b@.kings == seq![7u8, 84u8, 188u8, 111u8],
            b@.castling == 0xFF,
            b@.ep is None,
            b@.ep_player is None,
            b@.stm == Player::Red,
            hash_consistent(b@),
            forall|p: int| 0 <= p < 4 ==> #[trigger] b.pieces_view(p).len() == 16,
    {
        let mut board = Self::empty();
        let ghost s0 = board@.squares;
        board.place_line(Player::Red, 0, 3, 1);
        assert(board.pieces_view(0).len() == 8 && board.pieces_view(1).len() == 0 && board.pieces_view(2).len() == 0 && board.pieces_view(3).len() == 0);
        let ghost s1 = board@.squares;
        board.place_line(Player::Red, 2, 17, 1);
        assert(board.pieces_view(0).len() == 16 && board.pieces_view(1).len() == 0 && board.pieces_view(2).len() == 0 && board.pieces_view(3).len() == 0);
        let ghost s2 = board@.squares;
        board.place_line(Player::Blue, 1, 42, 14);
        assert(board.pieces_view(0).len() == 16 && board.pieces_view(1).len() == 8 && board.pieces_view(2).len() == 0 && board.pieces_view(3).len() == 0);
        let ghost s3 = board@.squares;
        board.place_line(Player::Blue, 2, 43, 14);
        assert(board.pieces_view(0).len() == 16 && board.pieces_view(1).len() == 16 && board.pieces_view(2).len() == 0 && board.pieces_view(3).len() == 0);
        let ghost s4 = board@.squares;
        board.place_line(Player::Yellow, 1, 185, 1);
        assert(board.pieces_view(0).len() == 16 && board.pieces_view(1).len() == 16 && board.pieces_view(2).len() == 8 && board.pieces_view(3).len() == 0);
        let ghost s5 = board@.squares;
        board.place_line(Player::Yellow, 2, 171, 1);
        assert(board.pieces_view(0).len() == 16 && board.pieces_view(1).len() == 16 && board.pieces_view(2).len() == 16 && board.pieces_view(3).len() == 0);
        let ghost s6 = board@.squares;
        board.place_line(Player::Green, 0, 55, 14);
        assert(board.pieces_view(0).len() == 16 && board.pieces_view(1).len() == 16 && board.pieces_view(2).len() == 16 && board.pieces_view(3).len() == 8);
        let ghost s7 = board@.squares;
        board.place_line(Player::Green, 2, 54, 14);
        assert(board.pieces_view(0).len() == 16 && board.pieces_view(1).len() == 16 && board.pieces_view(2).len() == 16 && board.pieces_view(3).len() == 16);
        proof {
            lemma_start_layout(s0, s1, s2, s3, s4, s5, s6, s7, board@.squares);
        }
        board.castling_rights = 0xFF;
        board.side_to_move = Player::Red;
        board.zobrist = board.compute_full_hash();
        proof {
            assert(board@.kings =~= seq![7u8, 84u8, 188u8, 111u8]);
        }
        board
    }
}

/// Placing a piece on an empty square and removing it again gives the piece
/// back and restores the squares, the stored hash and the rest of the
/// position (the king squares aside, which a placed king updates).
pub proof fn lemma_set_remove_roundtrip(a: BoardState, b: BoardState, c: BoardState, sq: int, pc: Piece, r: Piece)
    requires
        0 <= sq < a.squares.len(),
        a.squares[sq] is None,
        b.squares == a.squares.update(sq, Some(pc)),
        b.castling == a.castling && b.ep == a.ep && b.ep_player == a.ep_player && b.stm == a.stm,
        b.zobrist == a.zobrist ^ piece_key(ptidx(pc.piece_type), pidx(pc.player), sq),
        Some(r) == b.squares[sq],
        c.squares == b.squares.update(sq, None),
        c.castling == b.castling && c.ep == b.ep && c.ep_player == b.ep_player && c.stm == b.stm,
        c.zobrist == b.zobrist ^ piece_key(ptidx(r.piece_type), pidx(r.player), sq),
    ensures
        r == pc,
        c.squares == a.squares,
        c.zobrist == a.zobrist,
        c.castling == a.castling && c.ep == a.ep && c.ep_player == a.ep_player && c.stm == a.stm,
{
    assert(c.squares =~= a.squares);
    let z = a.zobrist;
    let k = piece_key(ptidx(pc.piece_type), pidx(pc.player), sq);
    assert((z ^ k) ^ k == z) by (bit_vector);
}

/// Every board mutator keeps the stored hash's drift from the position hash;
/// in particular a consistent hash stays consistent.
pub proof fn lemma_consistency_preserved(a: BoardState, b: BoardState)
    requires
        hash_drift(a) == hash_drift(b),
        hash_consistent(a),
    ensures
        hash_consistent(b),
{
    let za = a.zobrist;
    let fa = full_hash(a);
    let zb = b.zobrist;
    let fb = full_hash(b);
    assert(za ^ fa == 0) by (bit_vector)
        requires
            za == fa,
    ;
    assert(zb == fb) by (bit_vector)
        requires
            zb ^ fb == za ^ fa,
            za ^ fa == 0,
    ;
}

} // verus!
