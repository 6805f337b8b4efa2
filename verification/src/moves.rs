//! Compact move encoding and the saved state used to undo a move.

use vstd::prelude::*;
use crate::types::{
    piece_type_at, piece_type_char, ptidx, square_notation, Piece, PieceType, Player, Square,
    square_notation_chars,
};

verus! {

/// Maximum legal moves in any position (generous upper bound).
pub const MAX_MOVES: usize = 256;

/// Move flags for special move types.
#[derive(Clone, Copy, PartialEq, Eq, Debug, Structural)]
pub enum MoveFlags {
    Normal,
    DoublePush,
    Castle,
    EnPassant,
}

/// The flag encoded by two bits (0 Normal, 1 DoublePush, 2 Castle, 3 EnPassant).
pub open spec fn flags_of_bits(bits: int) -> MoveFlags {
    if bits == 1 {
        MoveFlags::DoublePush
    } else if bits == 2 {
        MoveFlags::Castle
    } else if bits == 3 {
        MoveFlags::EnPassant
    } else {
        MoveFlags::Normal
    }
}

/// The two-bit code of a flag.
pub open spec fn flag_bits(f: MoveFlags) -> int {
    match f {
        MoveFlags::Normal => 0,
        MoveFlags::DoublePush => 1,
        MoveFlags::Castle => 2,
        MoveFlags::EnPassant => 3,
    }
}

impl MoveFlags {
    /// The flag of a two-bit code (anything else reads as Normal).
    pub fn from_bits(bits: u8) -> (r: Self)
        ensures
            r == flags_of_bits(bits as int),
    {
        match bits {
            1 => MoveFlags::DoublePush,
            2 => MoveFlags::Castle,
            3 => MoveFlags::EnPassant,
            _ => MoveFlags::Normal,
        }
    }

    fn bits(self) -> (r: u32)
        ensures
            r == flag_bits(self),
    {
        match self {
            MoveFlags::Normal => 0,
            MoveFlags::DoublePush => 1,
            MoveFlags::Castle => 2,
            MoveFlags::EnPassant => 3,
        }
    }
}

/// Compact move encoding in a u32 bitfield.
///
/// Bits 0-7 from square, 8-15 to square, 16-19 piece type moved,
/// 20-23 captured piece type (7 = none), 24-27 promotion type (7 = none),
/// 28-29 flags.
#[derive(Clone, Copy, PartialEq, Eq, Debug, Structural)]
pub struct Move(pub u32);

/// Sentinel for "no capture" or "no promotion".
pub const NO_PIECE: u8 = 7;

/// The bitfield of a move's components.
pub open spec fn encode_bits(from: u32, to: u32, pt: u32, cap: u32, promo: u32, fl: u32) -> u32 {
    from | (to << 8u32) | (pt << 16u32) | (cap << 20u32) | (promo << 24u32) | (fl << 28u32)
}

/// A move built from its components.
pub open spec fn spec_encode(from: int, to: int, pt: int, cap: int, promo: int, fl: int) -> Move {
    Move(encode_bits(from as u32, to as u32, pt as u32, cap as u32, promo as u32, fl as u32))
}

/// A quiet move.
pub open spec fn mk_new(from: int, to: int, pt: PieceType) -> Move {
    spec_encode(from, to, ptidx(pt), 7, 7, 0)
}

/// A capture.
pub open spec fn mk_capture(from: int, to: int, pt: PieceType, cap: PieceType) -> Move {
    spec_encode(from, to, ptidx(pt), ptidx(cap), 7, 0)
}

/// A promotion (possibly capturing).
pub open spec fn mk_promotion(from: int, to: int, cap: Option<PieceType>, promo: PieceType) -> Move {
    spec_encode(from, to, 0, opt_piece_bits(cap), ptidx(promo), 0)
}

/// A double pawn push.
pub open spec fn mk_double(from: int, to: int) -> Move {
    spec_encode(from, to, 0, 7, 7, 1)
}

/// A castling move.
pub open spec fn mk_castle(from: int, to: int) -> Move {
    spec_encode(from, to, 5, 7, 7, 2)
}

/// An en passant capture.
pub open spec fn mk_ep(from: int, to: int) -> Move {
    spec_encode(from, to, 0, 0, 7, 3)
}

/// The optional piece type of a 4-bit field: 7 (and anything above 6) is none.
pub open spec fn opt_piece_of_bits(bits: int) -> Option<PieceType> {
    if bits < 7 {
        Some(piece_type_at(bits))
    } else {
        None
    }
}

/// The 4-bit field code of an optional piece type.
pub open spec fn opt_piece_bits(pt: Option<PieceType>) -> int {
    match pt {
        Some(t) => ptidx(t),
        None => 7,
    }
}

impl Move {
    pub open spec fn from_idx(self) -> int {
        (self.0 & 0xFFu32) as int
    }

    pub open spec fn to_idx(self) -> int {
        ((self.0 >> 8u32) & 0xFFu32) as int
    }

    pub open spec fn pt_bits(self) -> int {
        ((self.0 >> 16u32) & 0xFu32) as int
    }

    pub open spec fn cap_bits(self) -> int {
        ((self.0 >> 20u32) & 0xFu32) as int
    }

    pub open spec fn promo_bits(self) -> int {
        ((self.0 >> 24u32) & 0xFu32) as int
    }

    pub open spec fn flag_field(self) -> int {
        ((self.0 >> 28u32) & 0x3u32) as int
    }

    /// The moved piece type (codes above 6 read as Pawn).
    pub open spec fn moved(self) -> PieceType {
        if self.pt_bits() < 7 {
            piece_type_at(self.pt_bits())
        } else {
            PieceType::Pawn
        }
    }

    /// The captured piece type, if any.
    pub open spec fn captured_type(self) -> Option<PieceType> {
        opt_piece_of_bits(self.cap_bits())
    }

    /// The promotion piece type, if any.
    pub open spec fn promotion_type(self) -> Option<PieceType> {
        opt_piece_of_bits(self.promo_bits())
    }

    /// The move's flag.
    pub open spec fn flag(self) -> MoveFlags {
        flags_of_bits(self.flag_field())
    }

    /// The components that the move was built from.
    pub open spec fn has_fields(
        self,
        from: int,
        to: int,
        pt: PieceType,
        cap: Option<PieceType>,
        promo: Option<PieceType>,
        fl: MoveFlags,
    ) -> bool {
        &&& self.from_idx() == from
        &&& self.to_idx() == to
        &&& self.moved() == pt
        &&& self.pt_bits() == ptidx(pt)
        &&& self.captured_type() == cap
        &&& self.cap_bits() == opt_piece_bits(cap)
        &&& self.promotion_type() == promo
        &&& self.promo_bits() == opt_piece_bits(promo)
        &&& self.flag() == fl
        &&& self.flag_field() == flag_bits(fl)
    }

    fn encode(
        from: Square,
        to: Square,
        piece_type: PieceType,
        captured: u8,
        promotion: u8,
        flags: MoveFlags,
    ) -> (m: Self)
        requires
            captured < 16,
            promotion < 16,
        ensures
            m == spec_encode(
                from.0 as int,
                to.0 as int,
                ptidx(piece_type),
                captured as int,
                promotion as int,
                flag_bits(flags),
            ),
            m.from_idx() == from.0,
            m.to_idx() == to.0,
            m.pt_bits() == ptidx(piece_type),
            m.cap_bits() == captured,
            m.promo_bits() == promotion,
            m.flag_field() == flag_bits(flags),
    {
        let f = from.0 as u32;
        let t = to.0 as u32;
        let p = piece_type.index() as u32;
        let c = captured as u32;
        let pr = promotion as u32;
        let fl = flags.bits();
        let bits = f | (t << 8u32) | (p << 16u32) | (c << 20u32) | (pr << 24u32) | (fl << 28u32);
        proof {
            lemma_decode(f, t, p, c, pr, fl);
        }
        Move(bits)
    }

    /// A normal (quiet) move.
    pub fn new(from: Square, to: Square, piece_type: PieceType) -> (m: Self)
        ensures
            m.has_fields(from.0 as int, to.0 as int, piece_type, None, None, MoveFlags::Normal),
            m == mk_new(from.0 as int, to.0 as int, piece_type),
    {
        Self::encode(from, to, piece_type, NO_PIECE, NO_PIECE, MoveFlags::Normal)
    }

    /// A capture.
    pub fn capture(from: Square, to: Square, piece_type: PieceType, captured: PieceType) -> (m: Self)
        ensures
            m.has_fields(
                from.0 as int,
                to.0 as int,
                piece_type,
                Some(captured),
                None,
                MoveFlags::Normal,
            ),
            m == mk_capture(from.0 as int, to.0 as int, piece_type, captured),
    {
        Self::encode(from, to, piece_type, captured.index() as u8, NO_PIECE, MoveFlags::Normal)
    }

    /// A pawn promotion, possibly with a capture.
    pub fn new_promotion(
        from: Square,
        to: Square,
        captured: Option<PieceType>,
        promotion: PieceType,
    ) -> (m: Self)
        ensures
            m.has_fields(
                from.0 as int,
                to.0 as int,
                PieceType::Pawn,
                captured,
                Some(promotion),
                MoveFlags::Normal,
            ),
            m == mk_promotion(from.0 as int, to.0 as int, captured, promotion),
    {
        let cap: u8 = match captured {
            Some(pt) => pt.index() as u8,
            None => NO_PIECE,
        };
        Self::encode(from, to, PieceType::Pawn, cap, promotion.index() as u8, MoveFlags::Normal)
    }

    /// A double pawn push.
    pub fn double_push(from: Square, to: Square) -> (m: Self)
        ensures
            m.has_fields(
                from.0 as int,
                to.0 as int,
                PieceType::Pawn,
                None,
                None,
                MoveFlags::DoublePush,
            ),
            m == mk_double(from.0 as int, to.0 as int),
    {
        Self::encode(from, to, PieceType::Pawn, NO_PIECE, NO_PIECE, MoveFlags::DoublePush)
    }

    /// An en passant capture.
    pub fn en_passant(from: Square, to: Square) -> (m: Self)
        ensures
            m.has_fields(
                from.0 as int,
                to.0 as int,
                PieceType::Pawn,
                Some(PieceType::Pawn),
                None,
                MoveFlags::EnPassant,
            ),
            m == mk_ep(from.0 as int, to.0 as int),
    {
        Self::encode(from, to, PieceType::Pawn, 0, NO_PIECE, MoveFlags::EnPassant)
    }

    /// A castling move (the king's from and to squares).
    pub fn castle(from: Square, to: Square) -> (m: Self)
        ensures
            m.has_fields(from.0 as int, to.0 as int, PieceType::King, None, None, MoveFlags::Castle),
            m == mk_castle(from.0 as int, to.0 as int),
    {
        Self::encode(from, to, PieceType::King, NO_PIECE, NO_PIECE, MoveFlags::Castle)
    }

    /// Source square.
    pub fn from_sq(self) -> (r: Square)
        ensures
            r.0 == self.from_idx(),
    {
        proof {
            lemma_field_bounds(self.0);
        }
        Square((self.0 & 0xFFu32) as u8)
    }

    /// Destination square.
    pub fn to_sq(self) -> (r: Square)
        ensures
            r.0 == self.to_idx(),
    {
        proof {
            lemma_field_bounds(self.0);
        }
        Square(((self.0 >> 8u32) & 0xFFu32) as u8)
    }

    /// Piece type being moved.
    pub fn piece_type(self) -> (r: PieceType)
        ensures
            r == self.moved(),
    {
        proof {
            lemma_field_bounds(self.0);
        }
        match PieceType::from_index(((self.0 >> 16u32) & 0xFu32) as u8) {
            Some(pt) => pt,
            None => PieceType::Pawn,
        }
    }

    /// Captured piece type, if any.
    pub fn captured(self) -> (r: Option<PieceType>)
        ensures
            r == self.captured_type(),
    {
        proof {
            lemma_field_bounds(self.0);
        }
        let bits = ((self.0 >> 20u32) & 0xFu32) as u8;
        if bits == NO_PIECE {
            None
        } else {
            PieceType::from_index(bits)
        }
    }

    /// Promotion piece type, if any.
    pub fn promotion(self) -> (r: Option<PieceType>)
        ensures
            r == self.promotion_type(),
    {
        proof {
            lemma_field_bounds(self.0);
        }
        let bits = ((self.0 >> 24u32) & 0xFu32) as u8;
        if bits == NO_PIECE {
            None
        } else {
            PieceType::from_index(bits)
        }
    }

    /// Move flags.
    pub fn flags(self) -> (r: MoveFlags)
        ensures
            r == self.flag(),
    {
        proof {
            lemma_field_bounds(self.0);
        }
        MoveFlags::from_bits(((self.0 >> 28u32) & 0x3u32) as u8)
    }

    /// Whether the move captures (including en passant).
    pub fn is_capture(self) -> (r: bool)
        ensures
            r == self.captured_type() is Some,
    {
        self.captured().is_some()
    }

    /// Long algebraic text: from square, to square, then the lowercase
    /// promotion letter if any (e.g. "h7h8q").
    pub fn to_string(self) -> (s: String)
        ensures
            s@ == move_text(self),
    {
        let mut v = square_notation_chars(self.from_sq());
        let w = square_notation_chars(self.to_sq());
        let mut i: usize = 0;
        let ghost v0 = v@;
        while i < w.len()
            invariant
                i <= w@.len(),
                v@ == v0 + w@.subrange(0, i as int),
            decreases w@.len() - i,
        {
            v.push(w[i]);
            i += 1;
        }
        assert(w@.subrange(0, w@.len() as int) =~= w@);
        match self.promotion() {
            Some(pt) => {
                v.push(lower_piece_char(pt));
            },
            None => {},
        }
        crate::text::chars_to_string(&v)
    }
}

/// The lowercase letter of a piece type (the FEN4 letter, lowercased).
pub open spec fn lower_piece_letter(pt: PieceType) -> char {
    ((piece_type_char(pt) as int) + 32) as char
}

/// The lowercase letter of a piece type.
pub fn lower_piece_char(pt: PieceType) -> (c: char)
    ensures
        c == lower_piece_letter(pt),
{
    match pt {
        PieceType::Pawn => 'p',
        PieceType::Knight => 'n',
        PieceType::Bishop => 'b',
        PieceType::Rook => 'r',
        PieceType::Queen => 'q',
        PieceType::King => 'k',
        PieceType::PromotedQueen => 'd',
    }
}

/// The text of a move: both squares, then the promotion letter if any.
pub open spec fn move_text(m: Move) -> Seq<char> {
    square_notation(Square(m.from_idx() as u8)) + square_notation(Square(m.to_idx() as u8)) + match m.promotion_type() {
        Some(pt) => seq![lower_piece_letter(pt)],
        None => Seq::empty(),
    }
}

/// Each field of a move word fits its width.
pub proof fn lemma_field_bounds(x: u32)
    ensures
        x & 0xFFu32 < 256,
        (x >> 8u32) & 0xFFu32 < 256,
        (x >> 16u32) & 0xFu32 < 16,
        (x >> 20u32) & 0xFu32 < 16,
        (x >> 24u32) & 0xFu32 < 16,
        (x >> 28u32) & 0x3u32 < 4,
{
    assert(x & 0xFFu32 < 256) by (bit_vector);
    assert((x >> 8u32) & 0xFFu32 < 256) by (bit_vector);
    assert((x >> 16u32) & 0xFu32 < 16) by (bit_vector);
    assert((x >> 20u32) & 0xFu32 < 16) by (bit_vector);
    assert((x >> 24u32) & 0xFu32 < 16) by (bit_vector);
    assert((x >> 28u32) & 0x3u32 < 4) by (bit_vector);
}

/// Decoding the fields of an encoded move gives back the fields.
pub proof fn lemma_decode(f: u32, t: u32, p: u32, c: u32, pr: u32, fl: u32)
    requires
        f < 256,
        t < 256,
        p < 16,
        c < 16,
        pr < 16,
        fl < 4,
    ensures
        encode_bits(f, t, p, c, pr, fl) & 0xFFu32 == f,
        (encode_bits(f, t, p, c, pr, fl) >> 8u32) & 0xFFu32 == t,
        (encode_bits(f, t, p, c, pr, fl) >> 16u32) & 0xFu32 == p,
        (encode_bits(f, t, p, c, pr, fl) >> 20u32) & 0xFu32 == c,
        (encode_bits(f, t, p, c, pr, fl) >> 24u32) & 0xFu32 == pr,
        (encode_bits(f, t, p, c, pr, fl) >> 28u32) & 0x3u32 == fl,
{
    let b = encode_bits(f, t, p, c, pr, fl);
    assert(b == f | (t << 8u32) | (p << 16u32) | (c << 20u32) | (pr << 24u32) | (fl << 28u32));
    assert(b & 0xFFu32 == f) by (bit_vector)
        requires
            b == f | (t << 8u32) | (p << 16u32) | (c << 20u32) | (pr << 24u32) | (fl << 28u32),
            f < 256,
            t < 256,
            p < 16,
            c < 16,
            pr < 16,
            fl < 4,
    ;
    assert((b >> 8u32) & 0xFFu32 == t) by (bit_vector)
        requires
            b == f | (t << 8u32) | (p << 16u32) | (c << 20u32) | (pr << 24u32) | (fl << 28u32),
            f < 256,
            t < 256,
            p < 16,
            c < 16,
            pr < 16,
            fl < 4,
    ;
    assert((b >> 16u32) & 0xFu32 == p) by (bit_vector)
        requires
            b == f | (t << 8u32) | (p << 16u32) | (c << 20u32) | (pr << 24u32) | (fl << 28u32),
            f < 256,
            t < 256,
            p < 16,
            c < 16,
            pr < 16,
            fl < 4,
    ;
    assert((b >> 20u32) & 0xFu32 == c) by (bit_vector)
        requires
            b == f | (t << 8u32) | (p << 16u32) | (c << 20u32) | (pr << 24u32) | (fl << 28u32),
            f < 256,
            t < 256,
            p < 16,
            c < 16,
            pr < 16,
            fl < 4,
    ;
    assert((b >> 24u32) & 0xFu32 == pr) by (bit_vector)
        requires
            b == f | (t << 8u32) | (p << 16u32) | (c << 20u32) | (pr << 24u32) | (fl << 28u32),
            f < 256,
            t < 256,
            p < 16,
            c < 16,
            pr < 16,
            fl < 4,
    ;
    assert((b >> 28u32) & 0x3u32 == fl) by (bit_vector)
        requires
            b == f | (t << 8u32) | (p << 16u32) | (c << 20u32) | (pr << 24u32) | (fl << 28u32),
            f < 256,
            t < 256,
            p < 16,
            c < 16,
            pr < 16,
            fl < 4,
    ;
}

/// The fields of the constructed moves.
pub proof fn lemma_mk_fields(from: int, to: int)
    requires
        0 <= from < 256,
        0 <= to < 256,
    ensures
        forall|pt: PieceType| #[trigger] mk_new(from, to, pt).has_fields(from, to, pt, None, None, MoveFlags::Normal),
        forall|pt: PieceType, c: PieceType| #[trigger] mk_capture(from, to, pt, c).has_fields(from, to, pt, Some(c), None, MoveFlags::Normal),
        forall|c: Option<PieceType>, pr: PieceType| #[trigger] mk_promotion(from, to, c, pr).has_fields(from, to, PieceType::Pawn, c, Some(pr), MoveFlags::Normal),
        mk_double(from, to).has_fields(from, to, PieceType::Pawn, None, None, MoveFlags::DoublePush),
        mk_castle(from, to).has_fields(from, to, PieceType::King, None, None, MoveFlags::Castle),
        mk_ep(from, to).has_fields(from, to, PieceType::Pawn, Some(PieceType::Pawn), None, MoveFlags::EnPassant),
{
    assert forall|pt: PieceType| #[trigger] mk_new(from, to, pt).has_fields(from, to, pt, None, None, MoveFlags::Normal) by {
        lemma_decode(from as u32, to as u32, ptidx(pt) as u32, 7, 7, 0);
    }
    assert forall|pt: PieceType, c: PieceType| #[trigger] mk_capture(from, to, pt, c).has_fields(from, to, pt, Some(c), None, MoveFlags::Normal) by {
        lemma_decode(from as u32, to as u32, ptidx(pt) as u32, ptidx(c) as u32, 7, 0);
    }
    assert forall|c: Option<PieceType>, pr: PieceType| #[trigger] mk_promotion(from, to, c, pr).has_fields(from, to, PieceType::Pawn, c, Some(pr), MoveFlags::Normal) by {
        lemma_decode(from as u32, to as u32, 0, opt_piece_bits(c) as u32, ptidx(pr) as u32, 0);
    }
    lemma_decode(from as u32, to as u32, 0, 7, 7, 1);
    lemma_decode(from as u32, to as u32, 5, 7, 7, 2);
    lemma_decode(from as u32, to as u32, 0, 0, 7, 3);
}

/// State saved before a move so that it can be undone.
#[derive(Clone, Copy, Debug)]
pub struct MoveUndo {
    /// The move that was made.
    pub mv: Move,
    /// The captured piece (if any), with its owner.
    pub captured_piece: Option<Piece>,
    /// Castling rights before the move.
    pub prev_castling: u8,
    /// En passant square before the move.
    pub prev_en_passant: Option<Square>,
    /// En passant pushing player before the move.
    pub prev_ep_player: Option<Player>,
    /// Zobrist hash before the move.
    pub prev_zobrist: u64,
    /// Side to move before the move.
    pub prev_side_to_move: Player,
}

} // verus!
