//! Move strings in long algebraic notation on the 14x14 board:
//! files a-n, ranks 1-14; normal `d2d4`, castling as the king's from/to
//! (`h1j1`), promotion with a lowercase piece letter (`d7d8q`).

use vstd::prelude::*;
use crate::moves::Move;
use crate::text::{chars_to_string, push_chars, push_str, str_chars, trim};
use crate::types::{spec_square_from_notation, trim_ws, PieceType, Square};

verus! {

// ─── Byte lengths ───────────────────────────────────────────────────────────

/// The UTF-8 width of a character.
pub open spec fn utf8_width(c: char) -> int {
    if (c as u32) < 0x80 {
        1
    } else if (c as u32) < 0x800 {
        2
    } else if (c as u32) < 0x10000 {
        3
    } else {
        4
    }
}

/// The UTF-8 length of a text.
pub open spec fn byte_len(s: Seq<char>) -> int
    decreases s.len(),
{
    if s.len() == 0 {
        0
    } else {
        byte_len(s.drop_last()) + utf8_width(s.last())
    }
}

/// The number of characters making up the first `n` bytes, if `n` falls
/// on a character boundary.
pub open spec fn chars_in_bytes(s: Seq<char>, n: int) -> Option<int>
    decreases s.len(),
{
    if n == 0 {
        Some(0)
    } else if s.len() == 0 || n < 0 {
        None
    } else {
        match chars_in_bytes(s.subrange(1, s.len() as int), n - utf8_width(s[0])) {
            Some(k) => Some(k + 1),
            None => None,
        }
    }
}

fn width_of(c: char) -> (w: usize)
    ensures
        w == utf8_width(c),
{
    let x = c as u32;
    if x < 0x80 {
        1
    } else if x < 0x800 {
        2
    } else if x < 0x10000 {
        3
    } else {
        4
    }
}

proof fn lemma_byte_len_ge(s: Seq<char>)
    ensures
        byte_len(s) >= s.len(),
    decreases s.len(),
{
    if s.len() > 0 {
        lemma_byte_len_ge(s.drop_last());
    }
}

/// The UTF-8 length of a text, capped at `cap`.
fn byte_len_capped(s: &Vec<char>, cap: usize) -> (r: usize)
    requires
        cap <= 1000,
    ensures
        r == if byte_len(s@) < cap {
            byte_len(s@)
        } else {
            cap as int
        },
{
    let mut total: usize = 0;
    let mut i: usize = 0;
    while i < s.len() && total < cap
        invariant
            i <= s@.len(),
            cap <= 1000,
            total == byte_len(s@.take(i as int)),
            total <= cap + 4,
            total < cap || i == 0 || byte_len(s@.take(i as int)) >= cap,
        decreases s@.len() - i,
    {
        let ghost t = s@.take(i + 1);
        proof {
            assert(t.drop_last() =~= s@.take(i as int));
        }
        total = total + width_of(s[i]);
        i += 1;
    }
    proof {
        lemma_byte_len_prefix_mono(s@, i as int);
        if i == s@.len() {
            assert(s@.take(i as int) =~= s@);
        }
    }
    if total >= cap {
        cap
    } else {
        total
    }
}

proof fn lemma_byte_len_prefix_mono(s: Seq<char>, i: int)
    requires
        0 <= i <= s.len(),
    ensures
        byte_len(s.take(i)) <= byte_len(s),
    decreases s.len() - i,
{
    if i < s.len() {
        lemma_byte_len_prefix_mono(s, i + 1);
        assert(s.take(i + 1).drop_last() =~= s.take(i));
    } else {
        assert(s.take(i) =~= s);
    }
}

fn chars_in_bytes_exec(s: &Vec<char>, from: usize, n: usize) -> (r: Option<usize>)
    requires
        from <= s@.len(),
        n <= 8,
    ensures
        match chars_in_bytes(s@.subrange(from as int, s@.len() as int), n as int) {
            Some(k) => r == Some(k as usize),
            None => r is None,
        },
    decreases n,
{
    let ghost t = s@.subrange(from as int, s@.len() as int);
    if n == 0 {
        return Some(0);
    }
    if from == s.len() {
        return None;
    }
    let w = width_of(s[from]);
    proof {
        assert(t[0] == s@[from as int]);
        assert(t.subrange(1, t.len() as int) =~= s@.subrange(from + 1, s@.len() as int));
    }
    if w > n {
        proof {
            lemma_chars_in_bytes_neg(t.subrange(1, t.len() as int), n - w);
        }
        return None;
    }
    match chars_in_bytes_exec(s, from + 1, n - w) {
        Some(k) => {
            proof {
                lemma_chars_in_bytes_bound(t.subrange(1, t.len() as int), (n - w) as int);
            }
            Some(k + 1)
        },
        None => None,
    }
}

proof fn lemma_chars_in_bytes_neg(s: Seq<char>, n: int)
    requires
        n < 0,
    ensures
        chars_in_bytes(s, n) is None,
{
}

proof fn lemma_chars_in_bytes_bound(s: Seq<char>, n: int)
    ensures
        chars_in_bytes(s, n) matches Some(k) ==> 0 <= k <= n && k <= s.len(),
    decreases s.len(),
{
    if n != 0 && s.len() > 0 && n >= 0 {
        lemma_chars_in_bytes_bound(s.subrange(1, s.len() as int), n - utf8_width(s[0]));
    }
}

// ─── The grammar ────────────────────────────────────────────────────────────

/// What reading a square at the front of a text gives.
pub ghost enum SquarePrefix {
    /// A square and the rest of the text.
    Read(Square, Seq<char>),
    /// No square.
    Missing,
    /// A byte cut falls inside a character (the text cannot be sliced).
    BadCut,
}

/// Read a square from the start of `t`: three bytes are tried first (a
/// two-digit rank), then two.
pub open spec fn square_prefix(t: Seq<char>) -> SquarePrefix {
    if byte_len(t) < 2 {
        SquarePrefix::Missing
    } else {
        let three: Option<SquarePrefix> = if byte_len(t) >= 3 {
            match chars_in_bytes(t, 3) {
                None => Some(SquarePrefix::BadCut),
                Some(k) => match spec_square_from_notation(trim_ws(t.take(k))) {
                    Some(sq) => Some(SquarePrefix::Read(sq, t.skip(k))),
                    None => None,
                },
            }
        } else {
            None
        };
        match three {
            Some(r) => r,
            None => match chars_in_bytes(t, 2) {
                None => SquarePrefix::BadCut,
                Some(k) => match spec_square_from_notation(trim_ws(t.take(k))) {
                    Some(sq) => SquarePrefix::Read(sq, t.skip(k)),
                    None => SquarePrefix::Missing,
                },
            },
        }
    }
}

/// The promotion piece of a promotion suffix.
pub open spec fn promo_of(r: Seq<char>) -> Option<PieceType> {
    if byte_len(r) != 1 {
        None
    } else if r[0] == 'q' {
        Some(PieceType::PromotedQueen)
    } else if r[0] == 'r' {
        Some(PieceType::Rook)
    } else if r[0] == 'b' {
        Some(PieceType::Bishop)
    } else if r[0] == 'n' {
        Some(PieceType::Knight)
    } else {
        None
    }
}

/// A promotion suffix names one of the pieces a pawn may promote to, and
/// each of them has a letter, each letter its own piece.
pub proof fn lemma_promo_letters()
    ensures
        forall|r: Seq<char>| #[trigger] promo_of(r) is Some ==> crate::movegen::promotion_choice(promo_of(r)->0),
        forall|pt: PieceType|
            #[trigger] crate::movegen::promotion_choice(pt) ==> exists|c: char| promo_of(seq![c]) == Some(pt),
        forall|c: char, d: char|
            promo_of(seq![c]) is Some && #[trigger] promo_of(seq![c]) == #[trigger] promo_of(seq![d]) ==> c == d,
{
    assert forall|pt: PieceType| #[trigger] crate::movegen::promotion_choice(pt) implies exists|c: char|
        promo_of(seq![c]) == Some(pt) by {
        let c = if pt == PieceType::PromotedQueen {
            'q'
        } else if pt == PieceType::Rook {
            'r'
        } else if pt == PieceType::Bishop {
            'b'
        } else {
            'n'
        };
        assert(seq![c].drop_last() =~= Seq::<char>::empty());
        assert(seq![c].last() == c);
        assert(utf8_width(c) == 1);
        assert(byte_len(seq![c].drop_last()) == 0);
        assert(byte_len(seq![c]) == 1);
        assert(promo_of(seq![c]) == Some(pt));
    }
    assert forall|c: char, d: char|
        promo_of(seq![c]) is Some && #[trigger] promo_of(seq![c]) == #[trigger] promo_of(seq![d]) implies c == d by {
        assert(seq![c][0] == c && seq![d][0] == d);
    }
}

/// What parsing a move string gives.
pub ghost enum MoveParse {
    Found(Move),
    Error(Seq<char>),
    /// The move text cannot be cut where the square reader cuts it.
    BadCut,
}

/// The test that keeps a legal move among the matches.
pub open spec fn matches_fields(from: Square, to: Square, promo: Option<PieceType>) -> spec_fn(
    Move,
) -> bool {
    |m: Move| m.from_idx() == from.0 && m.to_idx() == to.0 && m.promotion_type() == promo
}

/// The moves among `legal` with the given squares and promotion.
pub open spec fn matching(legal: Seq<Move>, from: Square, to: Square, promo: Option<PieceType>) -> Seq<
    Move,
> {
    legal.filter(matches_fields(from, to, promo))
}

/// A message naming the (trimmed) move text.
pub open spec fn move_msg(prefix: Seq<char>, t: Seq<char>) -> Seq<char> {
    prefix + seq!['\''] + t + seq!['\'']
}

/// The answer given the legal moves that match.
pub open spec fn decide(ms: Seq<Move>, t: Seq<char>) -> MoveParse {
    if ms.len() == 1 {
        MoveParse::Found(ms[0])
    } else if ms.len() == 0 {
        MoveParse::Error(move_msg("illegal move: "@, t))
    } else {
        MoveParse::Error(move_msg("ambiguous move: "@, t))
    }
}

/// Parse a move string against the legal moves: the unique legal move with
/// its from and to squares and promotion.
pub open spec fn move_parse(s: Seq<char>, legal: Seq<Move>) -> MoveParse {
    let t = trim_ws(s);
    if byte_len(t) < 4 {
        MoveParse::Error(move_msg("move string too short: "@, t))
    } else {
        match square_prefix(t) {
            SquarePrefix::BadCut => MoveParse::BadCut,
            SquarePrefix::Missing => MoveParse::Error(move_msg("invalid from-square in move: "@, t)),
            SquarePrefix::Read(from, rest) => match square_prefix(rest) {
                SquarePrefix::BadCut => MoveParse::BadCut,
                SquarePrefix::Missing => MoveParse::Error(
                    move_msg("invalid to-square in move: "@, t),
                ),
                SquarePrefix::Read(to, rest2) => {
                    if rest2.len() > 0 && promo_of(rest2) is None {
                        MoveParse::Error(move_msg("invalid promotion char in move: "@, t))
                    } else {
                        let promo = if rest2.len() == 0 {
                            None
                        } else {
                            promo_of(rest2)
                        };
                        decide(matching(legal, from, to, promo), t)
                    }
                },
            },
        }
    }
}

// ─── Reading ────────────────────────────────────────────────────────────────

enum PrefixOut {
    Read(Square, usize),
    Missing,
    BadCut,
}

fn copy_range(s: &Vec<char>, from: usize, to: usize) -> (r: Vec<char>)
    requires
        from <= to <= s@.len(),
    ensures
        r@ == s@.subrange(from as int, to as int),
{
    let mut r: Vec<char> = Vec::new();
    let mut i: usize = from;
    while i < to
        invariant
            from <= i <= to <= s@.len(),
            r@ == s@.subrange(from as int, i as int),
        decreases to - i,
    {
        r.push(s[i]);
        i += 1;
    }
    r
}

/// The square denoted by the characters `t[from..from + k]`.
fn square_at(t: &Vec<char>, from: usize, k: usize) -> (r: Option<Square>)
    requires
        from + k <= t@.len(),
    ensures
        r == spec_square_from_notation(trim_ws(t@.subrange(from as int, (from + k) as int))),
{
    let n = t.len();
    let p = copy_range(t, from, from + k);
    let text = chars_to_string(&p);
    Square::from_notation(text.as_str())
}

fn read_square(s: &Vec<char>, from: usize) -> (r: PrefixOut)
    requires
        from <= s@.len(),
    ensures
        match square_prefix(s@.subrange(from as int, s@.len() as int)) {
            SquarePrefix::Read(sq, rest) => r matches PrefixOut::Read(x, k) && x == sq && from <= k
                <= s@.len() && rest == s@.subrange(k as int, s@.len() as int),
            SquarePrefix::Missing => r is Missing,
            SquarePrefix::BadCut => r is BadCut,
        },
{
    let ghost t = s@.subrange(from as int, s@.len() as int);
    let rest = copy_range(s, from, s.len());
    let bl = byte_len_capped(&rest, 3);
    if bl < 2 {
        return PrefixOut::Missing;
    }
    if bl >= 3 {
        match chars_in_bytes_exec(s, from, 3) {
            None => {
                return PrefixOut::BadCut;
            },
            Some(k) => {
                proof {
                    lemma_chars_in_bytes_bound(t, 3);
                    assert(t.take(k as int) =~= s@.subrange(from as int, (from + k) as int));
                    assert(t.skip(k as int) =~= s@.subrange((from + k) as int, s@.len() as int));
                }
                match square_at(s, from, k) {
                    Some(sq) => {
                        return PrefixOut::Read(sq, from + k);
                    },
                    None => {},
                }
            },
        }
    }
    match chars_in_bytes_exec(s, from, 2) {
        None => PrefixOut::BadCut,
        Some(k) => {
            proof {
                lemma_chars_in_bytes_bound(t, 2);
                assert(t.take(k as int) =~= s@.subrange(from as int, (from + k) as int));
                assert(t.skip(k as int) =~= s@.subrange((from + k) as int, s@.len() as int));
            }
            match square_at(s, from, k) {
                Some(sq) => PrefixOut::Read(sq, from + k),
                None => PrefixOut::Missing,
            }
        },
    }
}

fn read_promo(s: &Vec<char>, from: usize) -> (r: Option<PieceType>)
    requires
        from <= s@.len(),
    ensures
        r == promo_of(s@.subrange(from as int, s@.len() as int)),
{
    let rest = copy_range(s, from, s.len());
    if byte_len_capped(&rest, 2) != 1 {
        return None;
    }
    let c = rest[0];
    if c == 'q' {
        Some(PieceType::PromotedQueen)
    } else if c == 'r' {
        Some(PieceType::Rook)
    } else if c == 'b' {
        Some(PieceType::Bishop)
    } else if c == 'n' {
        Some(PieceType::Knight)
    } else {
        None
    }
}

fn message(prefix: &str, t: &Vec<char>) -> (s: String)
    ensures
        s@ == move_msg(prefix@, t@),
{
    let mut v: Vec<char> = Vec::new();
    push_str(&mut v, prefix);
    v.push('\'');
    push_chars(&mut v, t);
    v.push('\'');
    proof {
        assert(v@ =~= move_msg(prefix@, t@));
    }
    chars_to_string(&v)
}

/// Whether slicing this move text by bytes, as the square reader does, would cut inside a
/// character, so that it cannot be parsed at all.
pub fn move_text_cut_fails(s: &str) -> (r: bool)
    ensures
        r == (move_parse(s@, Seq::empty()) is BadCut),
{
    let chars = str_chars(s);
    let t = trim(&chars);
    if byte_len_capped(&t, 4) < 4 {
        return false;
    }
    proof {
        assert(t@.subrange(0, t@.len() as int) =~= t@);
    }
    match read_square(&t, 0) {
        PrefixOut::BadCut => true,
        PrefixOut::Missing => false,
        PrefixOut::Read(_, k) => {
            match read_square(&t, k) {
                PrefixOut::BadCut => true,
                _ => false,
            }
        },
    }
}

/// Parse a move string and match it against the legal moves: the move
/// string gives the from and to squares and the promotion, and the unique
/// legal move with those fields is returned.
pub fn parse_move_str(s: &str, legal_moves: &[Move]) -> (r: Result<Move, String>)
    requires
        !(move_parse(s@, legal_moves@) is BadCut),
    ensures
        match move_parse(s@, legal_moves@) {
            MoveParse::Found(m) => r == Ok::<Move, String>(m),
            MoveParse::Error(msg) => r matches Err(e) && e@ == msg,
            MoveParse::BadCut => false,
        },
{
    let chars = str_chars(s);
    let t = trim(&chars);
    if byte_len_capped(&t, 4) < 4 {
        return Err(message("move string too short: ", &t));
    }
    proof {
        assert(t@.subrange(0, t@.len() as int) =~= t@);
    }
    let (from_sq, k1) = match read_square(&t, 0) {
        PrefixOut::Read(sq, k) => (sq, k),
        _ => {
            return Err(message("invalid from-square in move: ", &t));
        },
    };
    let (to_sq, k2) = match read_square(&t, k1) {
        PrefixOut::Read(sq, k) => (sq, k),
        _ => {
            return Err(message("invalid to-square in move: ", &t));
        },
    };
    let promotion = if k2 == t.len() {
        None
    } else {
        match read_promo(&t, k2) {
            Some(p) => Some(p),
            None => {
                return Err(message("invalid promotion char in move: ", &t));
            },
        }
    };
    let ghost pred = matches_fields(from_sq, to_sq, promotion);
    assert(move_parse(s@, legal_moves@) == decide(legal_moves@.filter(pred), t@));
    let mut matched: Option<Move> = None;
    let mut i: usize = 0;
    while i < legal_moves.len()
        invariant
            i <= legal_moves@.len(),
            pred == matches_fields(from_sq, to_sq, promotion),
            move_parse(s@, legal_moves@) == decide(legal_moves@.filter(pred), t@),
            legal_moves@.take(i as int).filter(pred).len() <= 1,
            match matched {
                Some(m) => legal_moves@.take(i as int).filter(pred) == seq![m],
                None => legal_moves@.take(i as int).filter(pred).len() == 0,
            },
        decreases legal_moves@.len() - i,
    {
        let mv = legal_moves[i];
        proof {
            assert(legal_moves@.take(i + 1) =~= legal_moves@.take(i as int).push(mv));
            legal_moves@.take(i as int).lemma_filter_push(mv, pred);
        }
        let promo_match = match (mv.promotion(), promotion) {
            (Some(a), Some(b)) => a == b,
            (None, None) => true,
            _ => false,
        };
        if mv.from_sq().0 == from_sq.0 && mv.to_sq().0 == to_sq.0 && promo_match {
            if matched.is_some() {
                proof {
                    lemma_filter_prefix_len(legal_moves@, pred, i + 1);
                }
                return Err(message("ambiguous move: ", &t));
            }
            matched = Some(mv);
            proof {
                assert(seq![].push(mv) =~= seq![mv]);
            }
        }
        i += 1;
    }
    proof {
        assert(legal_moves@.take(legal_moves@.len() as int) =~= legal_moves@);
    }
    match matched {
        Some(m) => Ok(m),
        None => Err(message("illegal move: ", &t)),
    }
}

/// A filter of a prefix is no longer than the filter of the whole.
proof fn lemma_filter_prefix_len(s: Seq<Move>, p: spec_fn(Move) -> bool, i: int)
    requires
        0 <= i <= s.len(),
    ensures
        s.take(i).filter(p).len() <= s.filter(p).len(),
    decreases s.len() - i,
{
    if i < s.len() {
        lemma_filter_prefix_len(s, p, i + 1);
        assert(s.take(i + 1) =~= s.take(i).push(s[i]));
        s.take(i).lemma_filter_push(s[i], p);
    } else {
        assert(s.take(i) =~= s);
    }
}

/// Parse a square from the start of a string, with the rest of the string.
/// A two-digit rank (three bytes) is tried first, then a one-digit rank.
pub fn parse_square_prefix(s: &str) -> (r: Option<(Square, String)>)
    requires
        !(square_prefix(s@) is BadCut),
    ensures
        match square_prefix(s@) {
            SquarePrefix::Read(sq, rest) => r matches Some((x, t)) && x == sq && t@ == rest,
            _ => r is None,
        },
{
    let chars = str_chars(s);
    proof {
        assert(chars@.subrange(0, chars@.len() as int) =~= chars@);
    }
    match read_square(&chars, 0) {
        PrefixOut::Read(sq, k) => {
            let rest = copy_range(&chars, k, chars.len());
            Some((sq, chars_to_string(&rest)))
        },
        _ => None,
    }
}

/// Parse a single promotion character into a piece type.
pub fn parse_promo_char(s: &str) -> (r: Option<PieceType>)
    ensures
        r == promo_of(s@),
{
    let chars = str_chars(s);
    proof {
        assert(chars@.subrange(0, chars@.len() as int) =~= chars@);
    }
    read_promo(&chars, 0)
}

} // verus!
