//! FEN4 parsing and serialisation for four-player chess.
//!
//! Format: `<ranks> <side> <castling> <ep_square> <ep_player>`
//!
//! - Ranks: 14 (top) to 1 (bottom), `/`-separated; pieces as two-letter
//!   codes (`rP`, `bK`, `yQ`, `gN`, `rD` for a promoted queen), empty
//!   playable squares as decimal counts, invalid corner squares as `x`.
//! - Side to move: `r`/`b`/`y`/`g`.
//! - Castling: `RrBbYyGg` for the rights held, `-` for none.
//! - En passant square in notation like `d3`, or `-`.
//! - En passant pushing player: `r`/`b`/`y`/`g`, or `-`.

use vstd::prelude::*;
use crate::board::{hash_consistent, Board, BoardState};
use crate::text::{
    chars_to_string, dec, push_chars, push_dec, push_str, split_char, split_on, split_ws, str_chars,
    views, words,
};
use crate::types::{
    digit_value, is_digit, piece_type_of_char, player_of_char, spec_square_from_notation, trim_ws,
    valid_index, valid_rf, Piece, PieceType, Player, Square,
};

verus! {

// ─── Errors ─────────────────────────────────────────────────────────────────

/// Errors that can occur during FEN4 parsing.
#[derive(Debug, Clone, PartialEq)]
pub enum Fen4Error {
    InvalidFormat(String),
    InvalidPiece(String),
    InvalidPlayer(String),
    InvalidCastling(String),
    InvalidEnPassant(String),
    RankLengthMismatch { rank: usize, expected: usize, got: usize },
    WrongRankCount { expected: usize, got: usize },
}

/// A FEN4 error as plain values.
pub ghost enum FenFault {
    Format(Seq<char>),
    Piece(Seq<char>),
    Player(Seq<char>),
    Castling(Seq<char>),
    EnPassant(Seq<char>),
    RankLength(int, int, int),
    RankCount(int, int),
}

/// What an error value says.
pub open spec fn fault_of(e: Fen4Error) -> FenFault {
    match e {
        Fen4Error::InvalidFormat(s) => FenFault::Format(s@),
        Fen4Error::InvalidPiece(s) => FenFault::Piece(s@),
        Fen4Error::InvalidPlayer(s) => FenFault::Player(s@),
        Fen4Error::InvalidCastling(s) => FenFault::Castling(s@),
        Fen4Error::InvalidEnPassant(s) => FenFault::EnPassant(s@),
        Fen4Error::RankLengthMismatch { rank, expected, got } => FenFault::RankLength(
            rank as int,
            expected as int,
            got as int,
        ),
        Fen4Error::WrongRankCount { expected, got } => FenFault::RankCount(
            expected as int,
            got as int,
        ),
    }
}

impl Fen4Error {
    /// The error's message, as its display shows it.
    pub fn to_string(&self) -> (s: String)
        ensures
            s@ == fault_text(fault_of(*self)),
    {
        let mut v: Vec<char> = Vec::new();
        match self {
            Fen4Error::InvalidFormat(m) => {
                push_str(&mut v, "Invalid FEN4 format: ");
                push_str(&mut v, m.as_str());
            },
            Fen4Error::InvalidPiece(m) => {
                push_str(&mut v, "Invalid piece: ");
                push_str(&mut v, m.as_str());
            },
            Fen4Error::InvalidPlayer(m) => {
                push_str(&mut v, "Invalid player: ");
                push_str(&mut v, m.as_str());
            },
            Fen4Error::InvalidCastling(m) => {
                push_str(&mut v, "Invalid castling: ");
                push_str(&mut v, m.as_str());
            },
            Fen4Error::InvalidEnPassant(m) => {
                push_str(&mut v, "Invalid en passant: ");
                push_str(&mut v, m.as_str());
            },
            Fen4Error::RankLengthMismatch { rank, expected, got } => {
                push_str(&mut v, "Rank ");
                push_dec(&mut v, *rank as u64);
                push_str(&mut v, " length mismatch: expected ");
                push_dec(&mut v, *expected as u64);
                push_str(&mut v, " files, got ");
                push_dec(&mut v, *got as u64);
            },
            Fen4Error::WrongRankCount { expected, got } => {
                push_str(&mut v, "Wrong rank count: expected ");
                push_dec(&mut v, *expected as u64);
                push_str(&mut v, ", got ");
                push_dec(&mut v, *got as u64);
            },
        }
        chars_to_string(&v)
    }
}

/// The display text of an error.
pub open spec fn fault_text(f: FenFault) -> Seq<char> {
    match f {
        FenFault::Format(m) => "Invalid FEN4 format: "@ + m,
        FenFault::Piece(m) => "Invalid piece: "@ + m,
        FenFault::Player(m) => "Invalid player: "@ + m,
        FenFault::Castling(m) => "Invalid castling: "@ + m,
        FenFault::EnPassant(m) => "Invalid en passant: "@ + m,
        FenFault::RankLength(r, e, g) => "Rank "@ + dec(r as nat) + " length mismatch: expected "@
            + dec(e as nat) + " files, got "@ + dec(g as nat),
        FenFault::RankCount(e, g) => "Wrong rank count: expected "@ + dec(e as nat) + ", got "@
            + dec(g as nat),
    }
}

// ─── The grammar ────────────────────────────────────────────────────────────

/// A character quoted in single quotes.
pub open spec fn quoted(s: Seq<char>) -> Seq<char> {
    seq!['\''] + s + seq!['\'']
}

/// Saturate at the largest `u8`.
pub open spec fn sat8(x: int) -> int {
    if x > 255 {
        255
    } else {
        x
    }
}

/// The value of the run of digits starting at `i` (accumulated onto `num`,
/// saturating at 255) and the index just past it.
pub open spec fn digit_run(cs: Seq<char>, i: int, num: int) -> (int, int)
    decreases cs.len() - i,
{
    if 0 <= i < cs.len() && is_digit(cs[i]) {
        digit_run(cs, i + 1, sat8(num * 10 + digit_value(cs[i])))
    } else {
        (num, i)
    }
}

proof fn lemma_digit_run(cs: Seq<char>, i: int, num: int)
    requires
        0 <= i,
        0 <= num <= 255,
    ensures
        i <= digit_run(cs, i, num).1 <= if i <= cs.len() {
            cs.len() as int
        } else {
            i
        },
        0 <= digit_run(cs, i, num).0 <= 255,
        0 <= i < cs.len() && is_digit(cs[i]) ==> digit_run(cs, i, num).1 > i,
    decreases cs.len() - i,
{
    if 0 <= i < cs.len() && is_digit(cs[i]) {
        lemma_digit_run(cs, i + 1, sat8(num * 10 + digit_value(cs[i])));
    }
}

/// The result of parsing the rest of one rank.
pub ghost enum RankParse {
    /// The pieces placed (square index, piece) and the final file.
    Done(Seq<(int, Piece)>, int),
    Failed(FenFault),
}

/// Parse rank `rank`'s text `cs` from character `i` at file `file`.
pub open spec fn rank_parse(cs: Seq<char>, rank: int, i: int, file: int) -> RankParse
    decreases cs.len() - i,
{
    if !(0 <= i < cs.len() && file < 14) {
        RankParse::Done(Seq::empty(), file)
    } else {
        let ch = cs[i];
        if ch == 'x' {
            rank_parse(cs, rank, i + 1, file + 1)
        } else if is_digit(ch) {
            let (num, j) = digit_run(cs, i, 0);
            if i < j <= cs.len() {
                rank_parse(cs, rank, j, sat8(file + num))
            } else {
                RankParse::Done(Seq::empty(), file)
            }
        } else if 'a' <= ch <= 'z' {
            if i + 1 >= cs.len() {
                RankParse::Failed(
                    FenFault::Piece(
                        "Incomplete piece at rank "@ + dec((rank + 1) as nat) + ", file "@ + dec(
                            file as nat,
                        ),
                    ),
                )
            } else {
                match player_of_char(ch) {
                    None => RankParse::Failed(
                        FenFault::Player("Unknown player char "@ + quoted(seq![ch])),
                    ),
                    Some(pl) => match piece_type_of_char(cs[i + 1]) {
                        None => RankParse::Failed(
                            FenFault::Piece("Unknown piece char "@ + quoted(seq![cs[i + 1]])),
                        ),
                        Some(pt) => if !valid_rf(rank, file) {
                            RankParse::Failed(
                                FenFault::Piece(
                                    "Piece on invalid square rank="@ + dec(rank as nat)
                                        + ", file="@ + dec(file as nat),
                                ),
                            )
                        } else {
                            match rank_parse(cs, rank, i + 2, file + 1) {
                                RankParse::Done(rest, f) => RankParse::Done(
                                    seq![(rank * 14 + file, Piece { piece_type: pt, player: pl })]
                                        + rest,
                                    f,
                                ),
                                RankParse::Failed(e) => RankParse::Failed(e),
                            }
                        },
                    },
                }
            }
        } else {
            RankParse::Failed(
                FenFault::Format(
                    "Unexpected character "@ + quoted(seq![ch]) + " at rank "@ + dec(
                        (rank + 1) as nat,
                    ) + ", file "@ + dec(file as nat),
                ),
            )
        }
    }
}

/// Parse the ranks `rs[k..]` (the text's `k`-th rank from the top is rank
/// `13 - k`), collecting the pieces placed.
pub open spec fn ranks_parse(rs: Seq<Seq<char>>, k: int) -> Result<Seq<(int, Piece)>, FenFault>
    decreases 14 - k,
{
    if k < 0 || k >= 14 {
        Ok(Seq::empty())
    } else {
        let rank = 13 - k;
        match rank_parse(rs[k], rank, 0, 0) {
            RankParse::Failed(e) => Err(e),
            RankParse::Done(pl, file) => if file != 14 {
                Err(FenFault::RankLength(rank + 1, 14, file))
            } else {
                match ranks_parse(rs, k + 1) {
                    Ok(rest) => Ok(pl + rest),
                    Err(e) => Err(e),
                }
            },
        }
    }
}

/// The castling bit of a castling letter (-1 if none).
pub open spec fn castle_letter_bit(c: char) -> int {
    if c == 'R' {
        0
    } else if c == 'r' {
        1
    } else if c == 'B' {
        2
    } else if c == 'b' {
        3
    } else if c == 'Y' {
        4
    } else if c == 'y' {
        5
    } else if c == 'G' {
        6
    } else if c == 'g' {
        7
    } else {
        -1
    }
}

/// The rights named by a run of castling letters.
pub open spec fn castling_letters(s: Seq<char>) -> Result<u8, FenFault>
    decreases s.len(),
{
    if s.len() == 0 {
        Ok(0u8)
    } else {
        match castling_letters(s.drop_last()) {
            Err(e) => Err(e),
            Ok(r) => if castle_letter_bit(s.last()) < 0 {
                Err(FenFault::Castling("Unknown castling char "@ + quoted(seq![s.last()])))
            } else {
                Ok(r | (1u8 << (castle_letter_bit(s.last()) as u8)))
            },
        }
    }
}

/// The castling field.
pub open spec fn castling_parse(s: Seq<char>) -> Result<u8, FenFault> {
    if s == seq!['-'] {
        Ok(0u8)
    } else {
        castling_letters(s)
    }
}

/// Text that is one byte long in UTF-8: a single ASCII character.
pub open spec fn one_byte(s: Seq<char>) -> bool {
    s.len() == 1 && (s[0] as u32) < 128
}

/// The side-to-move field.
pub open spec fn side_parse(s: Seq<char>) -> Result<Player, FenFault> {
    if !one_byte(s) {
        Err(FenFault::Player("Side to move "@ + quoted(s) + " not a single char"@))
    } else {
        match player_of_char(s[0]) {
            Some(p) => Ok(p),
            None => Err(FenFault::Player("Unknown side to move "@ + quoted(s))),
        }
    }
}

/// The en passant square field.
pub open spec fn ep_parse(s: Seq<char>) -> Result<Option<Square>, FenFault> {
    if s == seq!['-'] {
        Ok(None)
    } else {
        match spec_square_from_notation(trim_ws(s)) {
            Some(sq) => Ok(Some(sq)),
            None => Err(FenFault::EnPassant("Invalid EP square "@ + quoted(s))),
        }
    }
}

/// The en passant pushing player field.
pub open spec fn ep_player_parse(s: Seq<char>) -> Result<Option<Player>, FenFault> {
    if s == seq!['-'] {
        Ok(None)
    } else if !one_byte(s) {
        Err(FenFault::Player("EP player "@ + quoted(s) + " not a single char"@))
    } else {
        match player_of_char(s[0]) {
            Some(p) => Ok(Some(p)),
            None => Err(FenFault::Player("Unknown EP player "@ + quoted(s))),
        }
    }
}

/// What a FEN4 text describes.
pub ghost struct FenPos {
    pub placements: Seq<(int, Piece)>,
    pub stm: Player,
    pub castling: u8,
    pub ep: Option<Square>,
    pub ep_player: Option<Player>,
}

/// Parse FEN4 text.
pub open spec fn parse_fen(s: Seq<char>) -> Result<FenPos, FenFault> {
    let parts = words(s);
    if parts.len() != 5 {
        Err(FenFault::Format("Expected 5 parts, got "@ + dec(parts.len())))
    } else {
        let rs = split_on(parts[0], '/');
        if rs.len() != 14 {
            Err(FenFault::RankCount(14, rs.len() as int))
        } else {
            match ranks_parse(rs, 0) {
                Err(e) => Err(e),
                Ok(pl) => match side_parse(parts[1]) {
                    Err(e) => Err(e),
                    Ok(stm) => match castling_parse(parts[2]) {
                        Err(e) => Err(e),
                        Ok(c) => match ep_parse(parts[3]) {
                            Err(e) => Err(e),
                            Ok(ep) => match ep_player_parse(parts[4]) {
                                Err(e) => Err(e),
                                Ok(epp) => Ok(
                                    FenPos {
                                        placements: pl,
                                        stm,
                                        castling: c,
                                        ep,
                                        ep_player: epp,
                                    },
                                ),
                            },
                        },
                    },
                },
            }
        }
    }
}

/// The squares after placing `pl` in order on an empty board.
pub open spec fn placed_squares(pl: Seq<(int, Piece)>) -> Seq<Option<Piece>>
    decreases pl.len(),
{
    if pl.len() == 0 {
        Seq::new(196, |i: int| None)
    } else {
        placed_squares(pl.drop_last()).update(pl.last().0, Some(pl.last().1))
    }
}

/// The king squares after placing `pl` in order on an empty board.
pub open spec fn placed_kings(pl: Seq<(int, Piece)>) -> Seq<u8>
    decreases pl.len(),
{
    if pl.len() == 0 {
        seq![255u8, 255u8, 255u8, 255u8]
    } else {
        let k = placed_kings(pl.drop_last());
        if pl.last().1.piece_type == PieceType::King {
            k.update(crate::types::pidx(pl.last().1.player), pl.last().0 as u8)
        } else {
            k
        }
    }
}

/// The position a parsed FEN4 text describes (stored hash aside).
pub open spec fn fen_state(fp: FenPos, z: u64) -> BoardState {
    BoardState {
        squares: placed_squares(fp.placements),
        kings: placed_kings(fp.placements),
        castling: fp.castling,
        ep: fp.ep,
        ep_player: fp.ep_player,
        stm: fp.stm,
        zobrist: z,
    }
}

// ─── Parsing ────────────────────────────────────────────────────────────────

/// The grid index of (rank, file).
pub open spec fn cell(r: int, f: int) -> int {
    r * 14 + f
}

/// A parse result with placements in front.
pub open spec fn prefixed(p: Seq<(int, Piece)>, r: RankParse) -> RankParse {
    match r {
        RankParse::Done(rest, f) => RankParse::Done(p + rest, f),
        RankParse::Failed(e) => RankParse::Failed(e),
    }
}

/// The piece one parsing step at `i` places, if any.
pub open spec fn step_placed(cs: Seq<char>, rank: int, i: int, file: int) -> Seq<(int, Piece)> {
    if 'a' <= cs[i] <= 'z' && i + 1 < cs.len() && player_of_char(cs[i]) is Some
        && piece_type_of_char(cs[i + 1]) is Some && valid_rf(rank, file) {
        seq![
            (
                rank * 14 + file,
                Piece {
                    piece_type: piece_type_of_char(cs[i + 1])->0,
                    player: player_of_char(cs[i])->0,
                },
            ),
        ]
    } else {
        Seq::empty()
    }
}

/// The board while ranks are being read: the pieces of `placed` are on
/// it, nothing else is set, and the cells not yet reached are empty.
pub open spec fn reading(b: BoardState, placed: Seq<(int, Piece)>, rank: int, file: int) -> bool {
    &&& b.squares == placed_squares(placed)
    &&& b.kings == placed_kings(placed)
    &&& b.castling == 0
    &&& b.ep is None
    &&& b.ep_player is None
    &&& b.stm == Player::Red
    &&& forall|r: int, f: int|
        0 <= r < 14 && 0 <= f < 14 && (r < rank || (r == rank && f >= file))
            ==> #[trigger] b.squares[cell(r, f)] is None
}

fn error_text_at(prefix: &str, rank_shown: usize, file: usize) -> (v: Vec<char>)
    ensures
        v@ == prefix@ + " at rank "@ + dec(rank_shown as nat) + ", file "@ + dec(file as nat),
{
    let mut v: Vec<char> = Vec::new();
    push_str(&mut v, prefix);
    push_str(&mut v, " at rank ");
    push_dec(&mut v, rank_shown as u64);
    push_str(&mut v, ", file ");
    push_dec(&mut v, file as u64);
    v
}

fn quote_char(prefix: &str, c: char) -> (v: Vec<char>)
    ensures
        v@ == prefix@ + quoted(seq![c]),
{
    let mut v: Vec<char> = Vec::new();
    push_str(&mut v, prefix);
    v.push('\'');
    v.push(c);
    v.push('\'');
    proof {
        assert(v@ =~= prefix@ + quoted(seq![c]));
    }
    v
}

fn quote_text(prefix: &str, t: &Vec<char>, suffix: &str) -> (v: Vec<char>)
    ensures
        v@ == prefix@ + quoted(t@) + suffix@,
{
    let mut v: Vec<char> = Vec::new();
    push_str(&mut v, prefix);
    v.push('\'');
    push_chars(&mut v, t);
    v.push('\'');
    push_str(&mut v, suffix);
    proof {
        assert(v@ =~= prefix@ + quoted(t@) + suffix@);
    }
    v
}

fn is_ascii_digit(c: char) -> (r: bool)
    ensures
        r == is_digit(c),
{
    '0' <= c && c <= '9'
}

fn digit_of(c: char) -> (r: u8)
    requires
        is_digit(c),
    ensures
        r == digit_value(c),
{
    (c as u32 - 48) as u8
}

fn sat_step(num: u8, d: u8) -> (r: u8)
    requires
        d < 10,
    ensures
        r == sat8(num * 10 + d),
{
    if num > 25 || (num == 25 && d > 5) {
        255
    } else {
        num * 10 + d
    }
}

/// One parsing step of a rank: a corner marker, a run of digits or a piece.
fn rank_step(
    board: &mut Board,
    cs: &Vec<char>,
    rank: u8,
    i: usize,
    file: u8,
    Ghost(placed): Ghost<Seq<(int, Piece)>>,
) -> (r: Result<(usize, u8), Fen4Error>)
    requires
        old(board).wf(),
        rank < 14,
        i < cs@.len(),
        file < 14,
        reading(old(board)@, placed, rank as int, file as int),
    ensures
        final(board).wf(),
        match r {
            Ok((j, f)) => {
                &&& i < j <= cs@.len()
                &&& rank_parse(cs@, rank as int, i as int, file as int) == prefixed(
                    step_placed(cs@, rank as int, i as int, file as int),
                    rank_parse(cs@, rank as int, j as int, f as int),
                )
                &&& reading(
                    final(board)@,
                    placed + step_placed(cs@, rank as int, i as int, file as int),
                    rank as int,
                    f as int,
                )
            },
            Err(e) => rank_parse(cs@, rank as int, i as int, file as int) == RankParse::Failed(
                fault_of(e),
            ),
        },
{
    let n = cs.len();
    let ch = cs[i];
    let ghost sp = step_placed(cs@, rank as int, i as int, file as int);
    if ch == 'x' {
        proof {
            assert(placed + sp =~= placed);
            assert(prefixed(sp, rank_parse(cs@, rank as int, i + 1, file + 1)) == rank_parse(
                cs@,
                rank as int,
                i + 1,
                file + 1,
            )) by {
                match rank_parse(cs@, rank as int, i + 1, file + 1) {
                    RankParse::Done(rest, f) => {
                        assert(sp + rest =~= rest);
                    },
                    _ => {},
                }
            }
        }
        Ok((i + 1, file + 1))
    } else if is_ascii_digit(ch) {
        let ghost i0 = i;
        let mut num: u8 = 0;
        let mut j: usize = i;
        while j < cs.len() && is_ascii_digit(cs[j])
            invariant
                i0 <= j <= cs@.len(),
                digit_run(cs@, i0 as int, 0) == digit_run(cs@, j as int, num as int),
                j == i0 ==> num == 0,
                is_digit(cs@[i0 as int]),
            decreases cs@.len() - j,
        {
            let d = digit_of(cs[j]);
            num = sat_step(num, d);
            j += 1;
        }
        proof {
            lemma_digit_run(cs@, i0 as int, 0);
            assert(placed + sp =~= placed);
            assert(j > i0);
            match rank_parse(cs@, rank as int, j as int, sat8(file + num)) {
                RankParse::Done(rest, f) => {
                    assert(sp + rest =~= rest);
                },
                _ => {},
            }
        }
        let f2 = file.saturating_add(num);
        Ok((j, f2))
    } else if 'a' <= ch && ch <= 'z' {
        if n - i <= 1 {
            let v = error_text_at("Incomplete piece", (rank + 1) as usize, file as usize);
            proof {
                reveal_strlit("Incomplete piece");
                reveal_strlit(" at rank ");
                reveal_strlit("Incomplete piece at rank ");
                assert("Incomplete piece"@ + " at rank "@ =~= "Incomplete piece at rank "@);
            }
            return Err(Fen4Error::InvalidPiece(chars_to_string(&v)));
        }
        let player = match Player::from_char(ch) {
            Some(p) => p,
            None => {
                let v = quote_char("Unknown player char ", ch);
                return Err(Fen4Error::InvalidPlayer(chars_to_string(&v)));
            },
        };
        let piece_type = match PieceType::from_char(cs[i + 1]) {
            Some(pt) => pt,
            None => {
                let v = quote_char("Unknown piece char ", cs[i + 1]);
                return Err(Fen4Error::InvalidPiece(chars_to_string(&v)));
            },
        };
        let sq = match Square::new(rank, file) {
            Some(sq) => sq,
            None => {
                let mut v: Vec<char> = Vec::new();
                push_str(&mut v, "Piece on invalid square rank=");
                push_dec(&mut v, rank as u64);
                push_str(&mut v, ", file=");
                push_dec(&mut v, file as u64);
                return Err(Fen4Error::InvalidPiece(chars_to_string(&v)));
            },
        };
        let ghost before = board@;
        proof {
            board.lemma_wf();
            assert(before.squares[cell(rank as int, file as int)] is None);
        }
        board.set_piece(sq, Piece::new(piece_type, player));
        proof {
            board.lemma_wf();
            let np = placed + sp;
            assert(np.drop_last() =~= placed);
            assert(np.last() == (rank * 14 + file, Piece { piece_type, player }));
            let b = board@;
            assert forall|r: int, f: int|
                0 <= r < 14 && 0 <= f < 14 && (r < rank || (r == rank && f >= file + 1))
                    implies #[trigger] b.squares[cell(r, f)] is None by {
                assert(before.squares[cell(r, f)] is None);
                assert(cell(r, f) != rank * 14 + file);
            }
            match rank_parse(cs@, rank as int, i + 2, file + 1) {
                RankParse::Done(rest, f) => {},
                _ => {},
            }
        }
        Ok((i + 2, file + 1))
    } else {
        let mut v = quote_char("Unexpected character ", ch);
        let w = error_text_at("", (rank + 1) as usize, file as usize);
        push_chars(&mut v, &w);
        proof {
            reveal_strlit("");
            assert(v@ =~= "Unexpected character "@ + quoted(seq![ch]) + " at rank "@ + dec(
                (rank + 1) as nat,
            ) + ", file "@ + dec(file as nat));
        }
        Err(Fen4Error::InvalidFormat(chars_to_string(&v)))
    }
}

/// Read one rank's text onto the board, returning the final file.
fn read_rank(board: &mut Board, cs: &Vec<char>, rank: u8, Ghost(placed): Ghost<Seq<(int, Piece)>>) -> (r:
    Result<u8, Fen4Error>)
    requires
        old(board).wf(),
        rank < 14,
        reading(old(board)@, placed, rank as int, 0),
    ensures
        final(board).wf(),
        match rank_parse(cs@, rank as int, 0, 0) {
            RankParse::Done(pl, f) => {
                &&& r == Ok::<u8, Fen4Error>(f as u8)
                &&& f == f as u8
                &&& reading(final(board)@, placed + pl, rank as int, f)
            },
            RankParse::Failed(e) => r matches Err(x) && fault_of(x) == e,
        },
{
    let n = cs.len();
    let mut i: usize = 0;
    let mut file: u8 = 0;
    let ghost mut done: Seq<(int, Piece)> = Seq::empty();
    proof {
        match rank_parse(cs@, rank as int, 0, 0) {
            RankParse::Done(rest, f) => {
                assert(done + rest =~= rest);
            },
            _ => {},
        }
        assert(placed + done =~= placed);
    }
    while i < n && file < 14
        invariant
            board.wf(),
            n == cs@.len(),
            i <= n,
            rank < 14,
            rank_parse(cs@, rank as int, 0, 0) == prefixed(
                done,
                rank_parse(cs@, rank as int, i as int, file as int),
            ),
            reading(board@, placed + done, rank as int, file as int),
        decreases n - i,
    {
        let ghost sp = step_placed(cs@, rank as int, i as int, file as int);
        match rank_step(board, cs, rank, i, file, Ghost(placed + done)) {
            Ok((j, f)) => {
                proof {
                    assert(placed + done + sp =~= placed + (done + sp));
                    match rank_parse(cs@, rank as int, j as int, f as int) {
                        RankParse::Done(rest, ff) => {
                            assert(done + (sp + rest) =~= (done + sp) + rest);
                        },
                        _ => {},
                    }
                    done = done + sp;
                }
                i = j;
                file = f;
            },
            Err(e) => {
                return Err(e);
            },
        }
    }
    proof {
        assert(done + Seq::<(int, Piece)>::empty() =~= done);
    }
    Ok(file)
}

/// Combine the placements of earlier ranks with the parse of the rest.
pub open spec fn after_ranks(p: Seq<(int, Piece)>, r: Result<Seq<(int, Piece)>, FenFault>) -> Result<
    Seq<(int, Piece)>,
    FenFault,
> {
    match r {
        Ok(rest) => Ok(p + rest),
        Err(e) => Err(e),
    }
}

/// Read all fourteen ranks onto an empty board.
fn read_ranks(board: &mut Board, ranks: &Vec<Vec<char>>) -> (r: Result<(), Fen4Error>)
    requires
        old(board).wf(),
        ranks@.len() == 14,
        reading(old(board)@, Seq::empty(), 13, 0),
    ensures
        final(board).wf(),
        match ranks_parse(views(ranks@), 0) {
            Ok(pl) => r is Ok && reading(final(board)@, pl, -1, 0),
            Err(e) => r matches Err(x) && fault_of(x) == e,
        },
{
    let ghost rs = views(ranks@);
    let ghost mut done: Seq<(int, Piece)> = Seq::empty();
    proof {
        match ranks_parse(rs, 0) {
            Ok(rest) => {
                assert(done + rest =~= rest);
            },
            _ => {},
        }
    }
    let mut k: usize = 0;
    while k < 14
        invariant
            board.wf(),
            ranks@.len() == 14,
            rs == views(ranks@),
            k <= 14,
            ranks_parse(rs, 0) == after_ranks(done, ranks_parse(rs, k as int)),
            reading(board@, done, 13 - k, 0),
        decreases 14 - k,
    {
        let rank = (13 - k) as u8;
        let cs = &ranks[k];
        proof {
            assert(rs[k as int] == cs@);
        }
        match read_rank(board, cs, rank, Ghost(done)) {
            Ok(file) => {
                if file != 14 {
                    return Err(
                        Fen4Error::RankLengthMismatch {
                            rank: (rank + 1) as usize,
                            expected: 14,
                            got: file as usize,
                        },
                    );
                }
                proof {
                    let pl = rank_parse(rs[k as int], rank as int, 0, 0)->Done_0;
                    match ranks_parse(rs, k + 1) {
                        Ok(rest) => {
                            assert(done + (pl + rest) =~= (done + pl) + rest);
                        },
                        _ => {},
                    }
                    done = done + pl;
                    let b = board@;
                    assert forall|r: int, f: int|
                        0 <= r < 14 && 0 <= f < 14 && (r < 13 - (k + 1) || (r == 13 - (k + 1)
                            && f >= 0)) implies #[trigger] b.squares[cell(r, f)] is None by {
                        assert(r < rank);
                    }
                }
            },
            Err(e) => {
                return Err(e);
            },
        }
        k += 1;
    }
    proof {
        assert(done + Seq::<(int, Piece)>::empty() =~= done);
    }
    Ok(())
}

/// The text is exactly "-".
fn is_dash(s: &Vec<char>) -> (r: bool)
    ensures
        r == (s@ == seq!['-']),
{
    let r = s.len() == 1 && s[0] == '-';
    proof {
        if r {
            assert(s@ =~= seq!['-']);
        }
    }
    r
}

fn is_one_byte(s: &Vec<char>) -> (r: bool)
    ensures
        r == one_byte(s@),
{
    s.len() == 1 && (s[0] as u32) < 128
}

fn read_side(s: &Vec<char>) -> (r: Result<Player, Fen4Error>)
    ensures
        match side_parse(s@) {
            Ok(p) => r == Ok::<Player, Fen4Error>(p),
            Err(f) => r matches Err(x) && fault_of(x) == f,
        },
{
    if !is_one_byte(s) {
        let v = quote_text("Side to move ", s, " not a single char");
        return Err(Fen4Error::InvalidPlayer(chars_to_string(&v)));
    }
    match Player::from_char(s[0]) {
        Some(p) => Ok(p),
        None => {
            let v = quote_text("Unknown side to move ", s, "");
            proof {
                reveal_strlit("");
                assert(v@ =~= "Unknown side to move "@ + quoted(s@));
            }
            Err(Fen4Error::InvalidPlayer(chars_to_string(&v)))
        },
    }
}

fn castle_bit(c: char) -> (r: Option<u8>)
    ensures
        castle_letter_bit(c) < 0 ==> r is None,
        castle_letter_bit(c) >= 0 ==> r == Some(castle_letter_bit(c) as u8),
{
    if c == 'R' {
        Some(0)
    } else if c == 'r' {
        Some(1)
    } else if c == 'B' {
        Some(2)
    } else if c == 'b' {
        Some(3)
    } else if c == 'Y' {
        Some(4)
    } else if c == 'y' {
        Some(5)
    } else if c == 'G' {
        Some(6)
    } else if c == 'g' {
        Some(7)
    } else {
        None
    }
}

fn read_castling(s: &Vec<char>) -> (r: Result<u8, Fen4Error>)
    ensures
        match castling_parse(s@) {
            Ok(c) => r == Ok::<u8, Fen4Error>(c),
            Err(f) => r matches Err(x) && fault_of(x) == f,
        },
{
    if is_dash(s) {
        return Ok(0);
    }
    let mut rights: u8 = 0;
    let mut i: usize = 0;
    while i < s.len()
        invariant
            i <= s@.len(),
            s@ != seq!['-'],
            castling_letters(s@.take(i as int)) == Ok::<u8, FenFault>(rights),
        decreases s@.len() - i,
    {
        let ghost t = s@.take(i as int + 1);
        proof {
            assert(t.drop_last() =~= s@.take(i as int));
            assert(t.last() == s@[i as int]);
        }
        match castle_bit(s[i]) {
            Some(bit) => {
                rights = rights | (1u8 << bit);
            },
            None => {
                let v = quote_char("Unknown castling char ", s[i]);
                proof {
                    assert(castling_letters(t) == Err::<u8, FenFault>(
                        FenFault::Castling("Unknown castling char "@ + quoted(seq![t.last()])),
                    ));
                    lemma_castling_error_stays(s@, i as int + 1);
                }
                return Err(Fen4Error::InvalidCastling(chars_to_string(&v)));
            },
        }
        i += 1;
    }
    proof {
        assert(s@.take(s@.len() as int) =~= s@);
    }
    Ok(rights)
}

/// Once a prefix of the castling letters fails, the whole field fails the
/// same way.
proof fn lemma_castling_error_stays(s: Seq<char>, k: int)
    requires
        0 <= k <= s.len(),
        castling_letters(s.take(k)) is Err,
    ensures
        castling_letters(s) == castling_letters(s.take(k)),
    decreases s.len() - k,
{
    if k < s.len() {
        let t = s.take(k + 1);
        assert(t.drop_last() =~= s.take(k));
        lemma_castling_error_stays(s, k + 1);
    } else {
        assert(s.take(k) =~= s);
    }
}

/// A square read from notation is a playable square.
proof fn lemma_notation_square(t: Seq<char>)
    ensures
        spec_square_from_notation(t) matches Some(sq) ==> sq.0 < 196 && valid_index(sq.0 as int),
{
    match spec_square_from_notation(t) {
        Some(sq) => {
            let rd = crate::types::spec_parse_small(t.subrange(1, t.len() as int))->0;
            let r = rd - 1;
            let f = t[0] as int - 97;
            let i = r * 14 + f;
            assert(i / 14 == r && i % 14 == f);
        },
        None => {},
    }
}

fn read_ep(s: &Vec<char>) -> (r: Result<Option<Square>, Fen4Error>)
    ensures
        match ep_parse(s@) {
            Ok(e) => r == Ok::<Option<Square>, Fen4Error>(e),
            Err(f) => r matches Err(x) && fault_of(x) == f,
        },
        r matches Ok(Some(sq)) ==> sq.0 < 196 && valid_index(sq.0 as int),
{
    if is_dash(s) {
        return Ok(None);
    }
    let text = chars_to_string(s);
    proof {
        lemma_notation_square(trim_ws(s@));
    }
    match Square::from_notation(text.as_str()) {
        Some(sq) => Ok(Some(sq)),
        None => {
            let v = quote_text("Invalid EP square ", s, "");
            proof {
                reveal_strlit("");
                assert(v@ =~= "Invalid EP square "@ + quoted(s@));
            }
            Err(Fen4Error::InvalidEnPassant(chars_to_string(&v)))
        },
    }
}

fn read_ep_player(s: &Vec<char>) -> (r: Result<Option<Player>, Fen4Error>)
    ensures
        match ep_player_parse(s@) {
            Ok(p) => r == Ok::<Option<Player>, Fen4Error>(p),
            Err(f) => r matches Err(x) && fault_of(x) == f,
        },
{
    if is_dash(s) {
        return Ok(None);
    }
    if !is_one_byte(s) {
        let v = quote_text("EP player ", s, " not a single char");
        return Err(Fen4Error::InvalidPlayer(chars_to_string(&v)));
    }
    match Player::from_char(s[0]) {
        Some(p) => Ok(Some(p)),
        None => {
            let v = quote_text("Unknown EP player ", s, "");
            proof {
                reveal_strlit("");
                assert(v@ =~= "Unknown EP player "@ + quoted(s@));
            }
            Err(Fen4Error::InvalidPlayer(chars_to_string(&v)))
        },
    }
}

impl Board {
    /// Parse a board from FEN4 text.
    pub fn from_fen4(fen: &str) -> (r: Result<Board, Fen4Error>)
        ensures
            match parse_fen(fen@) {
                Ok(fp) => r matches Ok(b) && b.wf() && b@ == fen_state(fp, b@.zobrist)
                    && hash_consistent(b@),
                Err(f) => r matches Err(e) && fault_of(e) == f,
            },
    {
        let chars = str_chars(fen);
        let parts = split_ws(&chars);
        if parts.len() != 5 {
            let mut v: Vec<char> = Vec::new();
            push_str(&mut v, "Expected 5 parts, got ");
            push_dec(&mut v, parts.len() as u64);
            return Err(Fen4Error::InvalidFormat(chars_to_string(&v)));
        }
        proof {
            assert(views(parts@)[0] == parts@[0]@);
            assert(views(parts@)[1] == parts@[1]@);
            assert(views(parts@)[2] == parts@[2]@);
            assert(views(parts@)[3] == parts@[3]@);
            assert(views(parts@)[4] == parts@[4]@);
        }
        let ranks = split_char(&parts[0], '/');
        if ranks.len() != 14 {
            return Err(Fen4Error::WrongRankCount { expected: 14, got: ranks.len() });
        }
        let mut board = Board::empty();
        proof {
            board.lemma_wf();
            let b = board@;
            let e = Seq::<(int, Piece)>::empty();
            assert(b.squares =~= placed_squares(e));
            assert(b.kings =~= placed_kings(e));
        }
        match read_ranks(&mut board, &ranks) {
            Ok(()) => {},
            Err(e) => {
                return Err(e);
            },
        }
        let stm = match read_side(&parts[1]) {
            Ok(p) => p,
            Err(e) => {
                return Err(e);
            },
        };
        let castling = match read_castling(&parts[2]) {
            Ok(c) => c,
            Err(e) => {
                return Err(e);
            },
        };
        let ep = match read_ep(&parts[3]) {
            Ok(e) => e,
            Err(e) => {
                return Err(e);
            },
        };
        let ep_player = match read_ep_player(&parts[4]) {
            Ok(p) => p,
            Err(e) => {
                return Err(e);
            },
        };
        board.set_side_to_move(stm);
        board.set_castling_rights(castling);
        board.set_en_passant(ep, ep_player);
        board.refresh_hash();
        Ok(board)
    }
}

// ─── Serialisation ──────────────────────────────────────────────────────────

/// A pending run of `e` empty squares.
pub open spec fn flush(e: int) -> Seq<char> {
    if e > 0 {
        dec(e as nat)
    } else {
        Seq::empty()
    }
}

/// The text of rank `rank` from file `file` on, with `e` empty squares
/// pending.
pub open spec fn rank_text_from(sqs: Seq<Option<Piece>>, rank: int, file: int, e: int) -> Seq<char>
    decreases 14 - file,
{
    if file >= 14 {
        flush(e)
    } else if !valid_rf(rank, file) {
        flush(e) + seq!['x'] + rank_text_from(sqs, rank, file + 1, 0)
    } else {
        match sqs[cell(rank, file)] {
            Some(pc) => flush(e) + seq![
                crate::types::player_char(pc.player),
                crate::types::piece_type_char(pc.piece_type),
            ] + rank_text_from(sqs, rank, file + 1, 0),
            None => rank_text_from(sqs, rank, file + 1, e + 1),
        }
    }
}

/// The ranks from the `k`-th from the top down, `/`-separated.
pub open spec fn ranks_text(sqs: Seq<Option<Piece>>, k: int) -> Seq<char>
    decreases 14 - k,
{
    if k >= 13 {
        rank_text_from(sqs, 13 - k, 0, 0)
    } else {
        rank_text_from(sqs, 13 - k, 0, 0) + seq!['/'] + ranks_text(sqs, k + 1)
    }
}

/// The castling letter of bit `b`.
pub open spec fn castle_letter(b: int) -> char {
    if b == 0 {
        'R'
    } else if b == 1 {
        'r'
    } else if b == 2 {
        'B'
    } else if b == 3 {
        'b'
    } else if b == 4 {
        'Y'
    } else if b == 5 {
        'y'
    } else if b == 6 {
        'G'
    } else {
        'g'
    }
}

/// Each castling letter names its own right: the letter of bit `b` is the
/// letter of the player whose right bit `b` is (the player castling
/// variant `b` moves), in capitals for the kingside right (even bits) and
/// in small letters for the queenside one; and reading a letter back gives
/// its bit.
pub proof fn lemma_castle_letters()
    ensures
        forall|b: int|
            0 <= b < 8 ==> (#[trigger] castle_letter(b)) as int == crate::types::player_char(
                crate::types::player_at(crate::movegen::castle_def(b).0),
            ) as int - (if b % 2 == 0 {
                32int
            } else {
                0int
            }),
        forall|b: int| 0 <= b < 8 ==> crate::movegen::castle_def(b).1 == b,
        forall|b: int| 0 <= b < 8 ==> castle_letter_bit(#[trigger] castle_letter(b)) == b,
        forall|c: char| #[trigger] castle_letter_bit(c) >= 0 ==> castle_letter(castle_letter_bit(c)) == c,
{
    assert forall|b: int| 0 <= b < 8 implies (#[trigger] castle_letter(b)) as int == crate::types::player_char(
        crate::types::player_at(crate::movegen::castle_def(b).0),
    ) as int - (if b % 2 == 0 {
        32int
    } else {
        0int
    }) by {
        if b == 0 {
        } else if b == 1 {
        } else if b == 2 {
        } else if b == 3 {
        } else if b == 4 {
        } else if b == 5 {
        } else if b == 6 {
        } else {
        }
    }
}

/// The letters of the rights among the first `n` bits.
pub open spec fn castling_letters_of(c: u8, n: int) -> Seq<char>
    decreases n,
{
    if n <= 0 {
        Seq::empty()
    } else {
        castling_letters_of(c, n - 1) + if c & (1u8 << ((n - 1) as u8)) != 0 {
            seq![castle_letter(n - 1)]
        } else {
            Seq::empty()
        }
    }
}

/// The castling field lists exactly the rights that are set, one letter
/// each, in bit order (Red's, then Blue's, Yellow's and Green's; kingside
/// before queenside).
pub proof fn lemma_castling_letters_of(c: u8, n: int)
    requires
        0 <= n <= 8,
    ensures
        forall|i: int|
            0 <= i < castling_letters_of(c, n).len() ==> 0 <= castle_letter_bit(#[trigger] castling_letters_of(c, n)[i])
                < n && c & (1u8 << (castle_letter_bit(castling_letters_of(c, n)[i]) as u8)) != 0,
        forall|i: int, j: int|
            0 <= i < j < castling_letters_of(c, n).len() ==> castle_letter_bit(#[trigger] castling_letters_of(c, n)[i])
                < castle_letter_bit(#[trigger] castling_letters_of(c, n)[j]),
        forall|b: int|
            0 <= b < n && c & (1u8 << (b as u8)) != 0 ==> #[trigger] castling_letters_of(c, n).contains(
                castle_letter(b),
            ),
    decreases n,
{
    lemma_castle_letters();
    if n > 0 {
        lemma_castling_letters_of(c, n - 1);
        let prev = castling_letters_of(c, n - 1);
        let cur = castling_letters_of(c, n);
        if c & (1u8 << ((n - 1) as u8)) != 0 {
            assert(cur == prev + seq![castle_letter(n - 1)]);
            assert(cur[prev.len() as int] == castle_letter(n - 1));
            assert forall|i: int| 0 <= i < prev.len() implies #[trigger] cur[i] == prev[i] by {}
            assert forall|b: int| 0 <= b < n && c & (1u8 << (b as u8)) != 0 implies #[trigger] cur.contains(
                castle_letter(b),
            ) by {
                if b < n - 1 {
                    assert(prev.contains(castle_letter(b)));
                    let i = choose|i: int| 0 <= i < prev.len() && prev[i] == castle_letter(b);
                    assert(cur[i] == castle_letter(b));
                } else {
                    assert(cur[prev.len() as int] == castle_letter(b));
                }
            }
        } else {
            assert(cur =~= prev);
        }
    }
}

/// The castling field of rights `c`.
pub open spec fn castling_text(c: u8) -> Seq<char> {
    if c == 0 {
        seq!['-']
    } else {
        castling_letters_of(c, 8)
    }
}

/// The en passant square field.
pub open spec fn ep_text(ep: Option<Square>) -> Seq<char> {
    match ep {
        Some(sq) => crate::types::square_notation(sq),
        None => seq!['-'],
    }
}

/// The en passant player field.
pub open spec fn ep_player_text(p: Option<Player>) -> Seq<char> {
    match p {
        Some(pl) => seq![crate::types::player_char(pl)],
        None => seq!['-'],
    }
}

/// The FEN4 text of a position.
pub open spec fn fen_text(st: BoardState) -> Seq<char> {
    ranks_text(st.squares, 0) + seq![' '] + seq![crate::types::player_char(st.stm)] + seq![' ']
        + castling_text(st.castling) + seq![' '] + ep_text(st.ep) + seq![' '] + ep_player_text(
        st.ep_player,
    )
}

fn push_rank(out: &mut Vec<char>, b: &Board, rank: u8)
    requires
        b.wf(),
        rank < 14,
    ensures
        final(out)@ == old(out)@ + rank_text_from(b@.squares, rank as int, 0, 0),
{
    let mut file: u8 = 0;
    let mut empty: u8 = 0;
    let ghost start = out@;
    while file < 14
        invariant
            b.wf(),
            rank < 14,
            file <= 14,
            empty <= file,
            start + rank_text_from(b@.squares, rank as int, 0, 0) == out@ + rank_text_from(
                b@.squares,
                rank as int,
                file as int,
                empty as int,
            ),
        decreases 14 - file,
    {
        let ghost e0 = empty as int;
        let ghost o0 = out@;
        proof {
            b.lemma_wf();
        }
        if !crate::types::is_valid_square(rank, file) {
            if empty > 0 {
                push_dec(out, empty as u64);
                empty = 0;
            }
            out.push('x');
        } else {
            match b.piece_at(Square(rank * 14 + file)) {
                Some(piece) => {
                    if empty > 0 {
                        push_dec(out, empty as u64);
                        empty = 0;
                    }
                    out.push(piece.player.char());
                    out.push(piece.piece_type.char());
                },
                None => {
                    empty += 1;
                },
            }
        }
        proof {
            assert(o0 + rank_text_from(b@.squares, rank as int, file as int, e0) =~= out@
                + rank_text_from(b@.squares, rank as int, file + 1, empty as int));
        }
        file += 1;
    }
    if empty > 0 {
        push_dec(out, empty as u64);
    }
    proof {
        assert(out@ =~= start + rank_text_from(b@.squares, rank as int, 0, 0));
    }
}

fn castle_letter_exec(b: u8) -> (c: char)
    requires
        b < 8,
    ensures
        c == castle_letter(b as int),
{
    if b == 0 {
        'R'
    } else if b == 1 {
        'r'
    } else if b == 2 {
        'B'
    } else if b == 3 {
        'b'
    } else if b == 4 {
        'Y'
    } else if b == 5 {
        'y'
    } else if b == 6 {
        'G'
    } else {
        'g'
    }
}

impl Board {
    /// Serialise the board to FEN4 text.
    pub fn to_fen4(&self) -> (s: String)
        requires
            self.wf(),
        ensures
            s@ == fen_text(self@),
    {
        let ghost sqs = self@.squares;
        let mut out: Vec<char> = Vec::new();
        let mut k: u8 = 0;
        while k < 14
            invariant
                self.wf(),
                sqs == self@.squares,
                k <= 14,
                k < 14 ==> out@ + ranks_text(sqs, k as int) == ranks_text(sqs, 0),
                k == 14 ==> out@ == ranks_text(sqs, 0),
            decreases 14 - k,
        {
            let ghost o0 = out@;
            push_rank(&mut out, self, 13 - k);
            if k < 13 {
                out.push('/');
                proof {
                    assert(o0 + ranks_text(sqs, k as int) =~= out@ + ranks_text(sqs, k + 1));
                }
            } else {
                proof {
                    assert(o0 + ranks_text(sqs, k as int) =~= out@);
                }
            }
            k += 1;
        }
        out.push(' ');
        out.push(self.side_to_move().char());
        out.push(' ');
        let rights = self.castling_rights();
        if rights == 0 {
            out.push('-');
        } else {
            let ghost o1 = out@;
            let mut bit: u8 = 0;
            while bit < 8
                invariant
                    bit <= 8,
                    out@ == o1 + castling_letters_of(rights, bit as int),
                decreases 8 - bit,
            {
                if rights & (1u8 << bit) != 0 {
                    out.push(castle_letter_exec(bit));
                }
                proof {
                    assert(out@ =~= o1 + castling_letters_of(rights, bit + 1));
                }
                bit += 1;
            }
        }
        out.push(' ');
        proof {
            self.lemma_wf();
        }
        match self.en_passant() {
            Some(sq) => {
                let v = crate::types::square_notation_chars(sq);
                push_chars(&mut out, &v);
            },
            None => {
                out.push('-');
            },
        }
        out.push(' ');
        match self.en_passant_pushing_player() {
            Some(p) => {
                out.push(p.char());
            },
            None => {
                out.push('-');
            },
        }
        proof {
            assert(out@ =~= fen_text(self@));
        }
        chars_to_string(&out)
    }
}

// ─── Reading back what was written ──────────────────────────────────────────

/// The pieces of rank `rank` on files below `f`, in file order.
pub open spec fn rank_pieces(sqs: Seq<Option<Piece>>, rank: int, f: int) -> Seq<(int, Piece)>
    decreases f,
{
    if f <= 0 {
        Seq::empty()
    } else {
        rank_pieces(sqs, rank, f - 1) + if valid_rf(rank, f - 1) && sqs[cell(rank, f - 1)] is Some {
            seq![(cell(rank, f - 1), sqs[cell(rank, f - 1)]->0)]
        } else {
            Seq::empty()
        }
    }
}

/// The number of empty playable squares from file `f` on.
pub open spec fn run_len(sqs: Seq<Option<Piece>>, rank: int, f: int) -> int
    decreases 14 - f,
{
    if 0 <= f < 14 && valid_rf(rank, f) && sqs[cell(rank, f)] is None {
        1 + run_len(sqs, rank, f + 1)
    } else {
        0
    }
}

proof fn lemma_run(sqs: Seq<Option<Piece>>, rank: int, f: int, e: int)
    requires
        0 <= f <= 14,
        e >= 0,
    ensures
        0 <= run_len(sqs, rank, f) <= 14 - f,
        rank_text_from(sqs, rank, f, e) == rank_text_from(
            sqs,
            rank,
            f + run_len(sqs, rank, f),
            e + run_len(sqs, rank, f),
        ),
        rank_pieces(sqs, rank, f + run_len(sqs, rank, f)) == rank_pieces(sqs, rank, f),
        f + run_len(sqs, rank, f) < 14 ==> !(valid_rf(rank, f + run_len(sqs, rank, f)) && sqs[cell(
            rank,
            f + run_len(sqs, rank, f),
        )] is None),
    decreases 14 - f,
{
    if 0 <= f < 14 && valid_rf(rank, f) && sqs[cell(rank, f)] is None {
        lemma_run(sqs, rank, f + 1, e + 1);
        assert(rank_pieces(sqs, rank, f + 1) =~= rank_pieces(sqs, rank, f));
    }
}

proof fn lemma_digit_value(d: int)
    requires
        0 <= d < 10,
    ensures
        is_digit(crate::types::digit_char(d)),
        digit_value(crate::types::digit_char(d)) == d,
{
}

proof fn lemma_digit_run_dec(cs: Seq<char>, i: int, m: int)
    requires
        1 <= m <= 14,
        0 <= i,
        i + dec(m as nat).len() <= cs.len(),
        cs.subrange(i, i + dec(m as nat).len()) == dec(m as nat),
        i + dec(m as nat).len() < cs.len() ==> !is_digit(cs[i + dec(m as nat).len()]),
    ensures
        digit_run(cs, i, 0) == (m, i + dec(m as nat).len()),
{
    let d = dec(m as nat);
    if m < 10 {
        lemma_digit_value(m);
        assert(cs[i] == d[0]);
        assert(digit_run(cs, i + 1, m) == (m, i + 1));
    } else {
        lemma_digit_value(1);
        lemma_digit_value(m % 10);
        assert((m as nat) / 10 == 1);
        assert(dec(1nat) == seq![crate::types::digit_char(1)]);
        assert(d =~= seq![crate::types::digit_char(1), crate::types::digit_char(m % 10)]);
        assert(cs[i] == d[0]);
        assert(cs[i + 1] == d[1]);
        assert(digit_run(cs, i + 2, m) == (m, i + 2));
        assert(digit_run(cs, i + 1, 1) == (m, i + 2));
    }
}

proof fn lemma_skip(cs: Seq<char>, i: int, a: Seq<char>, b: Seq<char>)
    requires
        0 <= i <= cs.len(),
        cs.subrange(i, cs.len() as int) == a + b,
    ensures
        i + a.len() <= cs.len(),
        cs.subrange(i + a.len(), cs.len() as int) == b,
        forall|j: int| 0 <= j < a.len() ==> cs[i + j] == #[trigger] a[j],
        b.len() > 0 ==> cs[i + a.len()] == b[0],
{
    let t = cs.subrange(i, cs.len() as int);
    assert(t.len() == cs.len() - i);
    assert(t.len() == a.len() + b.len());
    assert forall|j: int| 0 <= j < a.len() implies cs[i + j] == #[trigger] a[j] by {
        assert(t[j] == cs[i + j]);
        assert(t[j] == (a + b)[j]);
    }
    assert forall|j: int| 0 <= j < b.len() implies #[trigger] cs.subrange(
        i + a.len(),
        cs.len() as int,
    )[j] == b[j] by {
        assert(t[a.len() + j] == cs[i + a.len() + j]);
        assert(t[a.len() + j] == (a + b)[a.len() + j]);
    }
    assert(cs.subrange(i + a.len(), cs.len() as int) =~= b);
}

/// Reading a written rank gives back its pieces and ends at the last file.
proof fn lemma_rank_read_back(sqs: Seq<Option<Piece>>, rank: int, cs: Seq<char>, i: int, f: int)
    requires
        0 <= rank < 14,
        0 <= f <= 14,
        0 <= i <= cs.len(),
        cs.subrange(i, cs.len() as int) == rank_text_from(sqs, rank, f, 0),
    ensures
        rank_parse(cs, rank, i, f) matches RankParse::Done(p, ff) && ff == 14 && rank_pieces(
            sqs,
            rank,
            f,
        ) + p == rank_pieces(sqs, rank, 14),
    decreases 14 - f,
{
    if f == 14 {
        assert(cs.subrange(i, cs.len() as int).len() == 0);
        assert(rank_pieces(sqs, rank, 14) + Seq::<(int, Piece)>::empty() =~= rank_pieces(
            sqs,
            rank,
            14,
        ));
    } else if !valid_rf(rank, f) {
        let rest = rank_text_from(sqs, rank, f + 1, 0);
        assert(rank_text_from(sqs, rank, f, 0) =~= seq!['x'] + rest);
        lemma_skip(cs, i, seq!['x'], rest);
        assert(cs[i + 0] == seq!['x'][0]);
        lemma_rank_read_back(sqs, rank, cs, i + 1, f + 1);
        assert(rank_pieces(sqs, rank, f + 1) =~= rank_pieces(sqs, rank, f));
    } else if sqs[cell(rank, f)] is Some {
        lemma_rank_piece(sqs, rank, cs, i, f);
    } else {
        lemma_rank_run(sqs, rank, cs, i, f);
    }
}

proof fn lemma_rank_piece(sqs: Seq<Option<Piece>>, rank: int, cs: Seq<char>, i: int, f: int)
    requires
        0 <= rank < 14,
        0 <= f < 14,
        valid_rf(rank, f),
        sqs[cell(rank, f)] is Some,
        0 <= i <= cs.len(),
        cs.subrange(i, cs.len() as int) == rank_text_from(sqs, rank, f, 0),
    ensures
        rank_parse(cs, rank, i, f) matches RankParse::Done(p, ff) && ff == 14 && rank_pieces(
            sqs,
            rank,
            f,
        ) + p == rank_pieces(sqs, rank, 14),
    decreases 14 - f, 0int,
{
    let pc = sqs[cell(rank, f)]->0;
    crate::types::lemma_player_cycle(pc.player);
    crate::types::lemma_piece_type_roundtrip(pc.piece_type);
    let rest = rank_text_from(sqs, rank, f + 1, 0);
    let a = seq![crate::types::player_char(pc.player), crate::types::piece_type_char(pc.piece_type)];
    assert(rank_text_from(sqs, rank, f, 0) =~= a + rest);
    lemma_skip(cs, i, a, rest);
    assert(cs[i + 0] == a[0]);
    assert(cs[i + 1] == a[1]);
    lemma_rank_read_back(sqs, rank, cs, i + 2, f + 1);
    let p1 = rank_parse(cs, rank, i + 2, f + 1)->Done_0;
    assert(rank_pieces(sqs, rank, f + 1) =~= rank_pieces(sqs, rank, f) + seq![(cell(rank, f), pc)]);
    assert(rank_pieces(sqs, rank, f) + (seq![(cell(rank, f), pc)] + p1) =~= rank_pieces(
        sqs,
        rank,
        f + 1,
    ) + p1);
    assert(Piece { piece_type: pc.piece_type, player: pc.player } == pc);
}

proof fn lemma_rank_run(sqs: Seq<Option<Piece>>, rank: int, cs: Seq<char>, i: int, f: int)
    requires
        0 <= rank < 14,
        0 <= f < 14,
        valid_rf(rank, f),
        sqs[cell(rank, f)] is None,
        0 <= i <= cs.len(),
        cs.subrange(i, cs.len() as int) == rank_text_from(sqs, rank, f, 0),
    ensures
        rank_parse(cs, rank, i, f) matches RankParse::Done(p, ff) && ff == 14 && rank_pieces(
            sqs,
            rank,
            f,
        ) + p == rank_pieces(sqs, rank, 14),
    decreases 14 - f, 0int,
{
    lemma_run(sqs, rank, f, 0);
    let m = run_len(sqs, rank, f);
    let f2 = f + m;
    let rest = rank_text_from(sqs, rank, f2, 0);
    let d = dec(m as nat);
    assert(rank_text_from(sqs, rank, f2, m) =~= d + rest);
    crate::text::lemma_dec_digits(m as nat);
    lemma_skip(cs, i, d, rest);
    assert(cs.subrange(i, i + d.len()) =~= d) by {
        assert forall|j: int| 0 <= j < d.len() implies #[trigger] cs.subrange(i, i + d.len())[j]
            == d[j] by {
            assert(cs[i + j] == d[j]);
        }
    }
    if rest.len() > 0 {
        if !valid_rf(rank, f2) {
            assert(rest[0] == 'x');
        } else {
            let q = sqs[cell(rank, f2)]->0;
            assert(rest[0] == crate::types::player_char(q.player));
        }
    }
    lemma_digit_run_dec(cs, i, m);
    assert(is_digit(cs[i])) by {
        assert(cs[i + 0] == d[0]);
    }
    lemma_rank_read_back(sqs, rank, cs, i + d.len(), f2);
}

/// A character that can appear in the text of a rank.
pub open spec fn rank_char(c: char) -> bool {
    is_digit(c) || c == 'x' || ('a' <= c <= 'z') || ('A' <= c <= 'Z')
}

proof fn lemma_flush_chars(e: int)
    ensures
        forall|j: int| 0 <= j < flush(e).len() ==> rank_char(#[trigger] flush(e)[j]),
{
    if e > 0 {
        crate::text::lemma_dec_digits(e as nat);
    }
}

proof fn lemma_rank_text_chars(sqs: Seq<Option<Piece>>, rank: int, f: int, e: int)
    ensures
        forall|j: int|
            0 <= j < rank_text_from(sqs, rank, f, e).len() ==> rank_char(
                #[trigger] rank_text_from(sqs, rank, f, e)[j],
            ),
    decreases 14 - f,
{
    lemma_flush_chars(e);
    let t = rank_text_from(sqs, rank, f, e);
    if f >= 14 {
    } else if !valid_rf(rank, f) {
        lemma_rank_text_chars(sqs, rank, f + 1, 0);
        let a = flush(e) + seq!['x'];
        let b = rank_text_from(sqs, rank, f + 1, 0);
        assert forall|j: int| 0 <= j < t.len() implies rank_char(#[trigger] t[j]) by {
            assert(t == a + b);
            if j < flush(e).len() {
                assert(t[j] == flush(e)[j]);
            } else if j == flush(e).len() {
                assert(t[j] == 'x');
            } else {
                assert(t[j] == b[j - a.len()]);
            }
        }
    } else {
        match sqs[cell(rank, f)] {
            Some(pc) => {
                lemma_rank_text_chars(sqs, rank, f + 1, 0);
                let m = seq![
                    crate::types::player_char(pc.player),
                    crate::types::piece_type_char(pc.piece_type),
                ];
                let a = flush(e) + m;
                let b = rank_text_from(sqs, rank, f + 1, 0);
                assert forall|j: int| 0 <= j < t.len() implies rank_char(#[trigger] t[j]) by {
                    assert(t == a + b);
                    if j < flush(e).len() {
                        assert(t[j] == flush(e)[j]);
                    } else if j < a.len() {
                        assert(t[j] == m[j - flush(e).len()]);
                    } else {
                        assert(t[j] == b[j - a.len()]);
                    }
                }
            },
            None => {
                lemma_rank_text_chars(sqs, rank, f + 1, e + 1);
                assert(t == rank_text_from(sqs, rank, f + 1, e + 1));
            },
        }
    }
}

/// The rank texts from the `k`-th from the top down.
pub open spec fn rank_texts(sqs: Seq<Option<Piece>>, k: int) -> Seq<Seq<char>>
    decreases 14 - k,
{
    if k >= 13 {
        seq![rank_text_from(sqs, 13 - k, 0, 0)]
    } else {
        seq![rank_text_from(sqs, 13 - k, 0, 0)] + rank_texts(sqs, k + 1)
    }
}

proof fn lemma_no_slash(sqs: Seq<Option<Piece>>, rank: int)
    ensures
        !rank_text_from(sqs, rank, 0, 0).contains('/'),
        crate::text::no_ws(rank_text_from(sqs, rank, 0, 0)),
{
    lemma_rank_text_chars(sqs, rank, 0, 0);
    let t = rank_text_from(sqs, rank, 0, 0);
    if t.contains('/') {
        let j = choose|j: int| 0 <= j < t.len() && t[j] == '/';
        assert(rank_char(t[j]));
    }
    assert forall|j: int| 0 <= j < t.len() implies !crate::types::is_ws(#[trigger] t[j]) by {
        assert(rank_char(t[j]));
    }
}

proof fn lemma_split_ranks(sqs: Seq<Option<Piece>>, k: int)
    requires
        0 <= k <= 13,
    ensures
        split_on(ranks_text(sqs, k), '/') == rank_texts(sqs, k),
        rank_texts(sqs, k).len() == 14 - k,
        forall|j: int| 0 <= j < 14 - k ==> #[trigger] rank_texts(sqs, k)[j] == rank_text_from(
            sqs,
            13 - (k + j),
            0,
            0,
        ),
    decreases 13 - k,
{
    lemma_no_slash(sqs, 13 - k);
    let y = rank_text_from(sqs, 13 - k, 0, 0);
    if k == 13 {
        crate::text::lemma_split_single(y, '/');
    } else {
        lemma_split_ranks(sqs, k + 1);
        crate::text::lemma_split_cons(y, ranks_text(sqs, k + 1), '/');
        assert forall|j: int| 0 <= j < 14 - k implies #[trigger] rank_texts(sqs, k)[j]
            == rank_text_from(sqs, 13 - (k + j), 0, 0) by {
            if j > 0 {
                assert(rank_texts(sqs, k)[j] == rank_texts(sqs, k + 1)[j - 1]);
            }
        }
    }
}

/// The pieces of the first `k` ranks from the top, rank by rank.
pub open spec fn board_pieces(sqs: Seq<Option<Piece>>, k: int) -> Seq<(int, Piece)>
    decreases k,
{
    if k <= 0 {
        Seq::empty()
    } else {
        board_pieces(sqs, k - 1) + rank_pieces(sqs, 13 - (k - 1), 14)
    }
}

proof fn lemma_ranks_read_back(sqs: Seq<Option<Piece>>, rs: Seq<Seq<char>>, k: int)
    requires
        0 <= k <= 14,
        rs.len() == 14,
        forall|j: int| 0 <= j < 14 ==> #[trigger] rs[j] == rank_text_from(sqs, 13 - j, 0, 0),
    ensures
        ranks_parse(rs, k) matches Ok(p) && board_pieces(sqs, k) + p == board_pieces(sqs, 14),
    decreases 14 - k,
{
    if k == 14 {
        assert(board_pieces(sqs, 14) + Seq::<(int, Piece)>::empty() =~= board_pieces(sqs, 14));
    } else {
        let cs = rs[k];
        assert(cs.subrange(0, cs.len() as int) =~= cs);
        lemma_rank_read_back(sqs, 13 - k, cs, 0, 0);
        let p = rank_parse(cs, 13 - k, 0, 0)->Done_0;
        assert(rank_pieces(sqs, 13 - k, 0) + p =~= p);
        lemma_ranks_read_back(sqs, rs, k + 1);
        let q = ranks_parse(rs, k + 1)->Ok_0;
        assert(board_pieces(sqs, k) + (p + q) =~= board_pieces(sqs, k + 1) + q);
    }
}

/// The squares scanned so far (ranks above `13 - k` and files below `f` of
/// rank `13 - k`), the others empty.
pub open spec fn masked(sqs: Seq<Option<Piece>>, k: int, f: int) -> Seq<Option<Piece>> {
    Seq::new(
        196,
        |c: int|
            if c / 14 > 13 - k || (c / 14 == 13 - k && c % 14 < f) {
                sqs[c]
            } else {
                None
            },
    )
}

proof fn lemma_placed_scan(sqs: Seq<Option<Piece>>, k: int, f: int)
    requires
        0 <= k < 14,
        0 <= f <= 14,
        sqs.len() == 196,
        forall|c: int| 0 <= c < 196 && (#[trigger] sqs[c]) is Some ==> valid_index(c),
    ensures
        placed_squares(board_pieces(sqs, k) + rank_pieces(sqs, 13 - k, f)) == masked(sqs, k, f),
    decreases k, f,
{
    let r = 13 - k;
    if f == 0 {
        assert(board_pieces(sqs, k) + rank_pieces(sqs, r, 0) =~= board_pieces(sqs, k));
        if k == 0 {
            assert(placed_squares(Seq::<(int, Piece)>::empty()) =~= masked(sqs, 0, 0));
        } else {
            lemma_placed_scan(sqs, k - 1, 14);
            assert(masked(sqs, k - 1, 14) =~= masked(sqs, k, 0));
        }
    } else {
        lemma_placed_scan(sqs, k, f - 1);
        let l = board_pieces(sqs, k) + rank_pieces(sqs, r, f - 1);
        let c0 = cell(r, f - 1);
        assert(c0 / 14 == r && c0 % 14 == f - 1);
        if valid_rf(r, f - 1) && sqs[c0] is Some {
            let x = (c0, sqs[c0]->0);
            assert(board_pieces(sqs, k) + rank_pieces(sqs, r, f) =~= l.push(x));
            assert(l.push(x).drop_last() =~= l);
            assert(masked(sqs, k, f - 1).update(c0, Some(sqs[c0]->0)) =~= masked(sqs, k, f));
        } else {
            assert(board_pieces(sqs, k) + rank_pieces(sqs, r, f) =~= l);
            if valid_rf(r, f - 1) {
                assert(sqs[c0] is None);
            } else {
                assert(!valid_index(c0));
            }
            assert(masked(sqs, k, f - 1) =~= masked(sqs, k, f));
        }
    }
}

/// Placing every piece of the written ranks on an empty board gives back
/// the squares.
proof fn lemma_placed_all(sqs: Seq<Option<Piece>>)
    requires
        sqs.len() == 196,
        forall|c: int| 0 <= c < 196 && (#[trigger] sqs[c]) is Some ==> valid_index(c),
    ensures
        placed_squares(board_pieces(sqs, 14)) == sqs,
{
    lemma_placed_scan(sqs, 13, 14);
    assert(board_pieces(sqs, 13) + rank_pieces(sqs, 0, 14) =~= board_pieces(sqs, 14));
    assert(masked(sqs, 13, 14) =~= sqs);
}

/// The set bits of `c` among the first `n`.
pub open spec fn bits_upto(c: u8, n: int) -> u8
    decreases n,
{
    if n <= 0 {
        0u8
    } else {
        bits_upto(c, n - 1) | (if c & (1u8 << ((n - 1) as u8)) != 0 {
            1u8 << ((n - 1) as u8)
        } else {
            0u8
        })
    }
}

proof fn lemma_castling_letters_back(c: u8, n: int)
    requires
        0 <= n <= 8,
    ensures
        castling_letters(castling_letters_of(c, n)) == Ok::<u8, FenFault>(bits_upto(c, n)),
        forall|j: int|
            0 <= j < castling_letters_of(c, n).len() ==> castle_letter_bit(
                #[trigger] castling_letters_of(c, n)[j],
            ) >= 0,
    decreases n,
{
    if n > 0 {
        lemma_castling_letters_back(c, n - 1);
        let l = castling_letters_of(c, n - 1);
        if c & (1u8 << ((n - 1) as u8)) != 0 {
            let ch = castle_letter(n - 1);
            assert(castling_letters_of(c, n) =~= l.push(ch));
            assert(l.push(ch).drop_last() =~= l);
            assert(castle_letter_bit(ch) == n - 1);
            assert forall|j: int|
                0 <= j < castling_letters_of(c, n).len() implies castle_letter_bit(
                #[trigger] castling_letters_of(c, n)[j],
            ) >= 0 by {
                if j < l.len() {
                    assert(castling_letters_of(c, n)[j] == l[j]);
                }
            }
        } else {
            assert(castling_letters_of(c, n) =~= l);
            assert(bits_upto(c, n) == bits_upto(c, n - 1) | 0u8);
            let b = bits_upto(c, n - 1);
            assert(b | 0u8 == b) by (bit_vector);
        }
    }
}

proof fn lemma_castling_read_back(c: u8)
    ensures
        castling_parse(castling_text(c)) == Ok::<u8, FenFault>(c),
{
    if c != 0 {
        lemma_castling_letters_back(c, 8);
        let t = castling_letters_of(c, 8);
        if t == seq!['-'] {
            assert(castle_letter_bit(t[0]) >= 0);
        }
        reveal_with_fuel(bits_upto, 9);
        let b0 = if c & (1u8 << 0u8) != 0 { 1u8 << 0u8 } else { 0u8 };
        let b1 = if c & (1u8 << 1u8) != 0 { 1u8 << 1u8 } else { 0u8 };
        let b2 = if c & (1u8 << 2u8) != 0 { 1u8 << 2u8 } else { 0u8 };
        let b3 = if c & (1u8 << 3u8) != 0 { 1u8 << 3u8 } else { 0u8 };
        let b4 = if c & (1u8 << 4u8) != 0 { 1u8 << 4u8 } else { 0u8 };
        let b5 = if c & (1u8 << 5u8) != 0 { 1u8 << 5u8 } else { 0u8 };
        let b6 = if c & (1u8 << 6u8) != 0 { 1u8 << 6u8 } else { 0u8 };
        let b7 = if c & (1u8 << 7u8) != 0 { 1u8 << 7u8 } else { 0u8 };
        assert(bits_upto(c, 8) == (((((((0u8 | b0) | b1) | b2) | b3) | b4) | b5) | b6) | b7);
        assert((((((((0u8 | (if c & (1u8 << 0u8) != 0 { 1u8 << 0u8 } else { 0u8 })) | (if c & (1u8
            << 1u8) != 0 { 1u8 << 1u8 } else { 0u8 })) | (if c & (1u8 << 2u8) != 0 { 1u8 << 2u8 } else { 0u8 }))
            | (if c & (1u8 << 3u8) != 0 { 1u8 << 3u8 } else { 0u8 })) | (if c & (1u8 << 4u8) != 0 { 1u8 << 4u8 } else { 0u8 }))
            | (if c & (1u8 << 5u8) != 0 { 1u8 << 5u8 } else { 0u8 })) | (if c & (1u8 << 6u8) != 0 { 1u8 << 6u8 } else { 0u8 }))
            | (if c & (1u8 << 7u8) != 0 { 1u8 << 7u8 } else { 0u8 }) == c) by (bit_vector);
    }
}

/// Reading back the notation of a playable square gives the square:
/// `Square::from_notation(&sq.to_notation()) == Some(sq)`.
pub proof fn lemma_square_notation_roundtrip(sq: Square)
    requires
        sq.0 < 196,
        valid_index(sq.0 as int),
    ensures
        crate::types::spec_square_from_notation(crate::types::trim_ws(crate::types::square_notation(sq)))
            == Some(sq),
{
    let t = crate::types::square_notation(sq);
    let r = sq.rank_of();
    let f = sq.file_of();
    let d = crate::types::small_number_chars(r + 1);
    assert(t == seq![crate::types::file_char(f)] + d);
    assert(t[0] == crate::types::file_char(f));
    lemma_digit_value((r + 1) % 10);
    lemma_digit_value((r + 1) / 10);
    assert(t.subrange(1, t.len() as int) =~= d);
    assert(crate::types::trim_start_ws(t) == t);
    assert(!crate::types::is_ws(t.last())) by {
        assert(t.last() == d.last());
    }
    assert(crate::types::trim_end_ws(t) == t);
    assert(crate::types::spec_parse_small(d) == Some(r + 1));
    assert(((r + 1 - 1) * 14 + (t[0] as int - 97)) == sq.0);
}

proof fn lemma_notation_read_back(sq: Square)
    requires
        sq.0 < 196,
        valid_index(sq.0 as int),
    ensures
        ep_parse(ep_text(Some(sq))) == Ok::<Option<Square>, FenFault>(Some(sq)),
        crate::text::no_ws(ep_text(Some(sq))),
        ep_text(Some(sq)).len() > 0,
{
    let t = crate::types::square_notation(sq);
    let r = sq.rank_of();
    let f = sq.file_of();
    let d = crate::types::small_number_chars(r + 1);
    assert(t == seq![crate::types::file_char(f)] + d);
    assert(t[0] == crate::types::file_char(f));
    assert('a' <= t[0] <= 'n');
    assert(t != seq!['-']);
    lemma_digit_value((r + 1) % 10);
    lemma_digit_value((r + 1) / 10);
    assert(t.subrange(1, t.len() as int) =~= d);
    assert(crate::types::trim_start_ws(t) == t);
    assert(!crate::types::is_ws(t.last())) by {
        assert(t.last() == d.last());
    }
    assert(crate::types::trim_end_ws(t) == t);
    assert(crate::types::spec_parse_small(d) == Some(r + 1));
    assert(((r + 1 - 1) * 14 + (t[0] as int - 97)) == sq.0);
    assert forall|j: int| 0 <= j < t.len() implies !crate::types::is_ws(#[trigger] t[j]) by {
        if j > 0 {
            assert(t[j] == d[j - 1]);
        }
    }
}

/// The words of the written text are its five fields.
proof fn lemma_fen_words(a: Seq<char>, b: Seq<char>, c: Seq<char>, d: Seq<char>, e: Seq<char>)
    requires
        a.len() > 0 && crate::text::no_ws(a),
        b.len() > 0 && crate::text::no_ws(b),
        c.len() > 0 && crate::text::no_ws(c),
        d.len() > 0 && crate::text::no_ws(d),
        e.len() > 0 && crate::text::no_ws(e),
    ensures
        words(a + seq![' '] + b + seq![' '] + c + seq![' '] + d + seq![' '] + e) == seq![a, b, c, d, e],
{
    let sp = seq![' '];
    assert(crate::types::is_ws(' '));
    crate::text::lemma_words_append(Seq::empty(), a);
    assert(Seq::<char>::empty() + a =~= a);
    let s1 = a + sp;
    assert(s1 =~= a.push(' '));
    crate::text::lemma_words_ws(a, ' ');
    crate::text::lemma_words_append(s1, b);
    let s2 = s1 + b + sp;
    assert(s2 =~= (s1 + b).push(' '));
    crate::text::lemma_words_ws(s1 + b, ' ');
    crate::text::lemma_words_append(s2, c);
    let s3 = s2 + c + sp;
    assert(s3 =~= (s2 + c).push(' '));
    crate::text::lemma_words_ws(s2 + c, ' ');
    crate::text::lemma_words_append(s3, d);
    let s4 = s3 + d + sp;
    assert(s4 =~= (s3 + d).push(' '));
    crate::text::lemma_words_ws(s3 + d, ' ');
    crate::text::lemma_words_append(s4, e);
    assert(seq![a].push(b).push(c).push(d).push(e) =~= seq![a, b, c, d, e]);
}

proof fn lemma_ranks_text_chars(sqs: Seq<Option<Piece>>, k: int)
    requires
        0 <= k <= 13,
    ensures
        ranks_text(sqs, k).len() > 0 || k == 13,
        crate::text::no_ws(ranks_text(sqs, k)),
    decreases 13 - k,
{
    lemma_no_slash(sqs, 13 - k);
    if k < 13 {
        lemma_ranks_text_chars(sqs, k + 1);
        let y = rank_text_from(sqs, 13 - k, 0, 0);
        let z = ranks_text(sqs, k + 1);
        let t = ranks_text(sqs, k);
        assert(t == y + seq!['/'] + z);
        assert forall|j: int| 0 <= j < t.len() implies !crate::types::is_ws(#[trigger] t[j]) by {
            if j < y.len() {
                assert(t[j] == y[j]);
            } else if j == y.len() {
                assert(t[j] == '/');
            } else {
                assert(t[j] == z[j - y.len() - 1]);
            }
        }
    }
}

/// Reading back the FEN4 text of a position gives the position: its
/// squares, side to move, castling rights and en passant state.
pub proof fn lemma_fen4_roundtrip(st: BoardState)
    requires
        crate::makemove::shape_ok(st),
    ensures
        parse_fen(fen_text(st)) matches Ok(fp) && placed_squares(fp.placements) == st.squares
            && fp.stm == st.stm && fp.castling == st.castling && fp.ep == st.ep && fp.ep_player
            == st.ep_player,
{
    let sqs = st.squares;
    let r = ranks_text(sqs, 0);
    let sd = seq![crate::types::player_char(st.stm)];
    let c = castling_text(st.castling);
    let e = ep_text(st.ep);
    let pp = ep_player_text(st.ep_player);
    lemma_ranks_text_chars(sqs, 0);
    assert(r.len() > 0) by {
        let y = rank_text_from(sqs, 13, 0, 0);
        assert(r == y + seq!['/'] + ranks_text(sqs, 1));
    }
    assert(crate::text::no_ws(sd) && sd.len() > 0) by {
        assert(sd[0] == crate::types::player_char(st.stm));
    }
    lemma_castling_read_back(st.castling);
    assert(crate::text::no_ws(c) && c.len() > 0) by {
        if st.castling != 0 {
            lemma_castling_letters_back(st.castling, 8);
            assert forall|j: int| 0 <= j < c.len() implies !crate::types::is_ws(#[trigger] c[j]) by {
                assert(castle_letter_bit(c[j]) >= 0);
            }
            if c.len() == 0 {
                assert(castling_letters(c) == Ok::<u8, FenFault>(0u8));
            }
        } else {
            assert(c[0] == '-');
        }
    }
    match st.ep {
        Some(sq) => {
            lemma_notation_read_back(sq);
        },
        None => {
            assert(e[0] == '-');
        },
    }
    assert(crate::text::no_ws(pp) && pp.len() > 0) by {
        assert(pp[0] == '-' || pp[0] == crate::types::player_char(st.ep_player->0));
    }
    lemma_fen_words(r, sd, c, e, pp);
    assert(fen_text(st) == r + seq![' '] + sd + seq![' '] + c + seq![' '] + e + seq![' '] + pp);
    let parts = words(fen_text(st));
    lemma_split_ranks(sqs, 0);
    let rs = split_on(parts[0], '/');
    assert forall|j: int| 0 <= j < 14 implies #[trigger] rs[j] == rank_text_from(sqs, 13 - j, 0, 0) by {
        assert(rank_texts(sqs, 0)[j] == rank_text_from(sqs, 13 - (0 + j), 0, 0));
    }
    lemma_ranks_read_back(sqs, rs, 0);
    assert(board_pieces(sqs, 0) + ranks_parse(rs, 0)->Ok_0 =~= ranks_parse(rs, 0)->Ok_0);
    lemma_placed_all(sqs);
    crate::types::lemma_player_cycle(st.stm);
    assert(side_parse(sd) == Ok::<Player, FenFault>(st.stm));
    match st.ep_player {
        Some(q) => {
            crate::types::lemma_player_cycle(q);
            assert(pp != seq!['-']);
        },
        None => {},
    }
}

/// The board parsed back from a board's FEN4 text holds the same position
/// (what board equality compares), whatever hash it stores.
pub proof fn lemma_fen4_same_position(st: BoardState, z: u64)
    requires
        crate::makemove::shape_ok(st),
    ensures
        parse_fen(fen_text(st)) matches Ok(fp) && crate::board::same_position(
            fen_state(fp, z),
            st,
        ),
{
    lemma_fen4_roundtrip(st);
}

} // verus!
