//! Core types for four-player chess: squares, players, piece types and pieces.
//!
//! The board is a 14x14 grid indexed `rank * 14 + file`; the four 3x3 corners
//! are not part of the board, which leaves 160 playable squares.

use vstd::prelude::*;

verus! {

// ─── Board constants ────────────────────────────────────────────────────────

/// Board dimension (14x14 grid).
pub const BOARD_SIZE: usize = 14;

/// Total squares in the grid (14 * 14).
pub const TOTAL_SQUARES: usize = 196;

/// Number of valid (playable) squares.
pub const VALID_SQUARES: usize = 160;

/// Number of invalid corner squares (4 corners of 3x3).
pub const INVALID_CORNER_COUNT: usize = 36;

/// Size of each invalid corner (3x3).
pub const CORNER_SIZE: usize = 3;

/// Number of players.
pub const PLAYERS: usize = 4;

/// Starting pieces per player.
pub const PIECES_PER_PLAYER: usize = 16;

/// Maximum pieces per player (including all possible promotions).
pub const MAX_PIECES_PER_PLAYER: usize = 32;

/// Sentinel value for a king square when the player is eliminated.
pub const ELIMINATED_KING_SENTINEL: u8 = 255;

/// Number of castling rights bits (2 per player * 4 players).
pub const CASTLING_RIGHTS_BITS: usize = 8;

// ─── Square validity ────────────────────────────────────────────────────────

/// A (rank, file) pair lies on the grid and outside the four 3x3 corners.
pub open spec fn valid_rf(rank: int, file: int) -> bool {
    &&& 0 <= rank < 14
    &&& 0 <= file < 14
    &&& !((rank > 10 || rank < 3) && (file > 10 || file < 3))
}

/// A raw square index denotes a playable square.
pub open spec fn valid_index(i: int) -> bool {
    0 <= i < 196 && valid_rf(i / 14, i % 14)
}

/// Check if a (rank, file) coordinate is a valid playable square.
///
/// Invalid squares are the four 3x3 corners.
pub fn is_valid_square(rank: u8, file: u8) -> (r: bool)
    ensures
        r == valid_rf(rank as int, file as int),
{
    if rank >= 14 || file >= 14 {
        return false;
    }
    let in_corner = (rank > 10 || rank < 3) && (file > 10 || file < 3);
    !in_corner
}

/// Whether a raw index (0..195) is a playable square.
pub fn is_valid_index(index: usize) -> (r: bool)
    ensures
        r == valid_index(index as int),
{
    if index >= 196 {
        return false;
    }
    is_valid_square((index / 14) as u8, (index % 14) as u8)
}

/// The table of square validity: entry `i` tells whether index `i` is playable.
pub fn valid_square_table() -> (t: Vec<bool>)
    ensures
        t@.len() == 196,
        forall|i: int| 0 <= i < 196 ==> t@[i] == valid_index(i),
{
    let mut t: Vec<bool> = Vec::new();
    let mut i: usize = 0;
    while i < 196
        invariant
            i <= 196,
            t@.len() == i,
            forall|j: int| 0 <= j < i ==> t@[j] == valid_index(j),
        decreases 196 - i,
    {
        t.push(is_valid_index(i));
        i += 1;
    }
    t
}

/// The playable indices below `n`, in increasing order.
pub open spec fn valid_indices_below(n: int) -> Seq<u8>
    decreases n,
{
    if n <= 0 {
        Seq::empty()
    } else if valid_index(n - 1) {
        valid_indices_below(n - 1).push((n - 1) as u8)
    } else {
        valid_indices_below(n - 1)
    }
}

proof fn lemma_valid_indices_below(n: int)
    requires
        0 <= n <= 196,
    ensures
        forall|k: int|
            0 <= k < valid_indices_below(n).len() ==> #[trigger] valid_index(
                valid_indices_below(n)[k] as int,
            ) && valid_indices_below(n)[k] < n,
        forall|i: int|
            0 <= i < n && valid_index(i) ==> valid_indices_below(n).contains(i as u8),
        forall|a: int, b: int|
            0 <= a < b < valid_indices_below(n).len() ==> valid_indices_below(n)[a]
                < valid_indices_below(n)[b],
    decreases n,
{
    if n > 0 {
        lemma_valid_indices_below(n - 1);
        let s = valid_indices_below(n - 1);
        if valid_index(n - 1) {
            assert(valid_indices_below(n) == s.push((n - 1) as u8));
            let t = valid_indices_below(n);
            assert forall|a: int, b: int| 0 <= a < b < t.len() implies t[a] < t[b] by {
                if b == s.len() {
                    assert(valid_index(s[a] as int));
                    assert(t[a] == s[a]);
                } else {
                    assert(t[a] == s[a] && t[b] == s[b]);
                }
            }
            assert forall|i: int| 0 <= i < n && valid_index(i) implies valid_indices_below(
                n,
            ).contains(i as u8) by {
                if i < n - 1 {
                    let k = choose|k: int| 0 <= k < s.len() && s[k] == i as u8;
                    assert(valid_indices_below(n)[k] == i as u8);
                } else {
                    assert(valid_indices_below(n)[s.len() as int] == i as u8);
                }
            }
        }
    }
}

/// All playable square indices, in increasing order.
pub fn valid_squares_list() -> (l: Vec<u8>)
    ensures
        l@ == valid_indices_below(196),
        forall|k: int| 0 <= k < l@.len() ==> #[trigger] valid_index(l@[k] as int),
        forall|i: int| 0 <= i < 196 && valid_index(i) ==> l@.contains(i as u8),
        forall|a: int, b: int| 0 <= a < b < l@.len() ==> l@[a] < l@[b],
{
    let mut l: Vec<u8> = Vec::new();
    let mut i: usize = 0;
    while i < 196
        invariant
            i <= 196,
            l@ == valid_indices_below(i as int),
        decreases 196 - i,
    {
        if is_valid_index(i) {
            l.push(i as u8);
        }
        i += 1;
    }
    proof {
        lemma_valid_indices_below(196);
    }
    l
}

// ─── Square ─────────────────────────────────────────────────────────────────

/// A square index on the 14x14 board (0..195), computed as `rank * 14 + file`.
/// Not all indices are playable: 36 corner squares are not.
#[derive(Clone, Copy, PartialEq, Eq, Hash, Debug, Structural)]
pub struct Square(pub u8);

impl Square {
    /// Rank of the square (0-indexed).
    pub open spec fn rank_of(self) -> int {
        self.0 as int / 14
    }

    /// File of the square (0-indexed).
    pub open spec fn file_of(self) -> int {
        self.0 as int % 14
    }

    /// The square is a playable one.
    pub open spec fn valid(self) -> bool {
        valid_index(self.0 as int)
    }

    /// Create a square from rank and file (both 0-indexed).
    /// Returns `None` if out of bounds or in an invalid corner.
    pub fn new(rank: u8, file: u8) -> (r: Option<Self>)
        ensures
            r is Some <==> valid_rf(rank as int, file as int),
            r matches Some(s) ==> s.0 == rank * 14 + file && s.rank_of() == rank
                && s.file_of() == file && s.valid(),
    {
        if is_valid_square(rank, file) {
            Some(Square(rank * 14 + file))
        } else {
            None
        }
    }

    /// Create a square from rank and file without a validity check.
    pub fn from_rank_file_unchecked(rank: u8, file: u8) -> (r: Self)
        requires
            valid_rf(rank as int, file as int),
        ensures
            r.0 == rank * 14 + file,
            r.rank_of() == rank,
            r.file_of() == file,
            r.valid(),
    {
        Square(rank * 14 + file)
    }

    /// Create a square from a raw index. `None` if out of range or in a corner.
    pub fn from_index(index: u8) -> (r: Option<Self>)
        ensures
            r is Some <==> valid_index(index as int),
            r matches Some(s) ==> s.0 == index,
    {
        if is_valid_index(index as usize) {
            Some(Square(index))
        } else {
            None
        }
    }

    /// Rank (0-indexed).
    pub fn rank(self) -> (r: u8)
        ensures
            r == self.rank_of(),
    {
        self.0 / 14
    }

    /// File (0-indexed).
    pub fn file(self) -> (r: u8)
        ensures
            r == self.file_of(),
    {
        self.0 % 14
    }

    /// Raw index.
    pub fn index(self) -> (r: u8)
        ensures
            r == self.0,
    {
        self.0
    }

    /// Whether this square index is playable.
    pub fn is_valid(self) -> (r: bool)
        ensures
            r == self.valid(),
    {
        is_valid_index(self.0 as usize)
    }

    /// File as a letter (a-n).
    pub fn display_file(self) -> (c: char)
        ensures
            c == file_char(self.file_of()),
    {
        (97u8 + self.file()) as char
    }

    /// Rank as a number (1-14).
    pub fn display_rank(self) -> (r: u8)
        ensures
            r == self.rank_of() + 1,
    {
        self.rank() + 1
    }

    /// Parse from display notation like "d1", "a7", "n11" (surrounding
    /// whitespace is ignored).
    pub fn from_notation(s: &str) -> (r: Option<Self>)
        ensures
            r == spec_square_from_notation(trim_ws(s@)),
    {
        let cs = crate::text::str_chars(s);
        let t = crate::text::trim(&cs);
        square_from_chars(&t)
    }

    /// Display notation, such as "d1" or "n11".
    pub fn to_notation(self) -> (s: String)
        ensures
            s@ == square_notation(self),
    {
        let v = square_notation_chars(self);
        crate::text::chars_to_string(&v)
    }
}

/// The letter of a file index (0 -> 'a').
pub open spec fn file_char(file: int) -> char {
    (97 + file) as char
}

/// The decimal digit character of a value below 10.
pub open spec fn digit_char(d: int) -> char {
    (48 + d) as char
}

/// Whether a character is an ASCII decimal digit.
pub open spec fn is_digit(c: char) -> bool {
    '0' <= c <= '9'
}

/// The value of an ASCII decimal digit.
pub open spec fn digit_value(c: char) -> int {
    c as int - 48
}

/// Decimal rendering of a value below 100 (no leading zeros).
pub open spec fn small_number_chars(n: int) -> Seq<char> {
    if n < 10 {
        seq![digit_char(n)]
    } else {
        seq![digit_char(n / 10), digit_char(n % 10)]
    }
}

/// The display notation of a square: file letter followed by the 1-based rank.
pub open spec fn square_notation(sq: Square) -> Seq<char> {
    seq![file_char(sq.file_of())] + small_number_chars(sq.rank_of() + 1)
}

/// The value of a rank field as `u8::from_str` reads it: an optional `+`
/// followed by one or more decimal digits. Only fields of one or two
/// characters occur here.
pub open spec fn spec_parse_small(r: Seq<char>) -> Option<int> {
    if r.len() == 1 && is_digit(r[0]) {
        Some(digit_value(r[0]))
    } else if r.len() == 2 && is_digit(r[0]) && is_digit(r[1]) {
        Some(10 * digit_value(r[0]) + digit_value(r[1]))
    } else if r.len() == 2 && r[0] == '+' && is_digit(r[1]) {
        Some(digit_value(r[1]))
    } else {
        None
    }
}

/// The square denoted by already trimmed notation characters, if any.
pub open spec fn spec_square_from_notation(t: Seq<char>) -> Option<Square> {
    if t.len() < 2 || t.len() > 3 {
        None
    } else if !('a' <= t[0] <= 'n') {
        None
    } else {
        match spec_parse_small(t.subrange(1, t.len() as int)) {
            Some(rank_display) => {
                if 1 <= rank_display <= 14 && valid_rf(rank_display - 1, t[0] as int - 97) {
                    Some(Square(((rank_display - 1) * 14 + (t[0] as int - 97)) as u8))
                } else {
                    None
                }
            },
            None => None,
        }
    }
}

/// Unicode whitespace, as `char::is_whitespace` defines it.
pub open spec fn is_ws(c: char) -> bool {
    ||| '\t' <= c <= '\r'
    ||| c == ' '
    ||| c == '\u{85}'
    ||| c == '\u{A0}'
    ||| c == '\u{1680}'
    ||| '\u{2000}' <= c <= '\u{200A}'
    ||| c == '\u{2028}'
    ||| c == '\u{2029}'
    ||| c == '\u{202F}'
    ||| c == '\u{205F}'
    ||| c == '\u{3000}'
}

/// Drop leading whitespace.
pub open spec fn trim_start_ws(s: Seq<char>) -> Seq<char>
    decreases s.len(),
{
    if s.len() > 0 && is_ws(s[0]) {
        trim_start_ws(s.subrange(1, s.len() as int))
    } else {
        s
    }
}

/// Drop trailing whitespace.
pub open spec fn trim_end_ws(s: Seq<char>) -> Seq<char>
    decreases s.len(),
{
    if s.len() > 0 && is_ws(s.last()) {
        trim_end_ws(s.drop_last())
    } else {
        s
    }
}

/// Drop whitespace at both ends, as `str::trim` does.
pub open spec fn trim_ws(s: Seq<char>) -> Seq<char> {
    trim_end_ws(trim_start_ws(s))
}

/// Decimal characters of a value below 100.
pub fn small_number_to_chars(n: u8, out: &mut Vec<char>)
    requires
        n < 100,
    ensures
        final(out)@ == old(out)@ + small_number_chars(n as int),
{
    if n < 10 {
        out.push((48u8 + n) as char);
    } else {
        out.push((48u8 + n / 10) as char);
        out.push((48u8 + n % 10) as char);
    }
}

/// The notation characters of a square.
pub fn square_notation_chars(sq: Square) -> (v: Vec<char>)
    ensures
        v@ == square_notation(sq),
{
    let mut v: Vec<char> = Vec::new();
    v.push(sq.display_file());
    small_number_to_chars(sq.display_rank(), &mut v);
    v
}

fn digit_of(c: char) -> (r: u8)
    requires
        is_digit(c),
    ensures
        r == digit_value(c),
{
    (c as u32 - 48) as u8
}

fn parse_small(r: &Vec<char>, start: usize) -> (v: Option<u8>)
    requires
        start <= r@.len(),
        r@.len() - start <= 2,
    ensures
        v matches Some(x) ==> spec_parse_small(r@.subrange(start as int, r@.len() as int))
            == Some(x as int),
        v is None ==> spec_parse_small(r@.subrange(start as int, r@.len() as int)) is None,
{
    let ghost t = r@.subrange(start as int, r@.len() as int);
    let n = r.len() - start;
    if n == 1 && '0' <= r[start] && r[start] <= '9' {
        assert(t[0] == r@[start as int]);
        Some(digit_of(r[start]))
    } else if n == 2 && '0' <= r[start] && r[start] <= '9' && '0' <= r[start + 1] && r[start
        + 1] <= '9' {
        assert(t[0] == r@[start as int] && t[1] == r@[start + 1]);
        Some(10 * digit_of(r[start]) + digit_of(r[start + 1]))
    } else if n == 2 && r[start] == '+' && '0' <= r[start + 1] && r[start + 1] <= '9' {
        assert(t[0] == r@[start as int] && t[1] == r@[start + 1]);
        Some(digit_of(r[start + 1]))
    } else {
        proof {
            if n == 1 {
                assert(t[0] == r@[start as int]);
            }
            if n == 2 {
                assert(t[0] == r@[start as int] && t[1] == r@[start + 1]);
            }
        }
        None
    }
}

/// The square named by trimmed notation characters.
pub fn square_from_chars(t: &Vec<char>) -> (r: Option<Square>)
    ensures
        r == spec_square_from_notation(t@),
{
    if t.len() < 2 || t.len() > 3 {
        return None;
    }
    let c0 = t[0];
    if !('a' <= c0 && c0 <= 'n') {
        return None;
    }
    let file = (c0 as u32 - 97) as u8;
    match parse_small(t, 1) {
        Some(rank_display) => {
            if 1 <= rank_display && rank_display <= 14 {
                Square::new(rank_display - 1, file)
            } else {
                None
            }
        },
        None => None,
    }
}

// ─── Player ─────────────────────────────────────────────────────────────────

/// Players in four-player chess, in turn order.
#[derive(Clone, Copy, PartialEq, Eq, Hash, Debug, Structural)]
pub enum Player {
    Red,
    Blue,
    Yellow,
    Green,
}

/// The turn-order index of a player (Red 0 .. Green 3).
pub open spec fn pidx(p: Player) -> int {
    match p {
        Player::Red => 0,
        Player::Blue => 1,
        Player::Yellow => 2,
        Player::Green => 3,
    }
}

/// The player with a given turn-order index.
pub open spec fn player_at(i: int) -> Player {
    if i == 0 {
        Player::Red
    } else if i == 1 {
        Player::Blue
    } else if i == 2 {
        Player::Yellow
    } else {
        Player::Green
    }
}

/// `o` is a player index other than `p`.
pub open spec fn is_other_player(o: int, p: int) -> bool {
    0 <= o < 4 && o != p
}

/// The player after `p` in turn order.
pub open spec fn next_player(p: Player) -> Player {
    player_at((pidx(p) + 1) % 4)
}

/// The player before `p` in turn order.
pub open spec fn prev_player(p: Player) -> Player {
    player_at((pidx(p) + 3) % 4)
}

/// The FEN4 letter of a player.
pub open spec fn player_char(p: Player) -> char {
    match p {
        Player::Red => 'r',
        Player::Blue => 'b',
        Player::Yellow => 'y',
        Player::Green => 'g',
    }
}

/// The player of a FEN4 letter, if any.
pub open spec fn player_of_char(c: char) -> Option<Player> {
    if c == 'r' {
        Some(Player::Red)
    } else if c == 'b' {
        Some(Player::Blue)
    } else if c == 'y' {
        Some(Player::Yellow)
    } else if c == 'g' {
        Some(Player::Green)
    } else {
        None
    }
}

impl Player {
    /// The player with index 0-3.
    pub fn from_index(index: u8) -> (r: Option<Self>)
        ensures
            r is Some <==> index < 4,
            r matches Some(p) ==> pidx(p) == index && p == player_at(index as int),
    {
        match index {
            0 => Some(Player::Red),
            1 => Some(Player::Blue),
            2 => Some(Player::Yellow),
            3 => Some(Player::Green),
            _ => None,
        }
    }

    /// The player's index (0-3).
    pub fn index(self) -> (r: usize)
        ensures
            r == pidx(self),
            r < 4,
    {
        match self {
            Player::Red => 0,
            Player::Blue => 1,
            Player::Yellow => 2,
            Player::Green => 3,
        }
    }

    /// The next player in turn order (Green wraps to Red).
    pub fn next(self) -> (r: Self)
        ensures
            r == next_player(self),
            pidx(r) == (pidx(self) + 1) % 4,
    {
        match self {
            Player::Red => Player::Blue,
            Player::Blue => Player::Yellow,
            Player::Yellow => Player::Green,
            Player::Green => Player::Red,
        }
    }

    /// The previous player in turn order (Red wraps to Green).
    pub fn prev(self) -> (r: Self)
        ensures
            r == prev_player(self),
            pidx(r) == (pidx(self) + 3) % 4,
    {
        match self {
            Player::Red => Player::Green,
            Player::Blue => Player::Red,
            Player::Yellow => Player::Blue,
            Player::Green => Player::Yellow,
        }
    }

    /// All players in turn order.
    pub fn all() -> (r: [Player; 4])
        ensures
            forall|i: int| 0 <= i < 4 ==> r@[i] == player_at(i),
    {
        [Player::Red, Player::Blue, Player::Yellow, Player::Green]
    }

    /// The three opponents of this player, in turn order.
    pub fn opponents(self) -> (r: [Player; 3])
        ensures
            forall|i: int| 0 <= i < 3 ==> r@[i] != self,
            forall|i: int, j: int| 0 <= i < j < 3 ==> pidx(r@[i]) < pidx(r@[j]),
            forall|o: int|
                #[trigger] is_other_player(o, pidx(self)) ==> pidx(r@[0]) == o || pidx(r@[1]) == o
                    || pidx(r@[2]) == o,
    {
        match self {
            Player::Red => [Player::Blue, Player::Yellow, Player::Green],
            Player::Blue => [Player::Red, Player::Yellow, Player::Green],
            Player::Yellow => [Player::Red, Player::Blue, Player::Green],
            Player::Green => [Player::Red, Player::Blue, Player::Yellow],
        }
    }

    /// Single-character identifier for FEN4 and the protocol.
    pub fn char(self) -> (c: char)
        ensures
            c == player_char(self),
    {
        match self {
            Player::Red => 'r',
            Player::Blue => 'b',
            Player::Yellow => 'y',
            Player::Green => 'g',
        }
    }

    /// Parse from a single character.
    pub fn from_char(c: char) -> (r: Option<Self>)
        ensures
            r == player_of_char(c),
    {
        match c {
            'r' => Some(Player::Red),
            'b' => Some(Player::Blue),
            'y' => Some(Player::Yellow),
            'g' => Some(Player::Green),
            _ => None,
        }
    }

    /// The player's name ("Red", "Blue", "Yellow", "Green").
    pub fn to_string(self) -> (s: String)
        ensures
            s@ == player_name(self),
    {
        let v: Vec<char> = match self {
            Player::Red => vec!['R', 'e', 'd'],
            Player::Blue => vec!['B', 'l', 'u', 'e'],
            Player::Yellow => vec!['Y', 'e', 'l', 'l', 'o', 'w'],
            Player::Green => vec!['G', 'r', 'e', 'e', 'n'],
        };
        crate::text::chars_to_string(&v)
    }
}

/// The display name of a player.
pub open spec fn player_name(p: Player) -> Seq<char> {
    match p {
        Player::Red => seq!['R', 'e', 'd'],
        Player::Blue => seq!['B', 'l', 'u', 'e'],
        Player::Yellow => seq!['Y', 'e', 'l', 'l', 'o', 'w'],
        Player::Green => seq!['G', 'r', 'e', 'e', 'n'],
    }
}

/// `next` and `prev` undo each other, and four steps return to the start.
pub proof fn lemma_player_cycle(p: Player)
    ensures
        prev_player(next_player(p)) == p,
        next_player(prev_player(p)) == p,
        next_player(next_player(next_player(next_player(p)))) == p,
        player_of_char(player_char(p)) == Some(p),
        player_at(pidx(p)) == p,
{
}

// ─── PieceType ──────────────────────────────────────────────────────────────

/// Chess piece types. `PromotedQueen` moves as a queen but scores as a pawn.
#[derive(Clone, Copy, PartialEq, Eq, Hash, Debug, Structural)]
pub enum PieceType {
    Pawn,
    Knight,
    Bishop,
    Rook,
    Queen,
    King,
    PromotedQueen,
}

/// The index of a piece type (Pawn 0 .. PromotedQueen 6).
pub open spec fn ptidx(pt: PieceType) -> int {
    match pt {
        PieceType::Pawn => 0,
        PieceType::Knight => 1,
        PieceType::Bishop => 2,
        PieceType::Rook => 3,
        PieceType::Queen => 4,
        PieceType::King => 5,
        PieceType::PromotedQueen => 6,
    }
}

/// The piece type with a given index (indices beyond 6 map to promoted queen).
pub open spec fn piece_type_at(i: int) -> PieceType {
    if i == 0 {
        PieceType::Pawn
    } else if i == 1 {
        PieceType::Knight
    } else if i == 2 {
        PieceType::Bishop
    } else if i == 3 {
        PieceType::Rook
    } else if i == 4 {
        PieceType::Queen
    } else if i == 5 {
        PieceType::King
    } else {
        PieceType::PromotedQueen
    }
}

/// The FEN4 letter of a piece type.
pub open spec fn piece_type_char(pt: PieceType) -> char {
    match pt {
        PieceType::Pawn => 'P',
        PieceType::Knight => 'N',
        PieceType::Bishop => 'B',
        PieceType::Rook => 'R',
        PieceType::Queen => 'Q',
        PieceType::King => 'K',
        PieceType::PromotedQueen => 'D',
    }
}

/// The piece type of a FEN4 letter, if any.
pub open spec fn piece_type_of_char(c: char) -> Option<PieceType> {
    if c == 'P' {
        Some(PieceType::Pawn)
    } else if c == 'N' {
        Some(PieceType::Knight)
    } else if c == 'B' {
        Some(PieceType::Bishop)
    } else if c == 'R' {
        Some(PieceType::Rook)
    } else if c == 'Q' {
        Some(PieceType::Queen)
    } else if c == 'K' {
        Some(PieceType::King)
    } else if c == 'D' {
        Some(PieceType::PromotedQueen)
    } else {
        None
    }
}

/// Sliding pieces: bishop, rook, queen, promoted queen.
pub open spec fn spec_is_slider(pt: PieceType) -> bool {
    pt == PieceType::Bishop || pt == PieceType::Rook || pt == PieceType::Queen || pt
        == PieceType::PromotedQueen
}

impl PieceType {
    /// Number of distinct piece types.
    pub const COUNT: usize = 7;

    /// Piece type from index 0-6.
    pub fn from_index(index: u8) -> (r: Option<Self>)
        ensures
            r is Some <==> index < 7,
            r matches Some(pt) ==> ptidx(pt) == index && pt == piece_type_at(index as int),
    {
        match index {
            0 => Some(PieceType::Pawn),
            1 => Some(PieceType::Knight),
            2 => Some(PieceType::Bishop),
            3 => Some(PieceType::Rook),
            4 => Some(PieceType::Queen),
            5 => Some(PieceType::King),
            6 => Some(PieceType::PromotedQueen),
            _ => None,
        }
    }

    /// Index of this piece type (0-6).
    pub fn index(self) -> (r: usize)
        ensures
            r == ptidx(self),
            r < 7,
    {
        match self {
            PieceType::Pawn => 0,
            PieceType::Knight => 1,
            PieceType::Bishop => 2,
            PieceType::Rook => 3,
            PieceType::Queen => 4,
            PieceType::King => 5,
            PieceType::PromotedQueen => 6,
        }
    }

    /// Whether this piece is a slider (bishop, rook, queen, promoted queen).
    pub fn is_slider(self) -> (r: bool)
        ensures
            r == spec_is_slider(self),
    {
        match self {
            PieceType::Bishop | PieceType::Rook | PieceType::Queen | PieceType::PromotedQueen => {
                true
            },
            _ => false,
        }
    }

    /// Single-character representation for FEN4.
    pub fn char(self) -> (c: char)
        ensures
            c == piece_type_char(self),
    {
        match self {
            PieceType::Pawn => 'P',
            PieceType::Knight => 'N',
            PieceType::Bishop => 'B',
            PieceType::Rook => 'R',
            PieceType::Queen => 'Q',
            PieceType::King => 'K',
            PieceType::PromotedQueen => 'D',
        }
    }

    /// Parse from a single character.
    pub fn from_char(c: char) -> (r: Option<Self>)
        ensures
            r == piece_type_of_char(c),
    {
        match c {
            'P' => Some(PieceType::Pawn),
            'N' => Some(PieceType::Knight),
            'B' => Some(PieceType::Bishop),
            'R' => Some(PieceType::Rook),
            'Q' => Some(PieceType::Queen),
            'K' => Some(PieceType::King),
            'D' => Some(PieceType::PromotedQueen),
            _ => None,
        }
    }
}

/// Index and character encodings of piece types round-trip.
pub proof fn lemma_piece_type_roundtrip(pt: PieceType)
    ensures
        piece_type_at(ptidx(pt)) == pt,
        piece_type_of_char(piece_type_char(pt)) == Some(pt),
        0 <= ptidx(pt) < 7,
{
}

// ─── Piece ──────────────────────────────────────────────────────────────────

/// A piece on the board (type + owner).
#[derive(Clone, Copy, PartialEq, Eq, Hash, Debug, Structural)]
pub struct Piece {
    pub piece_type: PieceType,
    pub player: Player,
}

impl Piece {
    pub fn new(piece_type: PieceType, player: Player) -> (r: Self)
        ensures
            r.piece_type == piece_type,
            r.player == player,
    {
        Piece { piece_type, player }
    }

    /// Two-character text: player letter then piece letter (e.g. "rK").
    pub fn to_string(self) -> (s: String)
        ensures
            s@ == seq![player_char(self.player), piece_type_char(self.piece_type)],
    {
        let v = vec![self.player.char(), self.piece_type.char()];
        crate::text::chars_to_string(&v)
    }
}

} // verus!
