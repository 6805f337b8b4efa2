//! Protocol commands and the tokenizer and parser of input lines.

use vstd::prelude::*;
use crate::text::{
    chars_to_string, eq_lit, join, join_spaced, push_chars, split_ws, str_chars, views, words,
};
use crate::types::{digit_value, is_digit};

verus! {

// ─── Command types ──────────────────────────────────────────────────────────

/// Parameters for the `go` command.
#[derive(Debug, Clone)]
pub struct GoParams {
    /// Maximum search depth in plies.
    pub depth: Option<u32>,
    /// Maximum nodes to search.
    pub nodes: Option<u64>,
    /// Maximum time in milliseconds.
    pub movetime: Option<u64>,
    /// Search until `stop` is received.
    pub infinite: bool,
}

/// No limits set.
pub open spec fn no_go_params() -> GoParams {
    GoParams { depth: None, nodes: None, movetime: None, infinite: false }
}

impl Default for GoParams {
    fn default() -> (r: Self)
        ensures
            r == no_go_params(),
    {
        GoParams { depth: None, nodes: None, movetime: None, infinite: false }
    }
}

/// A parsed protocol command.
#[derive(Debug)]
pub enum Command {
    /// Engine identification.
    Freyja,
    /// Readiness ping.
    IsReady,
    /// Set board position, optionally with moves applied.
    Position {
        /// FEN4 string, or None for startpos.
        fen: Option<String>,
        /// Move strings to apply after setting position.
        moves: Vec<String>,
    },
    /// Begin search with given parameters.
    Go(GoParams),
    /// Halt search.
    Stop,
    /// Exit the engine.
    Quit,
    /// Print the board.
    Debug,
    /// Set an engine option.
    SetOption {
        /// Option name.
        name: String,
        /// Option value.
        value: String,
    },
    /// Unrecognized command (kept for error reporting).
    Unknown(String),
}

/// A command as plain values.
pub ghost enum CommandV {
    Freyja,
    IsReady,
    Position(Option<Seq<char>>, Seq<Seq<char>>),
    Go(GoParams),
    Stop,
    Quit,
    Debug,
    SetOption(Seq<char>, Seq<char>),
    Unknown(Seq<char>),
}

/// The views of a vector of strings.
pub open spec fn string_views(v: Seq<String>) -> Seq<Seq<char>> {
    v.map_values(|s: String| s@)
}

/// What a command value says.
pub open spec fn command_view(c: Command) -> CommandV {
    match c {
        Command::Freyja => CommandV::Freyja,
        Command::IsReady => CommandV::IsReady,
        Command::Position { fen, moves } => CommandV::Position(
            match fen {
                Some(f) => Some(f@),
                None => None,
            },
            string_views(moves@),
        ),
        Command::Go(g) => CommandV::Go(g),
        Command::Stop => CommandV::Stop,
        Command::Quit => CommandV::Quit,
        Command::Debug => CommandV::Debug,
        Command::SetOption { name, value } => CommandV::SetOption(name@, value@),
        Command::Unknown(s) => CommandV::Unknown(s@),
    }
}

// ─── Numbers ────────────────────────────────────────────────────────────────

/// The value of a run of decimal digits.
pub open spec fn digits_value(d: Seq<char>) -> int
    decreases d.len(),
{
    if d.len() == 0 {
        0
    } else {
        digits_value(d.drop_last()) * 10 + digit_value(d.last())
    }
}

/// Every character is a decimal digit.
pub open spec fn all_digits(d: Seq<char>) -> bool {
    forall|i: int| 0 <= i < d.len() ==> is_digit(#[trigger] d[i])
}

/// An unsigned integer as `str::parse` reads it: an optional `+`, then one
/// or more decimal digits, with a value no larger than `max`.
pub open spec fn parse_unsigned(s: Seq<char>, max: int) -> Option<int> {
    let d = if s.len() > 0 && s[0] == '+' {
        s.subrange(1, s.len() as int)
    } else {
        s
    };
    if d.len() > 0 && all_digits(d) && digits_value(d) <= max {
        Some(digits_value(d))
    } else {
        None
    }
}

proof fn lemma_digits_grow(d: Seq<char>, i: int)
    requires
        0 <= i <= d.len(),
        all_digits(d),
    ensures
        digits_value(d.take(i)) <= digits_value(d),
        digits_value(d.take(i)) >= 0,
    decreases d.len() - i,
{
    if i < d.len() {
        lemma_digits_grow(d, i + 1);
        assert(d.take(i + 1).drop_last() =~= d.take(i));
        assert(is_digit(d.take(i + 1).last())) by {
            assert(d.take(i + 1).last() == d[i]);
        }
    } else {
        assert(d.take(i) =~= d);
    }
    lemma_digits_nonneg(d.take(i));
}

proof fn lemma_digits_nonneg(d: Seq<char>)
    requires
        all_digits(d),
    ensures
        digits_value(d) >= 0,
    decreases d.len(),
{
    if d.len() > 0 {
        let e = d.drop_last();
        assert(all_digits(e)) by {
            assert forall|i: int| 0 <= i < e.len() implies is_digit(#[trigger] e[i]) by {
                assert(e[i] == d[i]);
            }
        }
        lemma_digits_nonneg(e);
        assert(is_digit(d[d.len() - 1]));
    }
}

/// Parse an unsigned integer no larger than `max`.
pub fn parse_unsigned_text(s: &Vec<char>, max: u64) -> (r: Option<u64>)
    ensures
        r is Some <==> parse_unsigned(s@, max as int) is Some,
        r matches Some(x) ==> parse_unsigned(s@, max as int) == Some(x as int),
{
    let n = s.len();
    let start: usize = if n > 0 && s[0] == '+' {
        1
    } else {
        0
    };
    let ghost d = if s@.len() > 0 && s@[0] == '+' {
        s@.subrange(1, s@.len() as int)
    } else {
        s@
    };
    proof {
        assert(d =~= s@.subrange(start as int, n as int));
    }
    if start >= n {
        return None;
    }
    let mut i: usize = start;
    while i < n
        invariant
            start <= i <= n,
            n == s@.len(),
            d == s@.subrange(start as int, n as int),
            d == (if s@.len() > 0 && s@[0] == '+' {
                s@.subrange(1, s@.len() as int)
            } else {
                s@
            }),
            forall|j: int| start <= j < i ==> is_digit(s@[j]),
        decreases n - i,
    {
        if !('0' <= s[i] && s[i] <= '9') {
            proof {
                assert(!is_digit(d[i - start]));
            }
            return None;
        }
        i += 1;
    }
    proof {
        assert(all_digits(d)) by {
            assert forall|j: int| 0 <= j < d.len() implies is_digit(#[trigger] d[j]) by {
                assert(d[j] == s@[j + start]);
            }
        }
    }
    let mut v: u64 = 0;
    let mut k: usize = start;
    while k < n
        invariant
            start <= k <= n,
            n == s@.len(),
            d == s@.subrange(start as int, n as int),
            d == (if s@.len() > 0 && s@[0] == '+' {
                s@.subrange(1, s@.len() as int)
            } else {
                s@
            }),
            all_digits(d),
            v == digits_value(d.take(k - start)),
            v <= max,
        decreases n - k,
    {
        let ghost t = d.take(k - start + 1);
        proof {
            assert(t.drop_last() =~= d.take(k - start));
            assert(t.last() == s@[k as int]);
            assert(is_digit(s@[k as int])) by {
                assert(d[k - start] == s@[k as int]);
            }
            lemma_digits_grow(d, k - start + 1);
        }
        let dg = (s[k] as u32 - 48) as u64;
        proof {
            assert(dg == digit_value(t.last()));
            assert(digits_value(t) == v * 10 + dg);
            assert(digits_value(t) <= digits_value(d));
        }
        match v.checked_mul(10) {
            Some(v10) => match v10.checked_add(dg) {
                Some(nv) => {
                    if nv > max {
                        return None;
                    }
                    v = nv;
                },
                None => {
                    return None;
                },
            },
            None => {
                proof {
                    assert(v * 10 > u64::MAX);
                }
                return None;
            },
        }
        k += 1;
    }
    proof {
        assert(d.take(d.len() as int) =~= d);
        lemma_digits_nonneg(d);
    }
    Some(v)
}

// ─── The grammar ────────────────────────────────────────────────────────────

/// Parameters of `go` after reading the tokens from `i` on: `depth`,
/// `nodes` and `movetime` take the next token as their value (kept when it
/// parses), `infinite` sets the flag, anything else is skipped.
pub open spec fn go_from(t: Seq<Seq<char>>, i: int, g: GoParams) -> GoParams
    decreases t.len() - i,
{
    if i < 0 || i >= t.len() {
        g
    } else if t[i] == "depth"@ {
        if i + 1 < t.len() {
            match parse_unsigned(t[i + 1], u32::MAX as int) {
                Some(v) => go_from(t, i + 2, GoParams { depth: Some(v as u32), ..g }),
                None => go_from(t, i + 2, g),
            }
        } else {
            g
        }
    } else if t[i] == "nodes"@ {
        if i + 1 < t.len() {
            match parse_unsigned(t[i + 1], u64::MAX as int) {
                Some(v) => go_from(t, i + 2, GoParams { nodes: Some(v as u64), ..g }),
                None => go_from(t, i + 2, g),
            }
        } else {
            g
        }
    } else if t[i] == "movetime"@ {
        if i + 1 < t.len() {
            match parse_unsigned(t[i + 1], u64::MAX as int) {
                Some(v) => go_from(t, i + 2, GoParams { movetime: Some(v as u64), ..g }),
                None => go_from(t, i + 2, g),
            }
        } else {
            g
        }
    } else if t[i] == "infinite"@ {
        go_from(t, i + 1, GoParams { infinite: true, ..g })
    } else {
        go_from(t, i + 1, g)
    }
}

/// The index of the first `moves` token at or after `i` (the length if none).
pub open spec fn moves_at(t: Seq<Seq<char>>, i: int) -> int
    decreases t.len() - i,
{
    if i >= t.len() {
        t.len() as int
    } else if t[i] == "moves"@ {
        i
    } else {
        moves_at(t, i + 1)
    }
}

/// The `position` command of tokens `t`: `fen4` takes the tokens up to
/// `moves` as the FEN4 text; the tokens after the first `moves` are moves.
pub open spec fn position_of(t: Seq<Seq<char>>) -> CommandV {
    let k = moves_at(t, 2);
    let fen = if t.len() > 1 && t[1] == "fen4"@ {
        Some(join(t.subrange(2, k), seq![' ']))
    } else {
        None
    };
    let moves = if k < t.len() {
        t.subrange(k + 1, t.len() as int)
    } else {
        Seq::empty()
    };
    CommandV::Position(fen, moves)
}

/// Text with `tok` added after a space (or as is onto empty text).
pub open spec fn add_word(acc: Seq<char>, tok: Seq<char>) -> Seq<char> {
    if acc.len() == 0 {
        tok
    } else {
        acc + seq![' '] + tok
    }
}

/// The name, value and whether the value is being read, after the tokens
/// `t[1..n]` of a `setoption` command.
pub open spec fn option_fold(t: Seq<Seq<char>>, n: int) -> (Seq<char>, Seq<char>, bool)
    decreases n,
{
    if n <= 1 {
        (Seq::empty(), Seq::empty(), false)
    } else {
        let (name, value, reading) = option_fold(t, n - 1);
        let tok = t[n - 1];
        if tok == "name"@ && !reading {
            (name, value, reading)
        } else if tok == "value"@ && !reading {
            (name, value, true)
        } else if reading {
            (name, add_word(value, tok), reading)
        } else {
            (add_word(name, tok), value, reading)
        }
    }
}

/// The command of an input line (None for a blank line).
pub open spec fn command_of(line: Seq<char>) -> Option<CommandV> {
    let t = words(line);
    if t.len() == 0 {
        None
    } else {
        let first = t[0];
        Some(
            if first == "freyja"@ {
                CommandV::Freyja
            } else if first == "isready"@ {
                CommandV::IsReady
            } else if first == "stop"@ {
                CommandV::Stop
            } else if first == "quit"@ {
                CommandV::Quit
            } else if first == "d"@ || first == "debug"@ {
                CommandV::Debug
            } else if first == "position"@ {
                position_of(t)
            } else if first == "go"@ {
                CommandV::Go(go_from(t, 1, no_go_params()))
            } else if first == "setoption"@ {
                CommandV::SetOption(option_fold(t, t.len() as int).0, option_fold(t, t.len() as int).1)
            } else {
                CommandV::Unknown(first)
            },
        )
    }
}

/// "d" is the short form of "debug": a line whose first word is "d" is the
/// debug command, and two lines that differ only in the first word being
/// "d" or "debug" read as the same command.
pub proof fn lemma_debug_short_form(a: Seq<char>, b: Seq<char>)
    ensures
        words(a).len() > 0 && words(a)[0] == "d"@ ==> command_of(a) == Some(CommandV::Debug),
        words(a).len() > 0 && words(a)[0] == "debug"@ ==> command_of(a) == Some(CommandV::Debug),
        words(a).len() > 0 && words(b).len() > 0 && words(a)[0] == "d"@ && words(b)[0] == "debug"@
            && words(a).skip(1) == words(b).skip(1) ==> command_of(a) == command_of(b),
{
    reveal_strlit("d");
    reveal_strlit("debug");
    reveal_strlit("freyja");
    reveal_strlit("isready");
    reveal_strlit("stop");
    reveal_strlit("quit");
    assert("d"@ != "freyja"@ && "d"@ != "isready"@ && "d"@ != "stop"@ && "d"@ != "quit"@) by {
        assert("d"@.len() != "freyja"@.len() && "d"@.len() != "isready"@.len() && "d"@.len() != "stop"@.len()
            && "d"@.len() != "quit"@.len());
    }
    assert("debug"@ != "freyja"@ && "debug"@ != "isready"@ && "debug"@ != "stop"@ && "debug"@ != "quit"@) by {
        assert("debug"@.len() != "freyja"@.len() && "debug"@.len() != "isready"@.len());
        assert("debug"@[0] != "stop"@[0] && "debug"@[0] != "quit"@[0]);
    }
}

// ─── Parsing ────────────────────────────────────────────────────────────────

fn parse_go(t: &Vec<Vec<char>>) -> (g: GoParams)
    ensures
        g == go_from(views(t@), 1, no_go_params()),
{
    let ghost ts = views(t@);
    let mut g = GoParams { depth: None, nodes: None, movetime: None, infinite: false };
    let mut i: usize = 1;
    while i < t.len()
        invariant
            ts == views(t@),
            i >= 1,
            go_from(ts, 1, no_go_params()) == go_from(ts, i as int, g),
        decreases t@.len() - i,
    {
        let tok = &t[i];
        let ghost g0 = g;
        let ghost i0 = i as int;
        proof {
            assert(ts[i as int] == tok@);
            if i + 1 < t@.len() {
                assert(ts[i + 1] == t@[i + 1]@);
            }
        }
        if eq_lit(tok, "depth") {
            if i + 1 < t.len() {
                match parse_unsigned_text(&t[i + 1], 4294967295u64) {
                    Some(v) => {
                        g.depth = Some(v as u32);

                    },
                    None => {},
                }
                i += 2;
            } else {
                i = t.len();
            }
        } else if eq_lit(tok, "nodes") {
            if i + 1 < t.len() {
                match parse_unsigned_text(&t[i + 1], u64::MAX) {
                    Some(v) => {
                        g.nodes = Some(v);
                    },
                    None => {},
                }
                i += 2;
            } else {
                i = t.len();
            }
        } else if eq_lit(tok, "movetime") {
            if i + 1 < t.len() {
                match parse_unsigned_text(&t[i + 1], u64::MAX) {
                    Some(v) => {
                        g.movetime = Some(v);
                    },
                    None => {},
                }
                i += 2;
            } else {
                i = t.len();
            }
        } else {
            if eq_lit(tok, "infinite") {
                g.infinite = true;
            }
            i += 1;
        }
        proof {
            assert(go_from(ts, i0, g0) == go_from(ts, i as int, g));
        }
    }
    g
}

fn strings_of(t: &Vec<Vec<char>>, from: usize) -> (r: Vec<String>)
    requires
        from <= t@.len(),
    ensures
        string_views(r@) == views(t@).subrange(from as int, t@.len() as int),
{
    let mut r: Vec<String> = Vec::new();
    let mut i: usize = from;
    while i < t.len()
        invariant
            from <= i <= t@.len(),
            string_views(r@) == views(t@).subrange(from as int, i as int),
        decreases t@.len() - i,
    {
        let s = chars_to_string(&t[i]);
        let ghost r0 = r@;
        r.push(s);
        proof {
            assert(r@ == r0.push(s));
            assert(string_views(r0).len() == r0.len());
            assert(views(t@).len() == t@.len());
            assert(r0.len() == i - from);
            assert forall|j: int| 0 <= j < r@.len() implies #[trigger] string_views(r@)[j] == views(
                t@,
            ).subrange(from as int, i + 1)[j] by {
                if j < r0.len() {
                    assert(string_views(r0)[j] == views(t@).subrange(from as int, i as int)[j]);
                    assert(r@[j] == r0[j]);
                } else {
                    assert(r@[j] == s);
                    assert(views(t@).subrange(from as int, i + 1)[j] == views(t@)[i as int]);
                }
            }
            assert(string_views(r@) =~= views(t@).subrange(from as int, i + 1));
        }
        i += 1;
    }
    r
}

fn parse_position(t: &Vec<Vec<char>>) -> (c: Command)
    requires
        t@.len() >= 1,
    ensures
        command_view(c) == position_of(views(t@)),
{
    let ghost ts = views(t@);
    let mut k: usize = 2;
    if k > t.len() {
        k = t.len();
    }
    while k < t.len() && !eq_lit(&t[k], "moves")
        invariant
            ts == views(t@),
            k <= t@.len(),
            moves_at(ts, 2) == moves_at(ts, k as int),
            k >= 2 || k == t@.len(),
        decreases t@.len() - k,
    {
        proof {
            assert(ts[k as int] == t@[k as int]@);
        }
        k += 1;
    }
    proof {
        if k < t@.len() {
            assert(ts[k as int] == t@[k as int]@);
        }
        if t@.len() < 2 {
            assert(moves_at(ts, 2) == ts.len());
        }
    }
    let fen: Option<String> = if t.len() > 1 && eq_lit(&t[1], "fen4") {
        proof {
            assert(ts[1] == t@[1]@);
        }
        let f = join_spaced(t, 2, k);
        Some(chars_to_string(&f))
    } else {
        proof {
            if t@.len() > 1 {
                assert(ts[1] == t@[1]@);
            }
        }
        None
    };
    let moves: Vec<String> = if k < t.len() {
        strings_of(t, k + 1)
    } else {
        let v: Vec<String> = Vec::new();
        proof {
            assert(string_views(v@) =~= Seq::<Seq<char>>::empty());
        }
        v
    };
    Command::Position { fen, moves }
}

fn add_token(acc: &mut Vec<char>, tok: &Vec<char>)
    ensures
        final(acc)@ == add_word(old(acc)@, tok@),
{
    if acc.len() > 0 {
        acc.push(' ');
    }
    push_chars(acc, tok);
    proof {
        if old(acc)@.len() == 0 {
            assert(final(acc)@ =~= tok@);
        }
    }
}

fn parse_setoption(t: &Vec<Vec<char>>) -> (c: Command)
    requires
        t@.len() >= 1,
    ensures
        command_view(c) == CommandV::SetOption(
            option_fold(views(t@), t@.len() as int).0,
            option_fold(views(t@), t@.len() as int).1,
        ),
{
    let ghost ts = views(t@);
    let mut name: Vec<char> = Vec::new();
    let mut value: Vec<char> = Vec::new();
    let mut reading = false;
    let mut i: usize = 1;
    while i < t.len()
        invariant
            ts == views(t@),
            1 <= i <= t@.len(),
            option_fold(ts, i as int) == (name@, value@, reading),
        decreases t@.len() - i,
    {
        let tok = &t[i];
        proof {
            assert(ts[i as int] == tok@);
        }
        if eq_lit(tok, "name") && !reading {
        } else if eq_lit(tok, "value") && !reading {
            reading = true;
        } else if reading {
            add_token(&mut value, tok);
        } else {
            add_token(&mut name, tok);
        }
        i += 1;
    }
    Command::SetOption { name: chars_to_string(&name), value: chars_to_string(&value) }
}

/// Parse a single protocol input line into a command.
///
/// Returns `None` for empty or whitespace-only lines.
pub fn parse_command(line: &str) -> (c: Option<Command>)
    ensures
        match command_of(line@) {
            Some(v) => c matches Some(x) && command_view(x) == v,
            None => c is None,
        },
{
    let chars = str_chars(line);
    let t = split_ws(&chars);
    if t.len() == 0 {
        return None;
    }
    let first = &t[0];
    proof {
        assert(views(t@)[0] == first@);
    }
    let c = if eq_lit(first, "freyja") {
        Command::Freyja
    } else if eq_lit(first, "isready") {
        Command::IsReady
    } else if eq_lit(first, "stop") {
        Command::Stop
    } else if eq_lit(first, "quit") {
        Command::Quit
    } else if eq_lit(first, "d") || eq_lit(first, "debug") {
        Command::Debug
    } else if eq_lit(first, "position") {
        parse_position(&t)
    } else if eq_lit(first, "go") {
        Command::Go(parse_go(&t))
    } else if eq_lit(first, "setoption") {
        parse_setoption(&t)
    } else {
        Command::Unknown(chars_to_string(first))
    };
    Some(c)
}

} // verus!
