//! Character-level text helpers shared by the notation, FEN4 and protocol code.

use vstd::prelude::*;
use vstd::string::*;
use crate::types::{digit_char, is_ws, small_number_chars, trim_end_ws, trim_start_ws, trim_ws};

verus! {

/// The characters of a string slice.
pub fn str_chars(s: &str) -> (v: Vec<char>)
    ensures
        v@ == s@,
{
    let n = s.unicode_len();
    let mut v: Vec<char> = Vec::new();
    let mut i: usize = 0;
    while i < n
        invariant
            n == s@.len(),
            i <= n,
            v@ == s@.subrange(0, i as int),
        decreases n - i,
    {
        v.push(s.get_char(i));
        i += 1;
    }
    v
}

/// A `String` holding exactly the given characters.
///
/// Trusted: `String::from_iter` over chars builds the string of those chars.
#[verifier::external_body]
pub fn chars_to_string(v: &Vec<char>) -> (s: String)
    ensures
        s@ == v@,
{
    String::from_iter(v.iter())
}

/// Whitespace as `char::is_whitespace` classifies it.
pub fn is_whitespace(c: char) -> (r: bool)
    ensures
        r == is_ws(c),
{
    ('\t' <= c && c <= '\r') || c == ' ' || c == '\u{85}' || c == '\u{A0}' || c == '\u{1680}'
        || ('\u{2000}' <= c && c <= '\u{200A}') || c == '\u{2028}' || c == '\u{2029}' || c
        == '\u{202F}' || c == '\u{205F}' || c == '\u{3000}'
}

proof fn lemma_trim_start(s: Seq<char>, i: int)
    requires
        0 <= i <= s.len(),
        forall|j: int| 0 <= j < i ==> is_ws(s[j]),
    ensures
        trim_start_ws(s) == trim_start_ws(s.subrange(i, s.len() as int)),
    decreases i,
{
    if i > 0 {
        let t = s.subrange(1, s.len() as int);
        assert forall|j: int| 0 <= j < i - 1 implies is_ws(t[j]) by {
            assert(t[j] == s[j + 1]);
        }
        lemma_trim_start(t, i - 1);
        assert(t.subrange(i - 1, t.len() as int) =~= s.subrange(i, s.len() as int));
    } else {
        assert(s.subrange(0, s.len() as int) =~= s);
    }
}

proof fn lemma_trim_end(s: Seq<char>, k: int)
    requires
        0 <= k <= s.len(),
        forall|j: int| k <= j < s.len() ==> is_ws(s[j]),
    ensures
        trim_end_ws(s) == trim_end_ws(s.subrange(0, k)),
    decreases s.len() - k,
{
    if k < s.len() {
        let t = s.drop_last();
        assert forall|j: int| k <= j < t.len() implies is_ws(t[j]) by {
            assert(t[j] == s[j]);
        }
        lemma_trim_end(t, k);
        assert(t.subrange(0, k) =~= s.subrange(0, k));
    } else {
        assert(s.subrange(0, k) =~= s);
    }
}

/// The characters without leading and trailing whitespace.
pub fn trim(v: &Vec<char>) -> (t: Vec<char>)
    ensures
        t@ == trim_ws(v@),
{
    let n = v.len();
    let mut i: usize = 0;
    while i < n && is_whitespace(v[i])
        invariant
            i <= n,
            n == v@.len(),
            forall|j: int| 0 <= j < i ==> is_ws(v@[j]),
        decreases n - i,
    {
        i += 1;
    }
    proof {
        lemma_trim_start(v@, i as int);
    }
    let ghost rest = v@.subrange(i as int, n as int);
    let mut k: usize = n;
    while k > i && is_whitespace(v[k - 1])
        invariant
            i <= k <= n,
            n == v@.len(),
            forall|j: int| k <= j < n ==> is_ws(v@[j]),
        decreases k,
    {
        k -= 1;
    }
    proof {
        assert(trim_start_ws(rest) == rest);
        assert forall|j: int| k - i <= j < rest.len() implies is_ws(rest[j]) by {
            assert(rest[j] == v@[j + i]);
        }
        lemma_trim_end(rest, k - i);
        assert(rest.subrange(0, k - i) =~= v@.subrange(i as int, k as int));
        if k > i {
            assert(trim_end_ws(v@.subrange(i as int, k as int)) == v@.subrange(
                i as int,
                k as int,
            ));
        } else {
            assert(v@.subrange(i as int, k as int) =~= Seq::<char>::empty());
        }
    }
    let mut t: Vec<char> = Vec::new();
    let mut j: usize = i;
    while j < k
        invariant
            i <= j <= k <= n,
            n == v@.len(),
            t@ == v@.subrange(i as int, j as int),
        decreases k - j,
    {
        t.push(v[j]);
        j += 1;
    }
    t
}

// ─── Splitting ──────────────────────────────────────────────────────────────

/// The words of `s`: its maximal runs of non-whitespace characters, as
/// `str::split_whitespace` yields them.
pub open spec fn words(s: Seq<char>) -> Seq<Seq<char>>
    decreases s.len(),
{
    if s.len() == 0 {
        Seq::empty()
    } else {
        let w = words(s.drop_last());
        let c = s.last();
        if is_ws(c) {
            w
        } else if s.len() >= 2 && !is_ws(s[s.len() - 2]) {
            w.update(w.len() - 1, w.last().push(c))
        } else {
            w.push(seq![c])
        }
    }
}

/// The pieces of `s` between occurrences of `d`, as `str::split` with a
/// character yields them (an empty `s` gives one empty piece).
pub open spec fn split_on(s: Seq<char>, d: char) -> Seq<Seq<char>>
    decreases s.len(),
{
    if s.len() == 0 {
        seq![Seq::empty()]
    } else {
        let w = split_on(s.drop_last(), d);
        if s.last() == d {
            w.push(Seq::empty())
        } else {
            w.update(w.len() - 1, w.last().push(s.last()))
        }
    }
}

/// Each piece of a split is at least one piece long.
pub proof fn lemma_split_on_len(s: Seq<char>, d: char)
    ensures
        split_on(s, d).len() >= 1,
    decreases s.len(),
{
    if s.len() > 0 {
        lemma_split_on_len(s.drop_last(), d);
    }
}

/// The views of a vector of character vectors.
pub open spec fn views(v: Seq<Vec<char>>) -> Seq<Seq<char>> {
    v.map_values(|x: Vec<char>| x@)
}

/// Split into words separated by whitespace.
pub fn split_ws(s: &Vec<char>) -> (r: Vec<Vec<char>>)
    ensures
        views(r@) == words(s@),
{
    let mut r: Vec<Vec<char>> = Vec::new();
    let n = s.len();
    let mut i: usize = 0;
    while i < n
        invariant
            n == s@.len(),
            i <= n,
            views(r@) == words(s@.take(i as int)),
        decreases n - i,
    {
        let c = s[i];
        let ghost t = s@.take(i as int + 1);
        proof {
            assert(t.drop_last() =~= s@.take(i as int));
            assert(t.last() == c);
        }
        if is_whitespace(c) {
        } else if i >= 1 && !is_whitespace(s[i - 1]) {
            proof {
                assert(t[t.len() - 2] == s@[i - 1]);
                assert(r@.len() >= 1) by {
                    let w = words(s@.take(i as int));
                    let u = s@.take(i as int);
                    assert(u.last() == s@[i - 1]);
                    assert(w.len() >= 1) by {
                        lemma_words_nonempty(u);
                    }
                }
            }
            let last = r.len() - 1;
            let mut w = r.remove(last);
            w.push(c);
            r.push(w);
        } else {
            let mut w: Vec<char> = Vec::new();
            w.push(c);
            r.push(w);
            proof {
                assert(w@ =~= seq![c]);
            }
        }
        proof {
            assert(views(r@) =~= words(t));
        }
        i += 1;
    }
    proof {
        assert(s@.take(n as int) =~= s@);
    }
    r
}

/// Text ending in a non-whitespace character has at least one word.
proof fn lemma_words_nonempty(s: Seq<char>)
    requires
        s.len() > 0,
        !is_ws(s.last()),
    ensures
        words(s).len() >= 1,
    decreases s.len(),
{
    if s.len() >= 2 && !is_ws(s[s.len() - 2]) {
        let u = s.drop_last();
        assert(u.last() == s[s.len() - 2]);
        lemma_words_nonempty(u);
    }
}

/// Split at every occurrence of `d`.
pub fn split_char(s: &Vec<char>, d: char) -> (r: Vec<Vec<char>>)
    ensures
        views(r@) == split_on(s@, d),
{
    let mut r: Vec<Vec<char>> = Vec::new();
    r.push(Vec::new());
    proof {
        assert(views(r@) =~= split_on(s@.take(0), d));
    }
    let n = s.len();
    let mut i: usize = 0;
    while i < n
        invariant
            n == s@.len(),
            i <= n,
            views(r@) == split_on(s@.take(i as int), d),
            r@.len() >= 1,
        decreases n - i,
    {
        let c = s[i];
        let ghost t = s@.take(i as int + 1);
        proof {
            assert(t.drop_last() =~= s@.take(i as int));
            assert(t.last() == c);
        }
        if c == d {
            r.push(Vec::new());
        } else {
            let last = r.len() - 1;
            let mut w = r.remove(last);
            w.push(c);
            r.push(w);
        }
        proof {
            assert(views(r@) =~= split_on(t, d));
        }
        i += 1;
    }
    proof {
        assert(s@.take(n as int) =~= s@);
    }
    r
}

// ─── Building text ──────────────────────────────────────────────────────────

/// Decimal rendering of a natural number, without leading zeros.
pub open spec fn dec(n: nat) -> Seq<char>
    decreases n,
{
    if n < 10 {
        seq![digit_char(n as int)]
    } else {
        dec(n / 10).push(digit_char((n % 10) as int))
    }
}

/// For values below 100 the rendering is the short one.
pub proof fn lemma_dec_small(n: nat)
    requires
        n < 100,
    ensures
        dec(n) == small_number_chars(n as int),
{
    if n >= 10 {
        assert(dec(n / 10) == seq![digit_char((n / 10) as int)]);
        assert(dec(n) =~= small_number_chars(n as int));
    }
}

/// Append the decimal rendering of `n`.
pub fn push_dec(out: &mut Vec<char>, n: u64)
    ensures
        final(out)@ == old(out)@ + dec(n as nat),
    decreases n,
{
    if n >= 10 {
        push_dec(out, n / 10);
    }
    let d = (n % 10) as u8;
    out.push((48u8 + d) as char);
    proof {
        if n >= 10 {
            assert(final(out)@ =~= old(out)@ + dec(n as nat));
        } else {
            assert(final(out)@ =~= old(out)@ + dec(n as nat));
        }
    }
}

/// Append the characters of a string slice.
pub fn push_str(out: &mut Vec<char>, s: &str)
    ensures
        final(out)@ == old(out)@ + s@,
{
    let v = str_chars(s);
    let mut i: usize = 0;
    let ghost start = out@;
    while i < v.len()
        invariant
            i <= v@.len(),
            v@ == s@,
            out@ == start + v@.take(i as int),
        decreases v@.len() - i,
    {
        out.push(v[i]);
        i += 1;
        proof {
            assert(out@ =~= start + v@.take(i as int));
        }
    }
    proof {
        assert(v@.take(v@.len() as int) =~= v@);
    }
}

/// Append the characters of another vector.
pub fn push_chars(out: &mut Vec<char>, v: &Vec<char>)
    ensures
        final(out)@ == old(out)@ + v@,
{
    let mut i: usize = 0;
    let ghost start = out@;
    while i < v.len()
        invariant
            i <= v@.len(),
            out@ == start + v@.take(i as int),
        decreases v@.len() - i,
    {
        out.push(v[i]);
        i += 1;
        proof {
            assert(out@ =~= start + v@.take(i as int));
        }
    }
    proof {
        assert(v@.take(v@.len() as int) =~= v@);
    }
}

// ─── Facts about splitting ──────────────────────────────────────────────────

/// No character of `w` is whitespace.
pub open spec fn no_ws(w: Seq<char>) -> bool {
    forall|i: int| 0 <= i < w.len() ==> !is_ws(#[trigger] w[i])
}

/// Appending a word after whitespace adds it as a new word.
pub proof fn lemma_words_append(y: Seq<char>, w: Seq<char>)
    requires
        y.len() == 0 || is_ws(y.last()),
        w.len() > 0,
        no_ws(w),
    ensures
        words(y + w) == words(y).push(w),
    decreases w.len(),
{
    let w1 = w.drop_last();
    let c = w.last();
    assert((y + w).drop_last() =~= y + w1);
    assert((y + w).last() == c);
    if w1.len() == 0 {
        assert(y + w1 =~= y);
        assert(w =~= seq![c]);
    } else {
        assert(no_ws(w1)) by {
            assert forall|i: int| 0 <= i < w1.len() implies !is_ws(#[trigger] w1[i]) by {
                assert(w1[i] == w[i]);
            }
        }
        lemma_words_append(y, w1);
        let s = y + w;
        assert(s[s.len() - 2] == w1.last());
        assert(!is_ws(w1.last())) by {
            assert(w1.last() == w[w1.len() - 1]);
        }
        assert(w1.push(c) =~= w);
        assert(words(y).push(w1).update(words(y).len() as int, w1.push(c)) =~= words(y).push(w));
    }
}

/// Whitespace at the end adds no word.
pub proof fn lemma_words_ws(y: Seq<char>, c: char)
    requires
        is_ws(c),
    ensures
        words(y.push(c)) == words(y),
{
    assert(y.push(c).drop_last() =~= y);
}

/// A piece without the separator splits into itself.
pub proof fn lemma_split_single(y: Seq<char>, d: char)
    requires
        !y.contains(d),
    ensures
        split_on(y, d) == seq![y],
    decreases y.len(),
{
    if y.len() > 0 {
        let y1 = y.drop_last();
        assert(!y1.contains(d)) by {
            if y1.contains(d) {
                let j = choose|j: int| 0 <= j < y1.len() && y1[j] == d;
                assert(y[j] == d);
            }
        }
        lemma_split_single(y1, d);
        assert(y.last() != d) by {
            assert(y[y.len() - 1] == y.last());
        }
        assert(y1.push(y.last()) =~= y);
    } else {
        assert(y =~= Seq::<char>::empty());
    }
}

/// Splitting `y`, the separator and `z` (with `y` free of separators) gives
/// `y` followed by the pieces of `z`.
pub proof fn lemma_split_cons(y: Seq<char>, z: Seq<char>, d: char)
    requires
        !y.contains(d),
    ensures
        split_on(y + seq![d] + z, d) == seq![y] + split_on(z, d),
    decreases z.len(),
{
    lemma_split_single(y, d);
    if z.len() == 0 {
        assert(y + seq![d] + z =~= y.push(d));
        assert(y.push(d).drop_last() =~= y);
        assert(seq![y].push(Seq::<char>::empty()) =~= seq![y] + seq![Seq::<char>::empty()]);
    } else {
        let z1 = z.drop_last();
        let c = z.last();
        lemma_split_cons(y, z1, d);
        lemma_split_on_len(z1, d);
        let s = y + seq![d] + z;
        assert(s.drop_last() =~= y + seq![d] + z1);
        assert(s.last() == c);
        let w = split_on(z1, d);
        if c == d {
            assert((seq![y] + w).push(Seq::<char>::empty()) =~= seq![y] + w.push(Seq::<char>::empty()));
        } else {
            assert((seq![y] + w).update((seq![y] + w).len() - 1, (seq![y] + w).last().push(c))
                =~= seq![y] + w.update(w.len() - 1, w.last().push(c)));
        }
    }
}

/// The decimal rendering is made of digits.
pub proof fn lemma_dec_digits(n: nat)
    ensures
        dec(n).len() > 0,
        forall|i: int| 0 <= i < dec(n).len() ==> '0' <= #[trigger] dec(n)[i] <= '9',
    decreases n,
{
    if n >= 10 {
        lemma_dec_digits(n / 10);
        let d = dec(n / 10);
        assert forall|i: int| 0 <= i < dec(n).len() implies '0' <= #[trigger] dec(n)[i] <= '9' by {
            if i < d.len() {
                assert(dec(n)[i] == d[i]);
            }
        }
    }
}

/// The text equals the string literal's text.
pub fn eq_lit(v: &Vec<char>, s: &str) -> (r: bool)
    ensures
        r == (v@ == s@),
{
    let w = str_chars(s);
    if v.len() != w.len() {
        return false;
    }
    let mut i: usize = 0;
    while i < v.len()
        invariant
            v@.len() == w@.len(),
            w@ == s@,
            i <= v@.len(),
            forall|j: int| 0 <= j < i ==> v@[j] == w@[j],
        decreases v@.len() - i,
    {
        if v[i] != w[i] {
            return false;
        }
        i += 1;
    }
    proof {
        assert(v@ =~= w@);
    }
    true
}

/// Pieces joined with a separator between each two.
pub open spec fn join(ps: Seq<Seq<char>>, sep: Seq<char>) -> Seq<char>
    decreases ps.len(),
{
    if ps.len() == 0 {
        Seq::empty()
    } else if ps.len() == 1 {
        ps[0]
    } else {
        join(ps.drop_last(), sep) + sep + ps.last()
    }
}

/// Join `ps[from..to]` with single spaces.
pub fn join_spaced(ps: &Vec<Vec<char>>, from: usize, to: usize) -> (r: Vec<char>)
    requires
        from <= to <= ps@.len(),
    ensures
        r@ == join(views(ps@).subrange(from as int, to as int), seq![' ']),
{
    let mut r: Vec<char> = Vec::new();
    let mut i: usize = from;
    while i < to
        invariant
            from <= i <= to <= ps@.len(),
            r@ == join(views(ps@).subrange(from as int, i as int), seq![' ']),
        decreases to - i,
    {
        let ghost before = views(ps@).subrange(from as int, i as int);
        let ghost after = views(ps@).subrange(from as int, i + 1);
        proof {
            assert(after.drop_last() =~= before);
            assert(after.last() == ps@[i as int]@);
        }
        if i > from {
            r.push(' ');
        }
        push_chars(&mut r, &ps[i]);
        proof {
            if i == from {
                assert(after.len() == 1);
                assert(r@ =~= join(after, seq![' ']));
            } else {
                assert(r@ =~= join(after, seq![' ']));
            }
        }
        i += 1;
    }
    r
}

} // verus!
