//! Character-level helpers shared by the configuration parsers and the
//! HTTP logic: whitespace, trimming, tokenizing, line splitting, ASCII case
//! folding and decimal numbers.
use vstd::prelude::*;
use vstd::std_specs::iter::IteratorSpec;

verus! {

broadcast use vstd::string::group_string_axioms;

/// Unicode `White_Space` property, as used by `char::is_whitespace`.
pub open spec fn is_ws(c: char) -> bool {
    ||| ('\u{9}' <= c && c <= '\u{d}')
    ||| c == ' '
    ||| c == '\u{85}'
    ||| c == '\u{a0}'
    ||| c == '\u{1680}'
    ||| ('\u{2000}' <= c && c <= '\u{200a}')
    ||| c == '\u{2028}'
    ||| c == '\u{2029}'
    ||| c == '\u{202f}'
    ||| c == '\u{205f}'
    ||| c == '\u{3000}'
}

pub fn is_whitespace(c: char) -> (r: bool)
    ensures
        r == is_ws(c),
{
    ('\u{9}' <= c && c <= '\u{d}') || c == ' ' || c == '\u{85}' || c == '\u{a0}' || c == '\u{1680}'
        || ('\u{2000}' <= c && c <= '\u{200a}') || c == '\u{2028}' || c == '\u{2029}' || c
        == '\u{202f}' || c == '\u{205f}' || c == '\u{3000}'
}

/// The characters of a string slice, in order.
pub fn chars_of(s: &str) -> (r: Vec<char>)
    ensures
        r@ == s@,
{
    let mut out: Vec<char> = Vec::new();
    let mut it = s.chars();
    loop
        invariant
            out@ + it.remaining() == s@,
            it.decrease() is Some,
        decreases it.decrease()->0,
    {
        match it.next() {
            Some(c) => {
                out.push(c);
            },
            None => {
                return out;
            },
        }
    }
}


/// Appends one character to a `String` (`String::push`).
#[verifier::external_body]
pub(crate) fn push_char(s: &mut String, c: char)
    ensures
        final(s)@ == old(s)@.push(c),
{
    s.push(c);
}

/// A `String` holding the given characters.
pub fn string_of(v: &[char]) -> (r: String)
    ensures
        r@ == v@,
{
    let mut out = String::new();
    let mut i: usize = 0;
    while i < v.len()
        invariant
            0 <= i <= v@.len(),
            out@ == v@.take(i as int),
        decreases v@.len() - i,
    {
        push_char(&mut out, v[i]);
        proof {
            assert(v@.take(i + 1) =~= v@.take(i as int).push(v@[i as int]));
        }
        i = i + 1;
    }
    proof {
        assert(v@.take(v@.len() as int) =~= v@);
    }
    out
}

// ---------------------------------------------------------------- trimming

/// Index of the first non-whitespace character at or after `i`.
pub open spec fn lead_from(s: Seq<char>, i: int) -> int
    decreases s.len() - i,
{
    if 0 <= i < s.len() && is_ws(s[i]) {
        lead_from(s, i + 1)
    } else {
        i
    }
}

/// End of `s[lo..j]` once trailing whitespace is dropped.
pub open spec fn trail_to(s: Seq<char>, lo: int, j: int) -> int
    decreases j - lo,
{
    if lo < j && j <= s.len() && is_ws(s[j - 1]) {
        trail_to(s, lo, j - 1)
    } else {
        j
    }
}

/// `str::trim`: leading and trailing Unicode whitespace removed.
pub open spec fn trim(s: Seq<char>) -> Seq<char> {
    let lo = lead_from(s, 0);
    s.subrange(lo, trail_to(s, lo, s.len() as int))
}

/// Bounds `(lo, hi)` such that `s[lo..hi]` is `s` trimmed.
pub fn trim_bounds(s: &[char]) -> (r: (usize, usize))
    ensures
        r.0 <= r.1 <= s@.len(),
        r.0 == lead_from(s@, 0),
        r.1 == trail_to(s@, r.0 as int, s@.len() as int),
        s@.subrange(r.0 as int, r.1 as int) == trim(s@),
{
    let n = s.len();
    let mut i: usize = 0;
    while i < n && is_whitespace(s[i])
        invariant
            0 <= i <= n,
            n == s@.len(),
            lead_from(s@, i as int) == lead_from(s@, 0),
        decreases n - i,
    {
        i = i + 1;
    }
    let mut j: usize = n;
    while j > i && is_whitespace(s[j - 1])
        invariant
            i <= j <= n,
            n == s@.len(),
            lead_from(s@, i as int) == lead_from(s@, 0),
            lead_from(s@, i as int) == i,
            trail_to(s@, i as int, j as int) == trail_to(s@, i as int, n as int),
        decreases j - i,
    {
        j = j - 1;
    }
    (i, j)
}

/// A copy of `s[lo..hi]`.
pub fn slice_to_vec(s: &[char], lo: usize, hi: usize) -> (r: Vec<char>)
    requires
        lo <= hi <= s@.len(),
    ensures
        r@ == s@.subrange(lo as int, hi as int),
{
    let mut out: Vec<char> = Vec::new();
    let mut k = lo;
    while k < hi
        invariant
            lo <= k <= hi,
            hi <= s@.len(),
            out@ == s@.subrange(lo as int, k as int),
        decreases hi - k,
    {
        out.push(s[k]);
        proof {
            assert(s@.subrange(lo as int, k + 1) =~= s@.subrange(lo as int, k as int).push(s@[k as int]));
        }
        k = k + 1;
    }
    out
}

/// `str::trim` on a character sequence.
pub fn trim_chars(s: &[char]) -> (r: Vec<char>)
    ensures
        r@ == trim(s@),
{
    let (lo, hi) = trim_bounds(s);
    slice_to_vec(s, lo, hi)
}

// -------------------------------------------------------------- tokenizing

/// Appends a character vector to a vector of them, tracking the deep view.
pub fn push_seq(out: &mut Vec<Vec<char>>, t: Vec<char>)
    ensures
        final(out).deep_view() == old(out).deep_view().push(t@),
{
    let ghost before = out@;
    let ghost tv = t@;
    out.push(t);
    proof {
        assert forall|k: int| 0 <= k < out@.len() implies #[trigger] out.deep_view()[k]
            == before.map_values(|v: Vec<char>| v.deep_view()).push(tv)[k] by {
            if k < before.len() {
            } else {
                assert(out@[k].deep_view() =~= tv);
            }
        }
        assert(out.deep_view() =~= old(out).deep_view().push(tv));
    }
}

/// One step of the tokenizer: `(tokens so far, current token, inside quotes)`.
pub open spec fn tok_step(st: (Seq<Seq<char>>, Seq<char>, bool), c: char) -> (
    Seq<Seq<char>>,
    Seq<char>,
    bool,
) {
    if c == '"' {
        (st.0, st.1, !st.2)
    } else if is_ws(c) && !st.2 {
        if st.1.len() > 0 {
            (st.0.push(st.1), Seq::empty(), st.2)
        } else {
            st
        }
    } else {
        (st.0, st.1.push(c), st.2)
    }
}

/// Tokenizer state after the first `i` characters of `s`.
pub open spec fn tok_prefix(s: Seq<char>, i: int) -> (Seq<Seq<char>>, Seq<char>, bool)
    decreases i,
{
    if i <= 0 {
        (Seq::empty(), Seq::empty(), false)
    } else {
        tok_step(tok_prefix(s, i - 1), s[i - 1])
    }
}

/// Whitespace-separated tokens; a double quote toggles quoting (the quote
/// itself is dropped) so that quoted runs keep their whitespace.
pub open spec fn tokens_of(s: Seq<char>) -> Seq<Seq<char>> {
    let st = tok_prefix(s, s.len() as int);
    if st.1.len() > 0 {
        st.0.push(st.1)
    } else {
        st.0
    }
}

/// A token's characters: never a double quote, and no whitespace when the
/// line held no quote.
pub open spec fn token_chars_ok(t: Seq<char>, unquoted: bool) -> bool {
    forall|j: int| 0 <= j < t.len() ==> #[trigger] t[j] != '"' && (unquoted ==> !is_ws(t[j]))
}

proof fn lemma_tok_prefix_clean(s: Seq<char>, i: int)
    requires
        0 <= i <= s.len(),
    ensures
        ({
            let st = tok_prefix(s, i);
            let unquoted = !s.take(i).contains('"');
            &&& forall|k: int| 0 <= k < st.0.len() ==> (#[trigger] st.0[k]).len() > 0 && token_chars_ok(st.0[k], unquoted)
            &&& token_chars_ok(st.1, unquoted)
            &&& unquoted ==> !st.2
        }),
    decreases i,
{
    if i > 0 {
        lemma_tok_prefix_clean(s, i - 1);
        let c = s[i - 1];
        let pre = tok_prefix(s, i - 1);
        assert(s.take(i) =~= s.take(i - 1).push(c));
        let unq = !s.take(i).contains('"');
        if unq {
            assert(!s.take(i - 1).contains('"')) by {
                let pre_s = s.take(i - 1);
                if pre_s.contains('"') {
                    let j = choose|j: int| 0 <= j < pre_s.len() && #[trigger] pre_s[j] == '"';
                    assert(s.take(i)[j] == '"');
                }
            }
            assert(c != '"') by {
                assert(s.take(i)[i - 1] == c);
            }
        }
        let st = tok_prefix(s, i);
        if c != '"' && !(is_ws(c) && !pre.2) {
            assert(st.1 == pre.1.push(c));
            assert forall|j: int| 0 <= j < st.1.len() implies #[trigger] st.1[j] != '"' && (unq ==> !is_ws(st.1[j])) by {
                if j < pre.1.len() {
                    assert(st.1[j] == pre.1[j]);
                }
            }
        }
    }
}

/// Every token is non-empty and free of double quotes; a line without a
/// quote splits at whitespace only, so its tokens hold no whitespace.
pub proof fn law_tokens_are_clean(s: Seq<char>)
    ensures
        forall|k: int| 0 <= k < tokens_of(s).len() ==> (#[trigger] tokens_of(s)[k]).len() > 0
            && token_chars_ok(tokens_of(s)[k], !s.contains('"')),
{
    lemma_tok_prefix_clean(s, s.len() as int);
    assert(s.take(s.len() as int) =~= s);
}

/// Every character of `g` is whitespace.
pub open spec fn all_ws(g: Seq<char>) -> bool {
    forall|j: int| 0 <= j < g.len() ==> is_ws(#[trigger] g[j])
}

/// `gaps[0] + toks[0] + gaps[1] + ... + toks[n - 1] + gaps[n]`.
pub open spec fn interleave(gaps: Seq<Seq<char>>, toks: Seq<Seq<char>>) -> Seq<char>
    decreases toks.len(),
{
    if toks.len() == 0 {
        gaps[0]
    } else {
        interleave(gaps.drop_last(), toks.drop_last()) + toks.last() + gaps.last()
    }
}

/// Whether `gaps` are the whitespace runs around `toks` in `s`: `s` is
/// `toks` interleaved with `gaps`, every gap is whitespace, and the gaps
/// between two tokens are not empty.
pub open spec fn whitespace_gaps(s: Seq<char>, toks: Seq<Seq<char>>, gaps: Seq<Seq<char>>) -> bool {
    &&& gaps.len() == toks.len() + 1
    &&& forall|k: int| 0 <= k < gaps.len() ==> all_ws(#[trigger] gaps[k])
    &&& forall|k: int| 0 < k < toks.len() ==> (#[trigger] gaps[k]).len() > 0
    &&& s == interleave(gaps, toks)
}

/// `str::split_whitespace` gives `toks` for `s`: the tokens are non-empty,
/// hold no whitespace, and `s` is them separated (and surrounded) by runs
/// of whitespace, non-empty between two tokens.
pub open spec fn splits_at_whitespace(s: Seq<char>, toks: Seq<Seq<char>>) -> bool {
    &&& forall|k: int| 0 <= k < toks.len() ==> (#[trigger] toks[k]).len() > 0 && forall|j: int|
        0 <= j < toks[k].len() ==> !is_ws(#[trigger] toks[k][j])
    &&& exists|gaps: Seq<Seq<char>>| whitespace_gaps(s, toks, gaps)
}

proof fn lemma_unquoted_gaps(s: Seq<char>, i: int) -> (g: Seq<Seq<char>>)
    requires
        0 <= i <= s.len(),
        !s.contains('"'),
    ensures
        ({
            let st = tok_prefix(s, i);
            &&& !st.2
            &&& g.len() == st.0.len() + 1
            &&& forall|k: int| 0 <= k < g.len() ==> all_ws(#[trigger] g[k])
            &&& forall|k: int| 0 < k < st.0.len() ==> (#[trigger] g[k]).len() > 0
            &&& st.0.len() > 0 ==> g[st.0.len() as int].len() > 0
            &&& s.take(i) == interleave(g, st.0) + st.1
        }),
    decreases i,
{
    if i == 0 {
        assert(s.take(0) =~= Seq::<char>::empty());
        let g = seq![Seq::<char>::empty()];
        assert(interleave(g, Seq::<Seq<char>>::empty()) + Seq::<char>::empty() =~= Seq::<char>::empty());
        g
    } else {
        let g0 = lemma_unquoted_gaps(s, i - 1);
        let pre = tok_prefix(s, i - 1);
        let c = s[i - 1];
        assert(c != '"') by {
            if c == '"' {
                assert(s.contains('"'));
            }
        }
        assert(s.take(i) =~= s.take(i - 1).push(c));
        if !is_ws(c) {
            assert(s.take(i) =~= interleave(g0, pre.0) + pre.1.push(c));
            g0
        } else if pre.1.len() > 0 {
            let done = pre.0.push(pre.1);
            let g = g0.push(seq![c]);
            assert(g.drop_last() =~= g0);
            assert(done.drop_last() =~= pre.0);
            assert(interleave(g, done) == interleave(g0, pre.0) + pre.1 + seq![c]);
            assert(s.take(i) =~= interleave(g, done) + Seq::<char>::empty());
            assert forall|k: int| 0 <= k < g.len() implies all_ws(#[trigger] g[k]) by {
                if k < g0.len() {
                    assert(g[k] == g0[k]);
                }
            }
            assert forall|k: int| 0 < k < done.len() implies (#[trigger] g[k]).len() > 0 by {
                assert(g[k] == g0[k]);
            }
            g
        } else {
            let n = pre.0.len() as int;
            let g = g0.update(n, g0[n].push(c));
            if n == 0 {
                assert(interleave(g, pre.0) == g[0]);
                assert(interleave(g0, pre.0) == g0[0]);
            } else {
                assert(g.drop_last() =~= g0.drop_last());
            }
            assert(interleave(g, pre.0) =~= interleave(g0, pre.0).push(c));
            assert(s.take(i) =~= interleave(g, pre.0) + pre.1);
            assert forall|k: int| 0 <= k < g.len() implies all_ws(#[trigger] g[k]) by {
                if k != n {
                    assert(g[k] == g0[k]);
                } else {
                    assert forall|j: int| 0 <= j < g[k].len() implies is_ws(#[trigger] g[k][j]) by {
                        if j < g0[n].len() {
                            assert(g[k][j] == g0[n][j]);
                        }
                    }
                }
            }
            assert forall|k: int| 0 < k < pre.0.len() implies (#[trigger] g[k]).len() > 0 by {
                assert(g[k] == g0[k]);
            }
            g
        }
    }
}

/// A line without a double quote tokenizes as `str::split_whitespace`
/// splits it.
pub proof fn law_unquoted_tokens_split_at_whitespace(s: Seq<char>)
    requires
        !s.contains('"'),
    ensures
        splits_at_whitespace(s, tokens_of(s)),
{
    law_tokens_are_clean(s);
    let g0 = lemma_unquoted_gaps(s, s.len() as int);
    assert(s.take(s.len() as int) =~= s);
    let st = tok_prefix(s, s.len() as int);
    let toks = tokens_of(s);
    assert forall|k: int| 0 <= k < toks.len() implies (#[trigger] toks[k]).len() > 0 && forall|j: int|
        0 <= j < toks[k].len() ==> !is_ws(#[trigger] toks[k][j]) by {
        assert(token_chars_ok(toks[k], true));
        assert forall|j: int| 0 <= j < toks[k].len() implies !is_ws(#[trigger] toks[k][j]) by {
            assert(toks[k][j] != '"' && (true ==> !is_ws(toks[k][j])));
        }
    }
    if st.1.len() > 0 {
        let g = g0.push(Seq::<char>::empty());
        assert(g.drop_last() =~= g0);
        assert(toks.drop_last() =~= st.0);
        assert(interleave(g, toks) == interleave(g0, st.0) + st.1 + Seq::<char>::empty());
        assert(s =~= interleave(g, toks));
        assert forall|k: int| 0 <= k < g.len() implies all_ws(#[trigger] g[k]) by {
            if k < g0.len() {
                assert(g[k] == g0[k]);
            }
        }
        assert forall|k: int| 0 < k < toks.len() implies (#[trigger] g[k]).len() > 0 by {
            assert(g[k] == g0[k]);
        }
        assert(whitespace_gaps(s, toks, g));
    } else {
        assert(s =~= interleave(g0, toks));
        assert(whitespace_gaps(s, toks, g0));
    }
}

/// Split a configuration line into tokens (see [`tokens_of`]).
pub fn tokenize(line: &[char]) -> (r: Vec<Vec<char>>)
    ensures
        r.deep_view() == tokens_of(line@),
{
    let mut out: Vec<Vec<char>> = Vec::new();
    let mut cur: Vec<char> = Vec::new();
    let mut quoted = false;
    let mut i: usize = 0;
    while i < line.len()
        invariant
            0 <= i <= line@.len(),
            (out.deep_view(), cur@, quoted) == tok_prefix(line@, i as int),
        decreases line@.len() - i,
    {
        let c = line[i];
        if c == '"' {
            quoted = !quoted;
        } else if is_whitespace(c) && !quoted {
            if cur.len() > 0 {
                push_seq(&mut out, cur);
                cur = Vec::new();
            }
        } else {
            cur.push(c);
        }
        i = i + 1;
    }
    if cur.len() > 0 {
        push_seq(&mut out, cur);
    }
    out
}


// --------------------------------------------------------------- splitting

/// One step of splitting at `sep`: `(finished pieces, current piece)`.
pub open spec fn split_step(st: (Seq<Seq<char>>, Seq<char>), sep: char, c: char) -> (
    Seq<Seq<char>>,
    Seq<char>,
) {
    if c == sep {
        (st.0.push(st.1), Seq::empty())
    } else {
        (st.0, st.1.push(c))
    }
}

/// Splitting state after the first `i` characters of `s`.
pub open spec fn split_prefix(s: Seq<char>, sep: char, i: int) -> (Seq<Seq<char>>, Seq<char>)
    decreases i,
{
    if i <= 0 {
        (Seq::empty(), Seq::empty())
    } else {
        split_step(split_prefix(s, sep, i - 1), sep, s[i - 1])
    }
}

/// `str::split(sep)`: the pieces of `s` between separators, empty pieces
/// included.
pub open spec fn split_on(s: Seq<char>, sep: char) -> Seq<Seq<char>> {
    let st = split_prefix(s, sep, s.len() as int);
    st.0.push(st.1)
}

/// The pieces of `s` between line feeds (a final empty piece included).
/// Carriage returns stay in the pieces; every consumer trims them away.
pub open spec fn lines_of(s: Seq<char>) -> Seq<Seq<char>> {
    split_on(s, '\n')
}

/// Split at every `sep` (see [`split_on`]).
pub fn split_chars(text: &[char], sep: char) -> (r: Vec<Vec<char>>)
    ensures
        r.deep_view() == split_on(text@, sep),
{
    let mut out: Vec<Vec<char>> = Vec::new();
    let mut cur: Vec<char> = Vec::new();
    let mut i: usize = 0;
    while i < text.len()
        invariant
            0 <= i <= text@.len(),
            (out.deep_view(), cur@) == split_prefix(text@, sep, i as int),
        decreases text@.len() - i,
    {
        let c = text[i];
        if c == sep {
            push_seq(&mut out, cur);
            cur = Vec::new();
        } else {
            cur.push(c);
        }
        i = i + 1;
    }
    push_seq(&mut out, cur);
    out
}

/// Split text at line feeds (see [`lines_of`]).
pub fn split_lines(text: &[char]) -> (r: Vec<Vec<char>>)
    ensures
        r.deep_view() == lines_of(text@),
{
    split_chars(text, '\n')
}

// ------------------------------------------------------ characters, ASCII

pub open spec fn is_digit(c: char) -> bool {
    '0' <= c && c <= '9'
}

pub open spec fn is_ascii_alnum(c: char) -> bool {
    ||| is_digit(c)
    ||| ('a' <= c && c <= 'z')
    ||| ('A' <= c && c <= 'Z')
}

pub open spec fn all_digits(s: Seq<char>) -> bool {
    forall|i: int| 0 <= i < s.len() ==> is_digit(#[trigger] s[i])
}

/// `char::to_ascii_lowercase`.
pub open spec fn lower_char(c: char) -> char {
    if 'A' <= c && c <= 'Z' {
        ((c as u32) + 32) as char
    } else {
        c
    }
}

/// `str::to_ascii_lowercase`.
pub open spec fn ascii_lower(s: Seq<char>) -> Seq<char> {
    s.map_values(|c: char| lower_char(c))
}

pub fn to_lower_char(c: char) -> (r: char)
    ensures
        r == lower_char(c),
{
    if 'A' <= c && c <= 'Z' {
        ((c as u8) + 32) as char
    } else {
        c
    }
}

pub fn ascii_lowercase(s: &[char]) -> (r: Vec<char>)
    ensures
        r@ == ascii_lower(s@),
{
    let mut out: Vec<char> = Vec::new();
    let mut i: usize = 0;
    while i < s.len()
        invariant
            0 <= i <= s@.len(),
            out@ == ascii_lower(s@.take(i as int)),
        decreases s@.len() - i,
    {
        out.push(to_lower_char(s[i]));
        proof {
            assert(ascii_lower(s@.take(i + 1)) =~= ascii_lower(s@.take(i as int)).push(
                lower_char(s@[i as int]),
            ));
        }
        i = i + 1;
    }
    proof {
        assert(s@.take(s@.len() as int) =~= s@);
    }
    out
}

/// Whether two character sequences are equal.
pub fn chars_eq(a: &[char], b: &[char]) -> (r: bool)
    ensures
        r == (a@ == b@),
{
    if a.len() != b.len() {
        return false;
    }
    let mut i: usize = 0;
    while i < a.len()
        invariant
            0 <= i <= a@.len(),
            a@.len() == b@.len(),
            forall|k: int| 0 <= k < i ==> a@[k] == b@[k],
        decreases a@.len() - i,
    {
        if a[i] != b[i] {
            return false;
        }
        i = i + 1;
    }
    proof {
        assert(a@ =~= b@);
    }
    true
}

/// Whether a character sequence spells the given string.
pub fn chars_eq_str(a: &[char], b: &str) -> (r: bool)
    ensures
        r == (a@ == b@),
{
    let bv = chars_of(b);
    chars_eq(a, bv.as_slice())
}

pub fn contains_char(s: &[char], c: char) -> (r: bool)
    ensures
        r == s@.contains(c),
{
    let mut i: usize = 0;
    while i < s.len()
        invariant
            0 <= i <= s@.len(),
            forall|k: int| 0 <= k < i ==> s@[k] != c,
        decreases s@.len() - i,
    {
        if s[i] == c {
            assert(s@[i as int] == c);
            return true;
        }
        i = i + 1;
    }
    false
}

pub fn is_all_digits(s: &[char]) -> (r: bool)
    ensures
        r == all_digits(s@),
{
    let mut i: usize = 0;
    while i < s.len()
        invariant
            0 <= i <= s@.len(),
            forall|k: int| 0 <= k < i ==> is_digit(#[trigger] s@[k]),
        decreases s@.len() - i,
    {
        let c = s[i];
        if !('0' <= c && c <= '9') {
            return false;
        }
        i = i + 1;
    }
    true
}

/// Concatenation of two character vectors.
pub fn concat_chars(a: &[char], b: &[char]) -> (r: Vec<char>)
    ensures
        r@ == a@ + b@,
{
    let mut out = slice_to_vec(a, 0, a.len());
    let mut i: usize = 0;
    while i < b.len()
        invariant
            0 <= i <= b@.len(),
            out@ == a@ + b@.take(i as int),
        decreases b@.len() - i,
    {
        out.push(b[i]);
        proof {
            assert(a@ + b@.take(i + 1) =~= (a@ + b@.take(i as int)).push(b@[i as int]));
        }
        i = i + 1;
    }
    proof {
        assert(b@.take(b@.len() as int) =~= b@);
    }
    out
}

/// `str::starts_with`.
pub open spec fn has_prefix(s: Seq<char>, p: Seq<char>) -> bool {
    p.len() <= s.len() && s.take(p.len() as int) == p
}

pub fn starts_with_str(s: &[char], p: &str) -> (r: bool)
    ensures
        r == has_prefix(s@, p@),
{
    let pv = chars_of(p);
    if pv.len() > s.len() {
        return false;
    }
    let head = slice_to_vec(s, 0, pv.len());
    proof {
        assert(head@ =~= s@.take(pv@.len() as int));
    }
    chars_eq(head.as_slice(), pv.as_slice())
}

// ---------------------------------------------------------------- listen

/// A listen address as written in a configuration file: a bare port means
/// every IPv4 interface, anything with a colon is kept as it is.
pub open spec fn normalized_listen(raw: Seq<char>) -> Seq<char> {
    if raw.contains(':') {
        raw
    } else if all_digits(raw) {
        "0.0.0.0:"@ + raw
    } else {
        raw
    }
}

pub fn normalize_listen(raw: &[char]) -> (r: Vec<char>)
    ensures
        r@ == normalized_listen(raw@),
{
    if contains_char(raw, ':') {
        slice_to_vec(raw, 0, raw.len())
    } else if is_all_digits(raw) {
        let prefix = chars_of("0.0.0.0:");
        concat_chars(prefix.as_slice(), raw)
    } else {
        slice_to_vec(raw, 0, raw.len())
    }
}


// ---------------------------------------------------------------- numbers

pub open spec fn digit_val(c: char) -> nat {
    ((c as u32) - ('0' as u32)) as nat
}

/// Value of a string of decimal digits.
pub open spec fn digits_value(s: Seq<char>) -> nat
    decreases s.len(),
{
    if s.len() == 0 {
        0
    } else {
        digits_value(s.drop_last()) * 10 + digit_val(s.last())
    }
}

/// The digit part of an unsigned integer literal: one leading `+` is allowed.
pub open spec fn unsigned_digits(s: Seq<char>) -> Seq<char> {
    if s.len() > 0 && s[0] == '+' {
        s.drop_first()
    } else {
        s
    }
}

/// `FromStr` for an unsigned integer type whose largest value is `max`.
pub open spec fn parse_unsigned(s: Seq<char>, max: nat) -> Option<nat> {
    let d = unsigned_digits(s);
    if d.len() > 0 && all_digits(d) && digits_value(d) <= max {
        Some(digits_value(d))
    } else {
        None
    }
}

proof fn lemma_digits_value_grows(s: Seq<char>, i: int, j: int)
    requires
        0 <= i <= j <= s.len(),
        all_digits(s),
    ensures
        digits_value(s.take(i)) <= digits_value(s.take(j)),
    decreases j - i,
{
    if i < j {
        lemma_digits_value_grows(s, i, j - 1);
        assert(s.take(j).drop_last() =~= s.take(j - 1));
    }
}

/// `u64::from_str`.
pub fn parse_u64(s: &[char]) -> (r: Option<u64>)
    ensures
        r matches Some(v) ==> parse_unsigned(s@, u64::MAX as nat) == Some(v as nat),
        r is None ==> parse_unsigned(s@, u64::MAX as nat) is None,
{
    let start: usize = if s.len() > 0 && s[0] == '+' { 1 } else { 0 };
    let ghost d = unsigned_digits(s@);
    proof {
        assert(d =~= s@.subrange(start as int, s@.len() as int));
    }
    if start >= s.len() {
        return None;
    }
    if !is_all_digits_from(s, start) {
        return None;
    }
    let mut v: u64 = 0;
    let mut i: usize = start;
    while i < s.len()
        invariant
            start <= i <= s@.len(),
            d == s@.subrange(start as int, s@.len() as int),
            d == unsigned_digits(s@),
            all_digits(d),
            v as nat == digits_value(d.take(i - start)),
        decreases s@.len() - i,
    {
        let c = s[i];
        assert(d[i - start] == c);
        let dv = (c as u32 - '0' as u32) as u64;
        proof {
            assert(d.take(i - start + 1).drop_last() =~= d.take(i - start));
            assert(d.take(i - start + 1).last() == c);
            assert(digit_val(c) == dv);
            assert(digits_value(d.take(i - start + 1)) == v * 10 + dv);
        }
        match v.checked_mul(10) {
            None => {
                proof {
                    assert(v * 10 > u64::MAX);
                    lemma_digits_value_grows(d, i - start + 1, d.len() as int);
                    assert(d.take(d.len() as int) =~= d);
                    assert(digits_value(d) > u64::MAX);
                }
                return None;
            },
            Some(t) => match t.checked_add(dv) {
                None => {
                    proof {
                        lemma_digits_value_grows(d, i - start + 1, d.len() as int);
                        assert(d.take(d.len() as int) =~= d);
                    }
                    return None;
                },
                Some(n) => {
                    v = n;
                },
            },
        }
        i = i + 1;
    }
    proof {
        assert(d.take(d.len() as int) =~= d);
    }
    Some(v)
}

/// Whether every character of `s[start..]` is a decimal digit.
fn is_all_digits_from(s: &[char], start: usize) -> (r: bool)
    requires
        start <= s@.len(),
    ensures
        r == all_digits(s@.subrange(start as int, s@.len() as int)),
{
    let mut i: usize = start;
    while i < s.len()
        invariant
            start <= i <= s@.len(),
            forall|k: int| start <= k < i ==> is_digit(#[trigger] s@[k]),
        decreases s@.len() - i,
    {
        let c = s[i];
        if !('0' <= c && c <= '9') {
            proof {
                let t = s@.subrange(start as int, s@.len() as int);
                assert(t[i - start] == c);
            }
            return false;
        }
        i = i + 1;
    }
    proof {
        let t = s@.subrange(start as int, s@.len() as int);
        assert forall|k: int| 0 <= k < t.len() implies is_digit(#[trigger] t[k]) by {
            assert(t[k] == s@[k + start]);
        }
    }
    true
}

/// `u32::from_str`.
pub fn parse_u32(s: &[char]) -> (r: Option<u32>)
    ensures
        r matches Some(v) ==> parse_unsigned(s@, u32::MAX as nat) == Some(v as nat),
        r is None ==> parse_unsigned(s@, u32::MAX as nat) is None,
{
    match parse_u64(s) {
        Some(v) => {
            if v <= u32::MAX as u64 {
                Some(v as u32)
            } else {
                None
            }
        },
        None => None,
    }
}

/// The digit character for `d < 16`, lowercase for letters.
pub open spec fn digit_char(d: nat) -> char {
    if d < 10 {
        ((d + ('0' as nat)) as u32) as char
    } else {
        ((d - 10 + ('a' as nat)) as u32) as char
    }
}

/// Positional notation of `n` in `base` (10 or 16), most significant first,
/// as `Display` and `LowerHex` print it.
pub open spec fn radix_string(n: nat, base: nat) -> Seq<char>
    decreases n,
{
    if base < 2 || n < base {
        seq![digit_char(n)]
    } else {
        proof {
            assert(n / base < n) by (nonlinear_arith)
                requires
                    base >= 2,
                    n >= base,
            ;
        }
        radix_string(n / base, base).push(digit_char(n % base))
    }
}

pub open spec fn dec_string(n: nat) -> Seq<char> {
    radix_string(n, 10)
}

pub open spec fn hex_string(n: nat) -> Seq<char> {
    radix_string(n, 16)
}

fn digit_to_char(d: u64) -> (c: char)
    requires
        d < 16,
    ensures
        c == digit_char(d as nat),
{
    if d < 10 {
        ((d as u8) + 48) as char
    } else {
        ((d as u8) - 10 + 97) as char
    }
}

/// Appends `n` written in `base` (10 or 16).
pub fn push_radix(out: &mut Vec<char>, n: u64, base: u64)
    requires
        base == 10 || base == 16,
    ensures
        final(out)@ == old(out)@ + radix_string(n as nat, base as nat),
    decreases n,
{
    if n >= base {
        push_radix(out, n / base, base);
    }
    out.push(digit_to_char(n % base));
    proof {
        if n < base {
            assert(n % base == n);
        }
        assert(out@ =~= old(out)@ + radix_string(n as nat, base as nat));
    }
}

/// Appends the decimal form of `n`.
pub fn push_decimal(out: &mut Vec<char>, n: u64)
    ensures
        final(out)@ == old(out)@ + dec_string(n as nat),
{
    push_radix(out, n, 10);
}

/// Appends a string literal.
pub fn push_str(out: &mut Vec<char>, s: &str)
    ensures
        final(out)@ == old(out)@ + s@,
{
    let t = chars_of(s);
    let mut i: usize = 0;
    let ghost start = out@;
    while i < t.len()
        invariant
            0 <= i <= t@.len(),
            out@ == start + t@.take(i as int),
        decreases t@.len() - i,
    {
        out.push(t[i]);
        proof {
            assert(start + t@.take(i + 1) =~= (start + t@.take(i as int)).push(t@[i as int]));
        }
        i = i + 1;
    }
    proof {
        assert(t@.take(t@.len() as int) =~= t@);
    }
}

/// Appends a character slice.
pub fn push_chars(out: &mut Vec<char>, s: &[char])
    ensures
        final(out)@ == old(out)@ + s@,
{
    let mut i: usize = 0;
    let ghost start = out@;
    while i < s.len()
        invariant
            0 <= i <= s@.len(),
            out@ == start + s@.take(i as int),
        decreases s@.len() - i,
    {
        out.push(s[i]);
        proof {
            assert(start + s@.take(i + 1) =~= (start + s@.take(i as int)).push(s@[i as int]));
        }
        i = i + 1;
    }
    proof {
        assert(s@.take(s@.len() as int) =~= s@);
    }
}


// ------------------------------------------------------------ conversions

/// `v.deep_view()[k]` is the view of the `k`-th vector.
pub proof fn lemma_deep_view_index(v: Vec<Vec<char>>, k: int)
    requires
        0 <= k < v@.len(),
    ensures
        v.deep_view()[k] == v@[k]@,
{
    assert(v.deep_view()[k] =~= v@[k]@);
}

/// Appends a string to a vector of strings, tracking the deep view.
pub fn push_string(out: &mut Vec<String>, t: String)
    ensures
        final(out).deep_view() == old(out).deep_view().push(t@),
{
    let ghost tv = t@;
    out.push(t);
    proof {
        assert(out.deep_view() =~= old(out).deep_view().push(tv));
    }
}

/// Strings holding the character vectors `v[from..]`.
pub fn strings_of(v: &[Vec<char>], from: usize) -> (r: Vec<String>)
    requires
        from <= v@.len(),
    ensures
        r.deep_view() == Seq::new((v@.len() - from) as nat, |i: int| v@[i + from]@),
{
    let mut out: Vec<String> = Vec::new();
    let mut i: usize = from;
    while i < v.len()
        invariant
            from <= i <= v@.len(),
            out.deep_view() == Seq::new((i - from) as nat, |k: int| v@[k + from]@),
        decreases v@.len() - i,
    {
        let s = string_of(v[i].as_slice());
        push_string(&mut out, s);
        proof {
            assert(Seq::new((i + 1 - from) as nat, |k: int| v@[k + from]@) =~= Seq::new(
                (i - from) as nat,
                |k: int| v@[k + from]@,
            ).push(v@[i as int]@));
        }
        i = i + 1;
    }
    out
}

/// A listen address that holds a `:` is kept as written; a bare port (only
/// digits) listens on every IPv4 address, `0.0.0.0:<port>`.
pub proof fn law_bare_port_listens_everywhere(raw: Seq<char>)
    ensures
        raw.contains(':') ==> normalized_listen(raw) == raw,
        !raw.contains(':') && raw.len() > 0 && all_digits(raw) ==> normalized_listen(raw) == "0.0.0.0:"@
            + raw,
        !raw.contains(':') && !all_digits(raw) ==> normalized_listen(raw) == raw,
{
}

} // verus!
