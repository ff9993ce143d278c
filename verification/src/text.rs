//! Small text utilities for the command dispatcher and the connection
//! protocol: whitespace-delimited tokens, trimming, decimal rendering and
//! character-wise string equality.

use vstd::prelude::*;
use vstd::string::StrSliceExecFns;

verus! {

/// The characters the dispatcher treats as whitespace.
pub open spec fn spec_is_ws(c: char) -> bool {
    c == ' ' || c == '\t' || c == '\r' || c == '\n'
}

/// The first position at or after `i` holding a non-whitespace character,
/// or the end.
pub open spec fn spec_ws_end(s: Seq<char>, i: int) -> int
    decreases s.len() - i,
    when 0 <= i <= s.len()
{
    if i >= s.len() {
        i
    } else if spec_is_ws(s[i]) {
        spec_ws_end(s, i + 1)
    } else {
        i
    }
}

/// The first position at or after `i` holding a whitespace character, or
/// the end.
pub open spec fn spec_word_end(s: Seq<char>, i: int) -> int
    decreases s.len() - i,
    when 0 <= i <= s.len()
{
    if i >= s.len() {
        i
    } else if spec_is_ws(s[i]) {
        i
    } else {
        spec_word_end(s, i + 1)
    }
}

/// Where the whitespace scan lands: between `i` and the end, on a
/// non-whitespace character unless it is the end.
pub proof fn lemma_ws_end(s: Seq<char>, i: int)
    requires
        0 <= i <= s.len(),
    ensures
        i <= spec_ws_end(s, i) <= s.len(),
        spec_ws_end(s, i) < s.len() ==> !spec_is_ws(s[spec_ws_end(s, i)]),
    decreases s.len() - i,
{
    if i < s.len() && spec_is_ws(s[i]) {
        lemma_ws_end(s, i + 1);
    }
}

/// Where the word scan lands: between `i` and the end, on a whitespace
/// character unless it is the end.
pub proof fn lemma_word_end(s: Seq<char>, i: int)
    requires
        0 <= i <= s.len(),
    ensures
        i <= spec_word_end(s, i) <= s.len(),
    decreases s.len() - i,
{
    if i < s.len() && !spec_is_ws(s[i]) {
        lemma_word_end(s, i + 1);
    }
}

/// The position where the `k`-th whitespace-delimited token starts, or the
/// string's end where there is no such token.
pub open spec fn spec_tok_start(s: Seq<char>, k: int) -> int
    decreases k,
    when k >= 0
{
    if k == 0 {
        spec_ws_end(s, 0)
    } else {
        let prev = spec_tok_start(s, k - 1);
        if 0 <= prev <= s.len() {
            spec_ws_end(s, spec_word_end(s, prev))
        } else {
            s.len() as int
        }
    }
}

/// Whether the line has a `k`-th whitespace-delimited token.
pub open spec fn spec_has_token(s: Seq<char>, k: int) -> bool {
    spec_tok_start(s, k) < s.len()
}

/// The `k`-th whitespace-delimited token.
pub open spec fn spec_token(s: Seq<char>, k: int) -> Seq<char> {
    s.subrange(spec_tok_start(s, k), spec_word_end(s, spec_tok_start(s, k)))
}

/// Token starts lie within the string.
pub proof fn lemma_tok_start(s: Seq<char>, k: int)
    requires
        k >= 0,
    ensures
        0 <= spec_tok_start(s, k) <= s.len(),
    decreases k,
{
    if k == 0 {
        lemma_ws_end(s, 0);
    } else {
        lemma_tok_start(s, k - 1);
        lemma_word_end(s, spec_tok_start(s, k - 1));
        lemma_ws_end(s, spec_word_end(s, spec_tok_start(s, k - 1)));
    }
}

/// Whether two strings hold the same characters.
pub fn str_eq(a: &str, b: &str) -> (r: bool)
    ensures
        r == (a@ == b@),
{
    let sa = a.to_owned();
    let sb = b.to_owned();
    sa == sb
}

/// Whether this character counts as whitespace here.
pub fn is_ws(c: char) -> (r: bool)
    ensures
        r == spec_is_ws(c),
{
    c == ' ' || c == '\t' || c == '\r' || c == '\n'
}

/// The position where the leading whitespace run starting at `i` ends.
fn skip_ws(s: &str, i: usize) -> (j: usize)
    requires
        i <= s@.len(),
    ensures
        j == spec_ws_end(s@, i as int),
        i <= j <= s@.len(),
{
    let n = s.unicode_len();
    let mut j = i;
    while j < n
        invariant
            i <= j <= n,
            n == s@.len(),
            spec_ws_end(s@, i as int) == spec_ws_end(s@, j as int),
        decreases n - j,
    {
        if !is_ws(s.get_char(j)) {
            return j;
        }
        j = j + 1;
    }
    j
}

/// The position where the word starting at `i` ends.
fn skip_word(s: &str, i: usize) -> (j: usize)
    requires
        i <= s@.len(),
    ensures
        j == spec_word_end(s@, i as int),
        i <= j <= s@.len(),
{
    let n = s.unicode_len();
    let mut j = i;
    while j < n
        invariant
            i <= j <= n,
            n == s@.len(),
            spec_word_end(s@, i as int) == spec_word_end(s@, j as int),
        decreases n - j,
    {
        if is_ws(s.get_char(j)) {
            return j;
        }
        j = j + 1;
    }
    j
}

/// The `k`-th whitespace-delimited token of the line, or `None` where the
/// line has fewer tokens.
pub fn nth_token(s: &str, k: usize) -> (r: Option<String>)
    ensures
        r is Some <==> spec_has_token(s@, k as int),
        r matches Some(t) ==> t@ == spec_token(s@, k as int),
{
    let mut start = skip_ws(s, 0);
    let mut t: usize = 0;
    while t < k
        invariant
            t <= k,
            start == spec_tok_start(s@, t as int),
            start <= s@.len(),
        decreases k - t,
    {
        let we = skip_word(s, start);
        start = skip_ws(s, we);
        t = t + 1;
    }
    let n = s.unicode_len();
    if start == n {
        proof {
            lemma_tok_start(s@, k as int);
        }
        None
    } else {
        let e = skip_word(s, start);
        Some(s.substring_char(start, e).to_owned())
    }
}

/// The line without leading and trailing whitespace: empty where it is all
/// whitespace, else the span from its first to its last non-whitespace
/// character.
pub open spec fn spec_trim(s: Seq<char>) -> Seq<char> {
    let a = spec_ws_end(s, 0);
    let b = spec_rstrip(s, s.len() as int);
    if a >= b {
        Seq::empty()
    } else {
        s.subrange(a, b)
    }
}

/// The position after the last non-whitespace character at or before `i`.
pub open spec fn spec_rstrip(s: Seq<char>, i: int) -> int
    decreases i,
    when 0 <= i <= s.len()
{
    if i <= 0 {
        0
    } else if spec_is_ws(s[i - 1]) {
        spec_rstrip(s, i - 1)
    } else {
        i
    }
}

/// The line with leading and trailing whitespace removed.
pub fn trim(s: &str) -> (r: String)
    ensures
        r@ == spec_trim(s@),
{
    let n = s.unicode_len();
    let a = skip_ws(s, 0);
    let mut b = n;
    while b > 0
        invariant
            0 <= b <= n,
            n == s@.len(),
            spec_rstrip(s@, n as int) == spec_rstrip(s@, b as int),
        ensures
            0 <= b <= n,
            spec_rstrip(s@, n as int) == spec_rstrip(s@, b as int),
            b > 0 ==> !spec_is_ws(s@[b - 1]),
        decreases b,
    {
        if !is_ws(s.get_char(b - 1)) {
            break ;
        }
        b = b - 1;
    }
    proof {
        assert(spec_rstrip(s@, b as int) == b);
    }
    if a >= b {
        let r = String::new();
        proof {
            assert(r@ =~= spec_trim(s@));
        }
        r
    } else {
        s.substring_char(a, b).to_owned()
    }
}

/// One decimal digit as a character.
pub open spec fn spec_digit(d: int) -> char
    recommends
        0 <= d < 10,
{
    if d == 0 {
        '0'
    } else if d == 1 {
        '1'
    } else if d == 2 {
        '2'
    } else if d == 3 {
        '3'
    } else if d == 4 {
        '4'
    } else if d == 5 {
        '5'
    } else if d == 6 {
        '6'
    } else if d == 7 {
        '7'
    } else if d == 8 {
        '8'
    } else {
        '9'
    }
}

/// The decimal digits of a number, most significant first, no leading
/// zeroes except for zero itself.
pub open spec fn spec_dec(n: int) -> Seq<char>
    decreases n,
    when n >= 0
{
    if n < 10 {
        seq![spec_digit(n)]
    } else {
        spec_dec(n / 10) + seq![spec_digit(n % 10)]
    }
}

/// One decimal digit as a one-character string.
fn digit_str(d: usize) -> (r: &'static str)
    requires
        d < 10,
    ensures
        r@ == seq![spec_digit(d as int)],
{
    proof {
        reveal_strlit("0");
        reveal_strlit("1");
        reveal_strlit("2");
        reveal_strlit("3");
        reveal_strlit("4");
        reveal_strlit("5");
        reveal_strlit("6");
        reveal_strlit("7");
        reveal_strlit("8");
        reveal_strlit("9");
    }
    let r = if d == 0 {
        "0"
    } else if d == 1 {
        "1"
    } else if d == 2 {
        "2"
    } else if d == 3 {
        "3"
    } else if d == 4 {
        "4"
    } else if d == 5 {
        "5"
    } else if d == 6 {
        "6"
    } else if d == 7 {
        "7"
    } else if d == 8 {
        "8"
    } else {
        "9"
    };
    proof {
        assert(r@ =~= seq![spec_digit(d as int)]);
    }
    r
}

/// A number rendered in decimal.
pub fn dec_string(n: usize) -> (r: String)
    ensures
        r@ == spec_dec(n as int),
    decreases n,
{
    let d = digit_str(n % 10);
    if n < 10 {
        d.to_owned()
    } else {
        let mut r = dec_string(n / 10);
        r.append(d);
        r
    }
}

} // verus!
