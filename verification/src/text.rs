use vstd::prelude::*;
use vstd::string::StrSliceExecFns;
use vstd::string::StringExecFns;

verus! {

/// The characters treated as whitespace when splitting a span into tokens
/// and when restoring the whitespace around an annotated span.  This is the
/// Unicode `White_Space` set, written out so that every claim about
/// whitespace is a claim about this one definition.
pub open spec fn is_space_spec(c: char) -> bool {
    ||| c == '\u{0009}'
    ||| c == '\u{000a}'
    ||| c == '\u{000b}'
    ||| c == '\u{000c}'
    ||| c == '\u{000d}'
    ||| c == ' '
    ||| c == '\u{0085}'
    ||| c == '\u{00a0}'
    ||| c == '\u{1680}'
    ||| c == '\u{2000}'
    ||| c == '\u{2001}'
    ||| c == '\u{2002}'
    ||| c == '\u{2003}'
    ||| c == '\u{2004}'
    ||| c == '\u{2005}'
    ||| c == '\u{2006}'
    ||| c == '\u{2007}'
    ||| c == '\u{2008}'
    ||| c == '\u{2009}'
    ||| c == '\u{200a}'
    ||| c == '\u{2028}'
    ||| c == '\u{2029}'
    ||| c == '\u{202f}'
    ||| c == '\u{205f}'
    ||| c == '\u{3000}'
}

pub fn is_space(c: char) -> (r: bool)
    ensures
        r == is_space_spec(c),
{
    c == '\u{0009}' || c == '\u{000a}' || c == '\u{000b}' || c == '\u{000c}' || c == '\u{000d}'
        || c == ' ' || c == '\u{0085}' || c == '\u{00a0}' || c == '\u{1680}' || (c >= '\u{2000}'
        && c <= '\u{200a}') || c == '\u{2028}' || c == '\u{2029}' || c == '\u{202f}'
        || c == '\u{205f}' || c == '\u{3000}'
}

/// The punctuation characters stripped from the ends of a token before a
/// dictionary lookup; the stripped runs are kept and re-attached around the
/// annotated core.
pub open spec fn is_punct_spec(c: char) -> bool {
    ||| c == ' '
    ||| c == '`'
    ||| c == '\u{2026}'
    ||| c == '*'
    ||| c == '\u{2022}'
    ||| c == '.'
    ||| c == '?'
    ||| c == '!'
    ||| c == '\u{201c}'
    ||| c == '\u{201d}'
    ||| c == '\u{2018}'
    ||| c == '\u{2019}'
    ||| c == '"'
    ||| c == ','
    ||| c == ':'
    ||| c == ';'
    ||| c == '('
    ||| c == ')'
    ||| c == '['
    ||| c == ']'
    ||| c == '{'
    ||| c == '}'
    ||| c == '<'
    ||| c == '>'
    ||| c == '\''
    ||| c == '-'
    ||| c == '&'
    ||| c == '#'
    ||| c == '~'
}

pub fn is_punct(c: char) -> (r: bool)
    ensures
        r == is_punct_spec(c),
{
    c == ' ' || c == '`' || c == '\u{2026}' || c == '*' || c == '\u{2022}' || c == '.' || c == '?'
        || c == '!' || c == '\u{201c}' || c == '\u{201d}' || c == '\u{2018}' || c == '\u{2019}'
        || c == '"' || c == ',' || c == ':' || c == ';' || c == '(' || c == ')' || c == '['
        || c == ']' || c == '{' || c == '}' || c == '<' || c == '>' || c == '\'' || c == '-'
        || c == '&' || c == '#' || c == '~'
}

/// First index at or after `i` whose character is not whitespace, or the end.
pub open spec fn skip_spaces(s: Seq<char>, i: int) -> int
    decreases s.len() - i
    when 0 <= i <= s.len()
{
    if i >= s.len() {
        i
    } else if is_space_spec(s[i]) {
        skip_spaces(s, i + 1)
    } else {
        i
    }
}

pub proof fn lemma_skip_spaces(s: Seq<char>, i: int)
    requires
        0 <= i <= s.len(),
    ensures
        i <= skip_spaces(s, i) <= s.len(),
        forall|j: int| i <= j < skip_spaces(s, i) ==> is_space_spec(s[j]),
        skip_spaces(s, i) < s.len() ==> !is_space_spec(s[skip_spaces(s, i)]),
    decreases s.len() - i,
{
    if i < s.len() && is_space_spec(s[i]) {
        lemma_skip_spaces(s, i + 1);
    }
}

/// First index at or after `i` whose character is whitespace, or the end:
/// the end of the token that starts at `i`.
pub open spec fn skip_non_spaces(s: Seq<char>, i: int) -> int
    decreases s.len() - i
    when 0 <= i <= s.len()
{
    if i >= s.len() {
        i
    } else if !is_space_spec(s[i]) {
        skip_non_spaces(s, i + 1)
    } else {
        i
    }
}

pub proof fn lemma_skip_non_spaces(s: Seq<char>, i: int)
    requires
        0 <= i <= s.len(),
    ensures
        i <= skip_non_spaces(s, i) <= s.len(),
        forall|j: int| i <= j < skip_non_spaces(s, i) ==> !is_space_spec(s[j]),
        skip_non_spaces(s, i) < s.len() ==> is_space_spec(s[skip_non_spaces(s, i)]),
    decreases s.len() - i,
{
    if i < s.len() && !is_space_spec(s[i]) {
        lemma_skip_non_spaces(s, i + 1);
    }
}

/// First index at or after `i` whose character is not in the punctuation
/// set, or the end.
pub open spec fn skip_punct(s: Seq<char>, i: int) -> int
    decreases s.len() - i
    when 0 <= i <= s.len()
{
    if i >= s.len() {
        i
    } else if is_punct_spec(s[i]) {
        skip_punct(s, i + 1)
    } else {
        i
    }
}

pub proof fn lemma_skip_punct(s: Seq<char>, i: int)
    requires
        0 <= i <= s.len(),
    ensures
        i <= skip_punct(s, i) <= s.len(),
        forall|j: int| i <= j < skip_punct(s, i) ==> is_punct_spec(s[j]),
        skip_punct(s, i) < s.len() ==> !is_punct_spec(s[skip_punct(s, i)]),
    decreases s.len() - i,
{
    if i < s.len() && is_punct_spec(s[i]) {
        lemma_skip_punct(s, i + 1);
    }
}

/// Largest index `b` with `a <= b <= j` such that the character just before
/// `b` is not whitespace (or `a` when everything in `a..j` is whitespace).
pub open spec fn rskip_spaces(s: Seq<char>, a: int, j: int) -> int
    decreases j - a
    when 0 <= a <= j <= s.len()
{
    if j <= a {
        a
    } else if is_space_spec(s[j - 1]) {
        rskip_spaces(s, a, j - 1)
    } else {
        j
    }
}

pub proof fn lemma_rskip_spaces(s: Seq<char>, a: int, j: int)
    requires
        0 <= a <= j <= s.len(),
    ensures
        a <= rskip_spaces(s, a, j) <= j,
        forall|k: int| rskip_spaces(s, a, j) <= k < j ==> is_space_spec(s[k]),
        rskip_spaces(s, a, j) > a ==> !is_space_spec(s[rskip_spaces(s, a, j) - 1]),
    decreases j - a,
{
    if j > a && is_space_spec(s[j - 1]) {
        lemma_rskip_spaces(s, a, j - 1);
    }
}

/// Largest index `b` with `a <= b <= j` such that the character just before
/// `b` is not punctuation (or `a` when everything in `a..j` is punctuation).
pub open spec fn rskip_punct(s: Seq<char>, a: int, j: int) -> int
    decreases j - a
    when 0 <= a <= j <= s.len()
{
    if j <= a {
        a
    } else if is_punct_spec(s[j - 1]) {
        rskip_punct(s, a, j - 1)
    } else {
        j
    }
}

pub proof fn lemma_rskip_punct(s: Seq<char>, a: int, j: int)
    requires
        0 <= a <= j <= s.len(),
    ensures
        a <= rskip_punct(s, a, j) <= j,
        forall|k: int| rskip_punct(s, a, j) <= k < j ==> is_punct_spec(s[k]),
        rskip_punct(s, a, j) > a ==> !is_punct_spec(s[rskip_punct(s, a, j) - 1]),
    decreases j - a,
{
    if j > a && is_punct_spec(s[j - 1]) {
        lemma_rskip_punct(s, a, j - 1);
    }
}

/// The sequence with the whitespace removed from both ends.
pub open spec fn trim_spec(s: Seq<char>) -> Seq<char> {
    let a = skip_spaces(s, 0);
    let b = rskip_spaces(s, a, s.len() as int);
    s.subrange(a, b)
}

/// The tokens of `s` from index `i` on: the maximal runs of non-whitespace
/// characters, in order.
pub open spec fn split_ws_from(s: Seq<char>, i: int) -> Seq<Seq<char>>
    decreases s.len() - i
    when 0 <= i <= s.len()
    via split_ws_from_dec
{
    if i >= s.len() {
        seq![]
    } else if is_space_spec(s[i]) {
        split_ws_from(s, i + 1)
    } else {
        seq![s.subrange(i, skip_non_spaces(s, i))] + split_ws_from(s, skip_non_spaces(s, i))
    }
}

#[via_fn]
proof fn split_ws_from_dec(s: Seq<char>, i: int) {
    if 0 <= i && i < s.len() && !is_space_spec(s[i]) {
        lemma_skip_non_spaces(s, i);
    }
}

/// The tokens of the whole sequence.
pub open spec fn tokens_of(s: Seq<char>) -> Seq<Seq<char>> {
    split_ws_from(s, 0)
}

/// Every token is a non-empty run without whitespace.
pub proof fn lemma_split_ws_from_tokens(s: Seq<char>, i: int)
    requires
        0 <= i <= s.len(),
    ensures
        forall|t: int|
            0 <= t < split_ws_from(s, i).len() ==> (#[trigger] split_ws_from(s, i)[t]).len() > 0,
        forall|t: int, k: int|
            0 <= t < split_ws_from(s, i).len() && 0 <= k < split_ws_from(s, i)[t].len()
                ==> !is_space_spec(#[trigger] split_ws_from(s, i)[t][k]),
    decreases s.len() - i,
{
    if i >= s.len() {
        assert(split_ws_from(s, i).len() == 0);
    } else if is_space_spec(s[i]) {
        lemma_split_ws_from_tokens(s, i + 1);
        assert(split_ws_from(s, i) == split_ws_from(s, i + 1));
    } else {
        lemma_skip_non_spaces(s, i);
        let e = skip_non_spaces(s, i);
        lemma_split_ws_from_tokens(s, e);
        let toks = split_ws_from(s, i);
        let rest = split_ws_from(s, e);
        assert(toks == seq![s.subrange(i, e)] + rest);
        assert(toks[0] == s.subrange(i, e));
        assert(forall|t: int| 1 <= t < toks.len() ==> toks[t] == rest[t - 1]);
        assert forall|t: int| 0 <= t < toks.len() implies (#[trigger] toks[t]).len() > 0 by {
            if t == 0 {
                assert(toks[0].len() == e - i);
            } else {
                assert(toks[t] == rest[t - 1]);
            }
        }
        assert forall|t: int, k: int|
            0 <= t < toks.len() && 0 <= k < toks[t].len() implies !is_space_spec(
            #[trigger] toks[t][k],
        ) by {
            if t == 0 {
                assert(toks[0][k] == s[i + k]);
            } else {
                assert(toks[t][k] == rest[t - 1][k]);
            }
        }
    }
}

pub open spec fn is_digit(c: char) -> bool {
    '0' <= c && c <= '9'
}

pub open spec fn digit_val(c: char) -> int {
    c as int - '0' as int
}

pub open spec fn all_digits(s: Seq<char>, i: int, j: int) -> bool {
    forall|k: int| i <= k < j ==> is_digit(#[trigger] s[k])
}

/// The value of the decimal digits `s[i..j]`, read left to right.
pub open spec fn dec_val(s: Seq<char>, i: int, j: int) -> int
    decreases j - i
    when 0 <= i <= j <= s.len()
{
    if j <= i {
        0
    } else {
        dec_val(s, i, j - 1) * 10 + digit_val(s[j - 1])
    }
}

pub proof fn lemma_dec_val_bounds(s: Seq<char>, i: int, j: int)
    requires
        0 <= i <= j <= s.len(),
        all_digits(s, i, j),
    ensures
        dec_val(s, i, j) >= 0,
        j > i && dec_val(s, i, j - 1) > 2147483648 ==> dec_val(s, i, j) > 2147483648,
    decreases j - i,
{
    if j > i {
        lemma_dec_val_bounds(s, i, j - 1);
    }
}

/// What parsing a decimal integer means: an optional sign, then at least one
/// digit, and a value inside the range of `i32`.
pub open spec fn parse_i32_spec(s: Seq<char>) -> Option<i32> {
    let neg = s.len() > 0 && s[0] == '-';
    let start: int = if s.len() > 0 && (s[0] == '-' || s[0] == '+') {
        1
    } else {
        0
    };
    if start >= s.len() || !all_digits(s, start, s.len() as int) {
        None
    } else {
        let m = dec_val(s, start, s.len() as int);
        let v: int = if neg {
            -m
        } else {
            m
        };
        if -2147483648 <= v <= 2147483647 {
            Some(v as i32)
        } else {
            None
        }
    }
}

/// Parses a decimal integer from a string.  A sign, digits and the `i32`
/// range are the whole grammar.
pub fn parse_i32(text: &str) -> (r: Option<i32>)
    ensures
        r == parse_i32_spec(text@),
{
    let n: usize = text.unicode_len();
    let ghost s = text@;
    let mut start: usize = 0;
    let mut neg: bool = false;
    if n > 0 && (text.get_char(0) == '-' || text.get_char(0) == '+') {
        start = 1;
        neg = text.get_char(0) == '-';
    }
    if start >= n {
        return None;
    }
    let mut i: usize = start;
    let mut acc: i64 = 0;
    while i < n
        invariant
            start <= i <= n,
            n == s.len(),
            s == text@,
            start == (if s.len() > 0 && (s[0] == '-' || s[0] == '+') {
                1int
            } else {
                0int
            }),
            neg == (s.len() > 0 && s[0] == '-'),
            start < n,
            all_digits(s, start as int, i as int),
            0 <= acc <= 2147483648,
            acc == dec_val(s, start as int, i as int),
        decreases n - i,
    {
        let c = text.get_char(i);
        if !(c >= '0' && c <= '9') {
            proof {
                assert(!all_digits(s, start as int, s.len() as int));
            }
            return None;
        }
        let d: i64 = (c as u32 as i64) - ('0' as u32 as i64);
        assert(d == digit_val(s[i as int]));
        acc = acc * 10 + d;
        i = i + 1;
        if acc > 2147483648 {
            proof {
                lemma_dec_val_overflow(s, start as int, i as int, n as int);
            }
            return None;
        }
    }
    if neg {
        let v: i64 = -acc;
        assert(-2147483648 <= v <= 2147483648);
        if v < -2147483648 {
            return None;
        }
        Some(v as i32)
    } else {
        if acc > 2147483647 {
            return None;
        }
        Some(acc as i32)
    }
}

/// First character index at or after `from` that is not whitespace.
pub fn scan_spaces(s: &str, from: usize) -> (r: usize)
    requires
        from as int <= s@.len(),
    ensures
        r as int == skip_spaces(s@, from as int),
        from <= r <= s@.len(),
{
    let n: usize = s.unicode_len();
    let mut i: usize = from;
    while i < n && is_space(s.get_char(i))
        invariant
            from <= i <= n,
            n as int == s@.len(),
            skip_spaces(s@, from as int) == skip_spaces(s@, i as int),
        decreases n - i,
    {
        i = i + 1;
    }
    i
}

/// First character index at or after `from` that is whitespace, or the end.
pub fn scan_non_spaces(s: &str, from: usize) -> (r: usize)
    requires
        from as int <= s@.len(),
    ensures
        r as int == skip_non_spaces(s@, from as int),
        from <= r <= s@.len(),
{
    let n: usize = s.unicode_len();
    let mut i: usize = from;
    while i < n && !is_space(s.get_char(i))
        invariant
            from <= i <= n,
            n as int == s@.len(),
            skip_non_spaces(s@, from as int) == skip_non_spaces(s@, i as int),
        decreases n - i,
    {
        i = i + 1;
    }
    i
}

/// First character index at or after `from` that is not punctuation.
pub fn scan_punct(s: &str, from: usize) -> (r: usize)
    requires
        from as int <= s@.len(),
    ensures
        r as int == skip_punct(s@, from as int),
        from <= r <= s@.len(),
{
    let n: usize = s.unicode_len();
    let mut i: usize = from;
    while i < n && is_punct(s.get_char(i))
        invariant
            from <= i <= n,
            n as int == s@.len(),
            skip_punct(s@, from as int) == skip_punct(s@, i as int),
        decreases n - i,
    {
        i = i + 1;
    }
    i
}

/// Largest index in `a..=to` whose preceding character is not whitespace.
pub fn rscan_spaces(s: &str, a: usize, to: usize) -> (r: usize)
    requires
        a <= to,
        to as int <= s@.len(),
    ensures
        r as int == rskip_spaces(s@, a as int, to as int),
        a <= r <= to,
{
    let mut j: usize = to;
    while j > a && is_space(s.get_char(j - 1))
        invariant
            a <= j <= to,
            to as int <= s@.len(),
            rskip_spaces(s@, a as int, to as int) == rskip_spaces(s@, a as int, j as int),
        decreases j,
    {
        j = j - 1;
    }
    j
}

/// Largest index in `a..=to` whose preceding character is not punctuation.
pub fn rscan_punct(s: &str, a: usize, to: usize) -> (r: usize)
    requires
        a <= to,
        to as int <= s@.len(),
    ensures
        r as int == rskip_punct(s@, a as int, to as int),
        a <= r <= to,
{
    let mut j: usize = to;
    while j > a && is_punct(s.get_char(j - 1))
        invariant
            a <= j <= to,
            to as int <= s@.len(),
            rskip_punct(s@, a as int, to as int) == rskip_punct(s@, a as int, j as int),
        decreases j,
    {
        j = j - 1;
    }
    j
}

/// True when the character occurs in the sequence.
pub open spec fn contains_char_spec(s: Seq<char>, c: char) -> bool {
    exists|i: int| 0 <= i < s.len() && s[i] == c
}

/// True when the character occurs in the string.
pub fn contains_char(s: &str, c: char) -> (r: bool)
    ensures
        r == contains_char_spec(s@, c),
{
    let n: usize = s.unicode_len();
    let mut i: usize = 0;
    while i < n
        invariant
            i <= n,
            n as int == s@.len(),
            forall|j: int| 0 <= j < i ==> s@[j] != c,
        decreases n - i,
    {
        if s.get_char(i) == c {
            return true;
        }
        i = i + 1;
    }
    false
}

/// The string with the whitespace removed from both ends.
pub fn trim_str(s: &str) -> (r: String)
    ensures
        r@ == trim_spec(s@),
{
    let n: usize = s.unicode_len();
    let a: usize = scan_spaces(s, 0);
    let b: usize = rscan_spaces(s, a, n);
    String::from_str(s.substring_char(a, b))
}

/// Once the value of a digit prefix is past the `i32` range, the value of
/// the whole digit run is past it too.
proof fn lemma_dec_val_overflow(s: Seq<char>, i: int, j: int, n: int)
    requires
        0 <= i <= j <= n <= s.len(),
        all_digits(s, i, j),
        dec_val(s, i, j) > 2147483648,
    ensures
        all_digits(s, i, n) ==> dec_val(s, i, n) > 2147483648,
    decreases n - j,
{
    if j < n {
        if all_digits(s, i, n) {
            assert(all_digits(s, i, j + 1));
            lemma_dec_val_bounds(s, i, j + 1);
            lemma_dec_val_overflow(s, i, j + 1, n);
        }
    }
}

} // verus!
