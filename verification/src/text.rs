//! Character classes and digit/text helpers shared by the entry grammar,
//! the heading scanner, and the report formatters.
//!
//! The classes are deliberately ASCII.  A bare project name is a run of
//! ASCII letters, digits and underscores; a name in any other characters —
//! non-ASCII letters included — must be quoted, which admits arbitrary
//! one-line text.  The whitespace the grammar skips over is likewise the
//! ASCII blanks alone.

use vstd::prelude::*;

verus! {

/// ASCII whitespace, the blank characters the grammar skips over.
pub open spec fn is_space(c: char) -> bool {
    c == ' ' || c == '\t' || c == '\n' || c == '\r' || c == '\u{b}' || c == '\u{c}'
}

/// ASCII decimal digit.
pub open spec fn is_digit(c: char) -> bool {
    48 <= c as u32 <= 57
}

/// ASCII word character: letter, digit or underscore.  Bare project names
/// are runs of these; everything else must be quoted.
pub open spec fn is_word(c: char) -> bool {
    is_digit(c) || 65 <= c as u32 <= 90 || 97 <= c as u32 <= 122 || c == '_'
}

/// Numeric value of a digit character.
pub open spec fn digit_val(c: char) -> int {
    c as u32 - 48
}

/// The digit character for a value below ten.
pub open spec fn dec_digit(v: int) -> char {
    ((v + 48) as u8) as char
}

/// Value of the decimal digit run `s[i..j]`.
pub open spec fn digits_val(s: Seq<char>, i: int, j: int) -> int
    decreases j - i,
{
    if i >= j {
        0
    } else {
        digits_val(s, i, j - 1) * 10 + digit_val(s[j - 1])
    }
}

/// Decimal rendering of a non-negative integer, most significant digit first.
pub open spec fn dec_seq(n: int) -> Seq<char>
    decreases n,
{
    if n < 10 {
        seq![dec_digit(n)]
    } else {
        dec_seq(n / 10).push(dec_digit(n % 10))
    }
}

pub fn char_is_space(c: char) -> (r: bool)
    ensures
        r == is_space(c),
{
    c == ' ' || c == '\t' || c == '\n' || c == '\r' || c == '\u{b}' || c == '\u{c}'
}

pub fn char_is_digit(c: char) -> (r: bool)
    ensures
        r == is_digit(c),
{
    let u: u32 = c as u32;
    48 <= u && u <= 57
}

pub fn char_is_word(c: char) -> (r: bool)
    ensures
        r == is_word(c),
{
    let u: u32 = c as u32;
    (48 <= u && u <= 57) || (65 <= u && u <= 90) || (97 <= u && u <= 122) || c == '_'
}

/// One-character string for a digit value.
pub fn digit_text(d: u8) -> (r: &'static str)
    requires
        d < 10,
    ensures
        r@ == seq![dec_digit(d as int)],
{
    proof {
        reveal_strlit("0");
        reveal_strlit("1");
        reveal_strlit("2");
        reveal_strlit("3");
        reveal_strlit("4");
        reveal_strlit("5");
        reveal_strlit("6");
        reveal_strlit("7");
        reveal_strlit("8");
        reveal_strlit("9");
    }
    match d {
        0 => "0",
        1 => "1",
        2 => "2",
        3 => "3",
        4 => "4",
        5 => "5",
        6 => "6",
        7 => "7",
        8 => "8",
        _ => "9",
    }
}

/// Decimal rendering of `n`, matching `dec_seq`.
pub fn dec_text(n: u128) -> (r: String)
    ensures
        r@ == dec_seq(n as int),
    decreases n,
{
    if n < 10 {
        digit_text(n as u8).to_owned()
    } else {
        let mut s = dec_text(n / 10);
        s.append(digit_text((n % 10) as u8));
        s
    }
}

/// Appends the two-digit zero-padded rendering of `v` (below 100).
pub open spec fn two_digits(v: int) -> Seq<char> {
    seq![dec_digit(v / 10), dec_digit(v % 10)]
}

pub fn push_two_digits(s: &mut String, v: u8)
    requires
        v < 100,
    ensures
        final(s)@ == old(s)@ + two_digits(v as int),
{
    s.append(digit_text(v / 10));
    s.append(digit_text(v % 10));
    assert(s@ =~= old(s)@ + two_digits(v as int));
}

/// Index of the first non-whitespace character at or after `i`.
pub open spec fn skip_ws(s: Seq<char>, i: int) -> int
    decreases s.len() - i,
{
    if 0 <= i < s.len() && is_space(s[i]) {
        skip_ws(s, i + 1)
    } else {
        i
    }
}

/// Index just past the run of digits starting at `i`.
pub open spec fn digit_end(s: Seq<char>, i: int) -> int
    decreases s.len() - i,
{
    if 0 <= i < s.len() && is_digit(s[i]) {
        digit_end(s, i + 1)
    } else {
        i
    }
}

/// Index just past the run of word characters starting at `i`.
pub open spec fn word_end(s: Seq<char>, i: int) -> int
    decreases s.len() - i,
{
    if 0 <= i < s.len() && is_word(s[i]) {
        word_end(s, i + 1)
    } else {
        i
    }
}

/// Index of the first double quote at or after `i`, or the length if none.
pub open spec fn quote_pos(s: Seq<char>, i: int) -> int
    decreases s.len() - i,
{
    if 0 <= i < s.len() {
        if s[i] == '"' {
            i
        } else {
            quote_pos(s, i + 1)
        }
    } else {
        s.len() as int
    }
}

/// Index just before the run of trailing whitespace that ends at `j`.
pub open spec fn rskip_ws(s: Seq<char>, j: int) -> int
    decreases j,
{
    if 0 < j <= s.len() && is_space(s[j - 1]) {
        rskip_ws(s, j - 1)
    } else {
        j
    }
}

/// The suffix `s[i..]` with surrounding whitespace stripped.
pub open spec fn trimmed(s: Seq<char>, i: int) -> Seq<char> {
    let a = skip_ws(s, i);
    let b = rskip_ws(s, s.len() as int);
    if b <= a {
        Seq::empty()
    } else {
        s.subrange(a, b)
    }
}

pub proof fn lemma_skip_ws(s: Seq<char>, i: int)
    requires
        0 <= i <= s.len(),
    ensures
        i <= skip_ws(s, i) <= s.len(),
        forall|k: int| i <= k < skip_ws(s, i) ==> is_space(#[trigger] s[k]),
        skip_ws(s, i) < s.len() ==> !is_space(s[skip_ws(s, i)]),
    decreases s.len() - i,
{
    if i < s.len() && is_space(s[i]) {
        lemma_skip_ws(s, i + 1);
    }
}

pub proof fn lemma_digit_end(s: Seq<char>, i: int)
    requires
        0 <= i <= s.len(),
    ensures
        i <= digit_end(s, i) <= s.len(),
        forall|k: int| i <= k < digit_end(s, i) ==> is_digit(#[trigger] s[k]),
        digit_end(s, i) < s.len() ==> !is_digit(s[digit_end(s, i)]),
    decreases s.len() - i,
{
    if i < s.len() && is_digit(s[i]) {
        lemma_digit_end(s, i + 1);
    }
}

pub proof fn lemma_word_end(s: Seq<char>, i: int)
    requires
        0 <= i <= s.len(),
    ensures
        i <= word_end(s, i) <= s.len(),
        forall|k: int| i <= k < word_end(s, i) ==> is_word(#[trigger] s[k]),
        word_end(s, i) < s.len() ==> !is_word(s[word_end(s, i)]),
    decreases s.len() - i,
{
    if i < s.len() && is_word(s[i]) {
        lemma_word_end(s, i + 1);
    }
}

pub proof fn lemma_quote_pos(s: Seq<char>, i: int)
    requires
        0 <= i <= s.len(),
    ensures
        i <= quote_pos(s, i) <= s.len(),
        forall|k: int| i <= k < quote_pos(s, i) ==> #[trigger] s[k] != '"',
        quote_pos(s, i) < s.len() ==> s[quote_pos(s, i)] == '"',
    decreases s.len() - i,
{
    if i < s.len() && s[i] != '"' {
        lemma_quote_pos(s, i + 1);
    }
}

pub proof fn lemma_rskip_ws(s: Seq<char>, j: int)
    requires
        0 <= j <= s.len(),
    ensures
        0 <= rskip_ws(s, j) <= j,
        forall|k: int| rskip_ws(s, j) <= k < j ==> is_space(#[trigger] s[k]),
        rskip_ws(s, j) > 0 ==> !is_space(s[rskip_ws(s, j) - 1]),
    decreases j,
{
    if 0 < j && is_space(s[j - 1]) {
        lemma_rskip_ws(s, j - 1);
    }
}

pub fn skip_spaces(s: &str, n: usize, i: usize) -> (r: usize)
    requires
        n == s@.len(),
        i <= n,
    ensures
        r == skip_ws(s@, i as int),
        i <= r <= n,
{
    let mut j = i;
    while j < n && char_is_space(s.get_char(j))
        invariant
            n == s@.len(),
            i <= j <= n,
            skip_ws(s@, i as int) == skip_ws(s@, j as int),
        decreases n - j,
    {
        j = j + 1;
    }
    proof {
        lemma_skip_ws(s@, j as int);
    }
    j
}

pub fn digit_run_end(s: &str, n: usize, i: usize) -> (r: usize)
    requires
        n == s@.len(),
        i <= n,
    ensures
        r == digit_end(s@, i as int),
        i <= r <= n,
{
    let mut j = i;
    while j < n && char_is_digit(s.get_char(j))
        invariant
            n == s@.len(),
            i <= j <= n,
            digit_end(s@, i as int) == digit_end(s@, j as int),
        decreases n - j,
    {
        j = j + 1;
    }
    proof {
        lemma_digit_end(s@, j as int);
    }
    j
}

pub fn word_run_end(s: &str, n: usize, i: usize) -> (r: usize)
    requires
        n == s@.len(),
        i <= n,
    ensures
        r == word_end(s@, i as int),
        i <= r <= n,
{
    let mut j = i;
    while j < n && char_is_word(s.get_char(j))
        invariant
            n == s@.len(),
            i <= j <= n,
            word_end(s@, i as int) == word_end(s@, j as int),
        decreases n - j,
    {
        j = j + 1;
    }
    proof {
        lemma_word_end(s@, j as int);
    }
    j
}

pub fn find_quote(s: &str, n: usize, i: usize) -> (r: usize)
    requires
        n == s@.len(),
        i <= n,
    ensures
        r == quote_pos(s@, i as int),
        i <= r <= n,
{
    let mut j = i;
    while j < n && s.get_char(j) != '"'
        invariant
            n == s@.len(),
            i <= j <= n,
            quote_pos(s@, i as int) == quote_pos(s@, j as int),
        decreases n - j,
    {
        j = j + 1;
    }
    proof {
        lemma_quote_pos(s@, j as int);
    }
    j
}

pub fn rskip_spaces(s: &str, n: usize, j: usize) -> (r: usize)
    requires
        n == s@.len(),
        j <= n,
    ensures
        r == rskip_ws(s@, j as int),
        r <= j,
{
    let mut k = j;
    while k > 0 && char_is_space(s.get_char(k - 1))
        invariant
            n == s@.len(),
            k <= j <= n,
            rskip_ws(s@, j as int) == rskip_ws(s@, k as int),
        decreases k,
    {
        k = k - 1;
    }
    proof {
        lemma_rskip_ws(s@, k as int);
    }
    k
}

/// The digit run `s[i..j]` read as a decimal number; at most four digits.
pub fn digits_value(s: &str, n: usize, i: usize, j: usize) -> (r: u32)
    requires
        n == s@.len(),
        i <= j <= n,
        j - i <= 4,
        forall|k: int| i <= k < j ==> is_digit(#[trigger] s@[k]),
    ensures
        r as int == digits_val(s@, i as int, j as int),
        r < 10000,
{
    proof {
        lemma_digits_val_bound(s@, i as int, j as int);
    }
    let mut r: u32 = 0;
    let mut k = i;
    while k < j
        invariant
            n == s@.len(),
            i <= k <= j <= n,
            j - i <= 4,
            forall|t: int| i <= t < j ==> is_digit(#[trigger] s@[t]),
            r as int == digits_val(s@, i as int, k as int),
            r < 10000,
        decreases j - k,
    {
        let c = s.get_char(k);
        proof {
            lemma_digits_val_bound(s@, i as int, k + 1);
        }
        r = r * 10 + (c as u32 - 48);
        k = k + 1;
    }
    r
}

/// A run of at most `m` digits is worth less than `10^m` (stated for the
/// lengths the grammar uses).
pub proof fn lemma_digits_val_bound(s: Seq<char>, i: int, j: int)
    requires
        0 <= i <= j <= s.len(),
        forall|k: int| i <= k < j ==> is_digit(#[trigger] s[k]),
    ensures
        0 <= digits_val(s, i, j),
        j - i <= 1 ==> digits_val(s, i, j) < 10,
        j - i <= 2 ==> digits_val(s, i, j) < 100,
        j - i <= 3 ==> digits_val(s, i, j) < 1000,
        j - i <= 4 ==> digits_val(s, i, j) < 10000,
    decreases j - i,
{
    if i < j {
        lemma_digits_val_bound(s, i, j - 1);
    }
}

} // verus!
