//! Characters, identifiers and the tokenizer shared by list substitution and
//! macro expansion.
//!
//! A condition text is read as a sequence of tokens, left to right:
//! - a `"` opens a quoted literal, which runs up to and including the next
//!   `"`, or to the end of the text when no `"` follows;
//! - an ASCII letter opens an identifier, which runs over the ASCII letters,
//!   digits and underscores that follow;
//! - any other character is a token of its own.
//!
//! Read as whole words, a digit or an underscore also opens a run over the
//! letters, digits and underscores that follow, so that a name inside a
//! longer word is no token of its own; such a run is no identifier unless it
//! starts with a letter.
use vstd::prelude::*;
use vstd::std_specs::iter::IteratorSpec;

verus! {

pub open spec fn is_ascii_alpha(c: char) -> bool {
    ('a' <= c && c <= 'z') || ('A' <= c && c <= 'Z')
}

pub open spec fn is_ascii_digit(c: char) -> bool {
    '0' <= c && c <= '9'
}

pub open spec fn is_ascii_alnum(c: char) -> bool {
    is_ascii_alpha(c) || is_ascii_digit(c)
}

/// A character that may continue an identifier.
pub open spec fn is_word_char(c: char) -> bool {
    is_ascii_alnum(c) || c == '_'
}

/// The Unicode `White_Space` property, which is what `char::is_whitespace`
/// tests and so what `str::trim` removes.
pub open spec fn is_white_space(c: char) -> bool {
    ||| ('\u{9}' <= c && c <= '\u{d}')
    ||| c == ' '
    ||| c == '\u{85}'
    ||| c == '\u{a0}'
    ||| c == '\u{1680}'
    ||| ('\u{2000}' <= c && c <= '\u{200a}')
    ||| c == '\u{2028}'
    ||| c == '\u{2029}'
    ||| c == '\u{202f}'
    ||| c == '\u{205f}'
    ||| c == '\u{3000}'
}

/// A text that trims to nothing: every character is white space.
pub open spec fn is_blank(s: Seq<char>) -> bool {
    forall|i: int| 0 <= i < s.len() ==> is_white_space(#[trigger] s[i])
}

/// A name of a list or a macro: an ASCII letter followed by ASCII letters,
/// digits or underscores.
pub open spec fn spec_is_valid_name(s: Seq<char>) -> bool {
    &&& s.len() > 0
    &&& is_ascii_alpha(s[0])
    &&& forall|i: int| 1 <= i < s.len() ==> is_word_char(#[trigger] s[i])
}

pub fn char_is_ascii_alpha(c: char) -> (r: bool)
    ensures
        r == is_ascii_alpha(c),
{
    ('a' <= c && c <= 'z') || ('A' <= c && c <= 'Z')
}

pub fn char_is_word(c: char) -> (r: bool)
    ensures
        r == is_word_char(c),
{
    ('a' <= c && c <= 'z') || ('A' <= c && c <= 'Z') || ('0' <= c && c <= '9') || c == '_'
}

pub fn char_is_white_space(c: char) -> (r: bool)
    ensures
        r == is_white_space(c),
{
    ('\u{9}' <= c && c <= '\u{d}') || c == ' ' || c == '\u{85}' || c == '\u{a0}' || c
        == '\u{1680}' || ('\u{2000}' <= c && c <= '\u{200a}') || c == '\u{2028}' || c
        == '\u{2029}' || c == '\u{202f}' || c == '\u{205f}' || c == '\u{3000}'
}

/// Whether `name` is a valid list or macro name.
pub fn is_valid_name(name: &str) -> (r: bool)
    ensures
        r == spec_is_valid_name(name@),
{
    let chars = chars_of(name);
    if chars.len() == 0 || !char_is_ascii_alpha(chars[0]) {
        return false;
    }
    let mut i: usize = 1;
    while i < chars.len()
        invariant
            1 <= i <= chars@.len(),
            chars@ == name@,
            forall|k: int| 1 <= k < i ==> is_word_char(#[trigger] chars@[k]),
        decreases chars@.len() - i,
    {
        if !char_is_word(chars[i]) {
            return false;
        }
        i += 1;
    }
    true
}

/// Whether every character of `s` is white space, as `s.trim().is_empty()`.
pub fn is_blank_text(s: &str) -> (r: bool)
    ensures
        r == is_blank(s@),
{
    let chars = chars_of(s);
    let mut i: usize = 0;
    while i < chars.len()
        invariant
            i <= chars@.len(),
            chars@ == s@,
            forall|k: int| 0 <= k < i ==> is_white_space(#[trigger] chars@[k]),
        decreases chars@.len() - i,
    {
        if !char_is_white_space(chars[i]) {
            return false;
        }
        i += 1;
    }
    true
}

/// The characters of `s`, in order.
pub fn chars_of(s: &str) -> (v: Vec<char>)
    ensures
        v@ == s@,
{
    broadcast use vstd::string::group_string_axioms;

    let mut v: Vec<char> = Vec::new();
    for c in it: s.chars()
        invariant
            v@ == it.seq().take(it.index() as int),
    {
        v.push(c);
    }
    v
}

/// Trusted: `String::push`, which appends `c` after the characters of `s`.
#[verifier::external_body]
fn push_char(s: &mut String, c: char)
    ensures
        final(s)@ == old(s)@.push(c),
{
    s.push(c)
}

/// The string made of the characters of `v`, in order.
pub fn string_of(v: &Vec<char>) -> (s: String)
    ensures
        s@ == v@,
{
    let mut s = String::new();
    let mut i: usize = 0;
    while i < v.len()
        invariant
            i <= v@.len(),
            s@ == v@.subrange(0, i as int),
        decreases v@.len() - i,
    {
        push_char(&mut s, v[i]);
        i += 1;
    }
    s
}

/// Appends the characters of `s` to `out`.
pub fn push_str_chars(out: &mut Vec<char>, s: &str)
    ensures
        final(out)@ == old(out)@ + s@,
{
    let chars = chars_of(s);
    push_range(out, &chars, 0, chars.len());
    assert(chars@.subrange(0, chars@.len() as int) =~= chars@);
}

/// Appends `v[from..to]` to `out`.
pub fn push_range(out: &mut Vec<char>, v: &Vec<char>, from: usize, to: usize)
    requires
        from <= to <= v@.len(),
    ensures
        final(out)@ == old(out)@ + v@.subrange(from as int, to as int),
{
    let mut i = from;
    while i < to
        invariant
            from <= i <= to <= v@.len(),
            out@ == old(out)@ + v@.subrange(from as int, i as int),
        decreases to - i,
    {
        out.push(v[i]);
        i += 1;
        assert(out@ =~= old(out)@ + v@.subrange(from as int, i as int));
    }
}

// ---------------------------------------------------------------------------
// Tokenizer
// ---------------------------------------------------------------------------

/// The end of the run of identifier characters that starts at `i`.
pub open spec fn word_end(s: Seq<char>, i: int) -> int
    decreases s.len() - i,
{
    if 0 <= i < s.len() && is_word_char(s[i]) {
        word_end(s, i + 1)
    } else {
        i
    }
}

/// The end of a quoted literal whose body starts at `i`: just past the next
/// `"`, or the end of the text.
pub open spec fn quote_end(s: Seq<char>, i: int) -> int
    decreases s.len() - i,
{
    if 0 <= i < s.len() {
        if s[i] == '"' {
            i + 1
        } else {
            quote_end(s, i + 1)
        }
    } else {
        s.len() as int
    }
}

/// Whether `c` opens a run of identifier characters: any identifier
/// character when the text is read as whole words, else a letter only.
pub open spec fn starts_word(c: char, whole: bool) -> bool {
    if whole {
        is_word_char(c)
    } else {
        is_ascii_alpha(c)
    }
}

/// The end of the token that starts at `i`, the text being read as whole
/// words when `whole` holds.
pub open spec fn token_end(s: Seq<char>, i: int, whole: bool) -> int {
    if s[i] == '"' {
        quote_end(s, i + 1)
    } else if starts_word(s[i], whole) {
        word_end(s, i + 1)
    } else {
        i + 1
    }
}

/// Whether the token that starts at `i` is an identifier.
pub open spec fn is_ident_start(s: Seq<char>, i: int) -> bool {
    is_ascii_alpha(s[i])
}

pub proof fn lemma_word_end_bounds(s: Seq<char>, i: int)
    requires
        0 <= i <= s.len(),
    ensures
        i <= word_end(s, i) <= s.len(),
    decreases s.len() - i,
{
    if i < s.len() && is_word_char(s[i]) {
        lemma_word_end_bounds(s, i + 1);
    }
}

pub proof fn lemma_quote_end_bounds(s: Seq<char>, i: int)
    requires
        0 <= i <= s.len(),
    ensures
        i <= quote_end(s, i) <= s.len(),
    decreases s.len() - i,
{
    if i < s.len() && s[i] != '"' {
        lemma_quote_end_bounds(s, i + 1);
    }
}

pub proof fn lemma_token_end_bounds(s: Seq<char>, i: int, whole: bool)
    requires
        0 <= i < s.len(),
    ensures
        i < token_end(s, i, whole) <= s.len(),
{
    lemma_word_end_bounds(s, i + 1);
    lemma_quote_end_bounds(s, i + 1);
}

/// The identifiers of `s`, in order, from the token that starts at `i` on.
pub open spec fn idents_from(s: Seq<char>, i: int, whole: bool) -> Seq<Seq<char>>
    decreases s.len() - i,
{
    if 0 <= i < s.len() {
        let j = token_end(s, i, whole);
        proof {
            lemma_token_end_bounds(s, i, whole);
        }
        if is_ident_start(s, i) {
            seq![s.subrange(i, j)] + idents_from(s, j, whole)
        } else {
            idents_from(s, j, whole)
        }
    } else {
        Seq::empty()
    }
}

/// The position just past the run of identifier characters from `i`.
pub fn scan_word(v: &Vec<char>, i: usize) -> (r: usize)
    requires
        i <= v@.len(),
    ensures
        r == word_end(v@, i as int),
{
    let mut j = i;
    while j < v.len() && char_is_word(v[j])
        invariant
            i <= j <= v@.len(),
            word_end(v@, i as int) == word_end(v@, j as int),
        decreases v@.len() - j,
    {
        j += 1;
    }
    j
}

/// The position just past the quoted literal whose body starts at `i`.
pub fn scan_quoted(v: &Vec<char>, i: usize) -> (r: usize)
    requires
        i <= v@.len(),
    ensures
        r == quote_end(v@, i as int),
{
    let mut j = i;
    while j < v.len()
        invariant
            i <= j <= v@.len(),
            quote_end(v@, i as int) == quote_end(v@, j as int),
        decreases v@.len() - j,
    {
        if v[j] == '"' {
            return j + 1;
        }
        j += 1;
    }
    j
}

/// The position just past the token that starts at `i`.
pub fn scan_token(v: &Vec<char>, i: usize, whole: bool) -> (r: usize)
    requires
        i < v@.len(),
    ensures
        r == token_end(v@, i as int, whole),
        i < r <= v@.len(),
{
    proof {
        lemma_token_end_bounds(v@, i as int, whole);
    }
    let n = v.len();
    let c = v[i];
    let opens_word = if whole {
        char_is_word(c)
    } else {
        char_is_ascii_alpha(c)
    };
    if c == '"' {
        scan_quoted(v, i + 1)
    } else if opens_word {
        scan_word(v, i + 1)
    } else {
        i + 1
    }
}

/// The characters `v[from..to]` as a string.
pub fn substring(v: &Vec<char>, from: usize, to: usize) -> (s: String)
    requires
        from <= to <= v@.len(),
    ensures
        s@ == v@.subrange(from as int, to as int),
{
    let mut part: Vec<char> = Vec::new();
    push_range(&mut part, v, from, to);
    string_of(&part)
}

// ---------------------------------------------------------------------------
// Decimal text of integers
// ---------------------------------------------------------------------------

pub open spec fn digit_char(d: int) -> char {
    seq!['0', '1', '2', '3', '4', '5', '6', '7', '8', '9'][d]
}

/// The decimal digits of `n`, most significant first, without leading zeros.
pub open spec fn decimal(n: nat) -> Seq<char>
    decreases n,
{
    if n < 10 {
        seq![digit_char(n as int)]
    } else {
        decimal(n / 10).push(digit_char((n % 10) as int))
    }
}

/// The decimal text of `n`, with a `-` before a negative number, as
/// `to_string` writes it.
pub open spec fn integer_text(n: i64) -> Seq<char> {
    if n < 0 {
        seq!['-'] + decimal((-n) as nat)
    } else {
        decimal(n as nat)
    }
}

fn digit(d: u64) -> (c: char)
    requires
        d < 10,
    ensures
        c == digit_char(d as int),
{
    if d == 0 {
        '0'
    } else if d == 1 {
        '1'
    } else if d == 2 {
        '2'
    } else if d == 3 {
        '3'
    } else if d == 4 {
        '4'
    } else if d == 5 {
        '5'
    } else if d == 6 {
        '6'
    } else if d == 7 {
        '7'
    } else if d == 8 {
        '8'
    } else {
        '9'
    }
}

fn push_decimal(out: &mut Vec<char>, m: u64)
    ensures
        final(out)@ == old(out)@ + decimal(m as nat),
    decreases m,
{
    if m >= 10 {
        push_decimal(out, m / 10);
    }
    out.push(digit(m % 10));
    assert(out@ =~= old(out)@ + decimal(m as nat));
}

/// Appends the decimal text of `n` to `out`.
pub fn push_integer(out: &mut Vec<char>, n: i64)
    ensures
        final(out)@ == old(out)@ + integer_text(n),
{
    if n < 0 {
        out.push('-');
        let m: u64 = (-(n + 1)) as u64 + 1;
        assert(m == -n);
        push_decimal(out, m);
        assert(out@ =~= old(out)@ + integer_text(n));
    } else {
        push_decimal(out, n as u64);
    }
}

// ---------------------------------------------------------------------------
// Laws of names and of the decimal text of integers
// ---------------------------------------------------------------------------

/// A name is valid exactly when it is an ASCII letter of either case,
/// followed by ASCII letters of either case, digits and underscores.
pub proof fn lemma_valid_name_chars(s: Seq<char>)
    ensures
        spec_is_valid_name(s) <==> {
            &&& s.len() > 0
            &&& ('a' <= s[0] && s[0] <= 'z') || ('A' <= s[0] && s[0] <= 'Z')
            &&& forall|i: int|
                1 <= i < s.len() ==> ('a' <= #[trigger] s[i] && s[i] <= 'z') || ('A' <= s[i] && s[i]
                    <= 'Z') || ('0' <= s[i] && s[i] <= '9') || s[i] == '_'
        },
{
}

/// The value of a decimal digit.
pub open spec fn digit_value(c: char) -> int {
    c as int - '0' as int
}

/// The number that a run of decimal digits writes, most significant first.
pub open spec fn digits_value(s: Seq<char>) -> int
    decreases s.len(),
{
    if s.len() == 0 {
        0
    } else {
        digits_value(s.drop_last()) * 10 + digit_value(s.last())
    }
}

/// A non-empty run of decimal digits with no leading zero but for `0`
/// itself.
pub open spec fn is_canonical_digits(s: Seq<char>) -> bool {
    &&& s.len() > 0
    &&& forall|i: int| 0 <= i < s.len() ==> '0' <= #[trigger] s[i] && s[i] <= '9'
    &&& (s[0] == '0' ==> s.len() == 1)
}

proof fn lemma_digit_char(d: int)
    requires
        0 <= d < 10,
    ensures
        '0' <= digit_char(d) && digit_char(d) <= '9',
        digit_value(digit_char(d)) == d,
        digit_char(d) == '0' <==> d == 0,
{
    if d == 0 {
    } else if d == 1 {
    } else if d == 2 {
    } else if d == 3 {
    } else if d == 4 {
    } else if d == 5 {
    } else if d == 6 {
    } else if d == 7 {
    } else if d == 8 {
    } else {
    }
}

/// The decimal digits of `n` are canonical and write `n`.
pub proof fn lemma_decimal_value(n: nat)
    ensures
        is_canonical_digits(decimal(n)),
        digits_value(decimal(n)) == n,
        n > 0 ==> decimal(n)[0] != '0',
    decreases n,
{
    if n < 10 {
        lemma_digit_char(n as int);
        assert(decimal(n).drop_last() =~= Seq::<char>::empty());
        assert(digits_value(Seq::<char>::empty()) == 0);
        assert(digits_value(decimal(n)) == digits_value(decimal(n).drop_last()) * 10 + digit_value(
            decimal(n).last(),
        ));
    } else {
        let q = n / 10;
        let r = n % 10;
        lemma_decimal_value(q);
        lemma_digit_char(r as int);
        let d = decimal(n);
        assert(d.drop_last() =~= decimal(q));
        assert(d[0] == decimal(q)[0]);
        assert(q * 10 + r == n);
        assert(d.last() == digit_char(r as int));
        assert(digits_value(d) == digits_value(d.drop_last()) * 10 + digit_value(d.last()));
        assert forall|i: int| 0 <= i < d.len() implies '0' <= #[trigger] d[i] && d[i] <= '9' by {
            if i < d.len() - 1 {
                assert(d[i] == decimal(q)[i]);
            }
        }
    }
}

/// The text written for an integer, read back, is that integer: a `-`
/// before the digits of a negative number, canonical decimal digits whose
/// value is the number's magnitude.
pub proof fn lemma_integer_text_value(n: i64)
    ensures
        n < 0 ==> {
            let t = integer_text(n);
            &&& t.len() > 0
            &&& t[0] == '-'
            &&& is_canonical_digits(t.drop_first())
            &&& -digits_value(t.drop_first()) == n
        },
        n >= 0 ==> {
            &&& is_canonical_digits(integer_text(n))
            &&& digits_value(integer_text(n)) == n
        },
{
    if n < 0 {
        let m = (-n) as nat;
        lemma_decimal_value(m);
        assert(integer_text(n).drop_first() =~= decimal(m));
    } else {
        lemma_decimal_value(n as nat);
    }
}

} // verus!
