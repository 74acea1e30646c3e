//! Substitution of lists and expansion of macros in condition texts.
//!
//! A list name that stands as a whole word outside quotes is replaced by the
//! list's items; a macro name that stands as an identifier outside quotes (an
//! identifier starts at any letter, so in `_m` or `9m` the name is `m`) is
//! replaced by its expansion in parentheses,
//! the expansion of a macro being its condition with every macro name in it
//! expanded in turn. Quoted literals are never rewritten.
use vstd::prelude::*;
use crate::error::{ExpandError, names_of};
use crate::table::{Entries, NameTable, distinct_keys, has_key, lookup, keys};
use crate::text::{
    char_is_ascii_alpha, chars_of, idents_from, is_ident_start, is_word_char,
    lemma_token_end_bounds, push_range, push_str_chars, quote_end, scan_token, starts_word,
    string_of, substring, token_end, word_end,
};

verus! {

// ---------------------------------------------------------------------------
// Single-level rewriting (lists, and macros already expanded)
// ---------------------------------------------------------------------------

/// The texts that a table gives to names, as a function.
pub open spec fn table_fn(t: Entries) -> spec_fn(Seq<char>) -> Option<Seq<char>> {
    |k: Seq<char>| lookup(t, k)
}

/// What one token becomes: an identifier to which `t` gives a text becomes
/// that text, wrapped in parentheses when `wrap` holds; every other token
/// stays.
pub open spec fn rewrite_piece(
    tok: Seq<char>,
    ident: bool,
    t: spec_fn(Seq<char>) -> Option<Seq<char>>,
    wrap: bool,
) -> Seq<char> {
    if ident {
        match t(tok) {
            Some(v) => if wrap {
                seq!['('] + v + seq![')']
            } else {
                v
            },
            None => tok,
        }
    } else {
        tok
    }
}

/// List substitution (`wrap` false) reads a text as whole words, so that a
/// list name inside a longer word is left alone; macro substitution reads it
/// as macro expansion does, where an identifier starts at any letter.
pub open spec fn whole_words(wrap: bool) -> bool {
    !wrap
}

/// `s` from position `i` on, with each token rewritten by `rewrite_piece`.
pub open spec fn rewrite_from(
    s: Seq<char>,
    i: int,
    t: spec_fn(Seq<char>) -> Option<Seq<char>>,
    wrap: bool,
) -> Seq<char>
    decreases s.len() - i,
{
    if 0 <= i < s.len() {
        let j = token_end(s, i, whole_words(wrap));
        proof {
            lemma_token_end_bounds(s, i, whole_words(wrap));
        }
        rewrite_piece(s.subrange(i, j), is_ident_start(s, i), t, wrap) + rewrite_from(
            s,
            j,
            t,
            wrap,
        )
    } else {
        Seq::empty()
    }
}

/// `s` with every list name outside quotes replaced by the list's items.
pub open spec fn spec_substitute_lists(s: Seq<char>, lists: Entries) -> Seq<char> {
    rewrite_from(s, 0, table_fn(lists), false)
}

/// `s` with every macro name outside quotes replaced by its expansion in
/// parentheses, the expansions being given by `expansions`.
pub open spec fn spec_substitute_macros(
    s: Seq<char>,
    expansions: spec_fn(Seq<char>) -> Option<Seq<char>>,
) -> Seq<char> {
    rewrite_from(s, 0, expansions, true)
}

/// Rewrites the tokens of `chars` by `rewrite_piece`.
fn rewrite_identifiers(chars: &Vec<char>, table: &NameTable, wrap: bool) -> (out: Vec<char>)
    ensures
        out@ == rewrite_from(chars@, 0, table_fn(table@), wrap),
{
    let mut out: Vec<char> = Vec::new();
    let mut i: usize = 0;
    while i < chars.len()
        invariant
            i <= chars@.len(),
            out@ + rewrite_from(chars@, i as int, table_fn(table@), wrap) == rewrite_from(
                chars@,
                0,
                table_fn(table@),
                wrap,
            ),
        decreases chars@.len() - i,
    {
        let j = scan_token(chars, i, !wrap);
        let ghost before = out@;
        let ghost tok = chars@.subrange(i as int, j as int);
        if char_is_ascii_alpha(chars[i]) {
            let ident = substring(chars, i, j);
            match table.get(&ident) {
                Some(v) => {
                    if wrap {
                        out.push('(');
                    }
                    push_str_chars(&mut out, v.as_str());
                    if wrap {
                        out.push(')');
                    }
                },
                None => {
                    push_range(&mut out, chars, i, j);
                },
            }
        } else {
            push_range(&mut out, chars, i, j);
        }
        assert(out@ =~= before + rewrite_piece(
            tok,
            is_ident_start(chars@, i as int),
            table_fn(table@),
            wrap,
        ));
        assert(out@ + rewrite_from(chars@, j as int, table_fn(table@), wrap) =~= before
            + rewrite_from(chars@, i as int, table_fn(table@), wrap));
        i = j;
    }
    assert(out@ + rewrite_from(chars@, i as int, table_fn(table@), wrap) =~= out@);
    out
}

/// Replaces whole-word list references with their comma-separated items.
/// Lists are flat (no nesting), so a single non-recursive pass is enough.
/// Identifiers inside quoted string literals are left untouched.
pub fn substitute_lists(input: &str, lists: &NameTable) -> (r: String)
    ensures
        r@ == spec_substitute_lists(input@, lists@),
{
    let chars = chars_of(input);
    if lists.is_empty() {
        proof {
            lemma_rewrite_without_names(input@, 0, table_fn(lists@), false);
            assert(input@.subrange(0, input@.len() as int) =~= input@);
        }
        return string_of(&chars);
    }
    let out = rewrite_identifiers(&chars, lists, false);
    string_of(&out)
}

/// Replaces every macro name outside quotes by its expansion in parentheses,
/// taking the expansions from `resolved`.
pub fn substitute_macros(input: &str, resolved: &NameTable) -> (r: String)
    ensures
        r@ == spec_substitute_macros(input@, table_fn(resolved@)),
{
    let chars = chars_of(input);
    let out = rewrite_identifiers(&chars, resolved, true);
    string_of(&out)
}

/// Text in which no identifier is named by the table is left as it is.
pub proof fn lemma_rewrite_without_names(
    s: Seq<char>,
    i: int,
    t: spec_fn(Seq<char>) -> Option<Seq<char>>,
    wrap: bool,
)
    requires
        0 <= i <= s.len(),
        forall|k: int| 0 <= k < idents_from(s, i, whole_words(wrap)).len() ==> t(#[trigger] idents_from(s, i, whole_words(wrap))[k]) is None,
    ensures
        rewrite_from(s, i, t, wrap) == s.subrange(i, s.len() as int),
    decreases s.len() - i,
{
    if i < s.len() {
        let j = token_end(s, i, whole_words(wrap));
        lemma_token_end_bounds(s, i, whole_words(wrap));
        if is_ident_start(s, i) {
            assert(idents_from(s, i, whole_words(wrap))[0] == s.subrange(i, j));
            assert forall|k: int| 0 <= k < idents_from(s, j, whole_words(wrap)).len() implies t(
                #[trigger] idents_from(s, j, whole_words(wrap))[k],
            ) is None by {
                assert(idents_from(s, i, whole_words(wrap))[k + 1] == idents_from(s, j, whole_words(wrap))[k]);
            }
        } else {
            assert(idents_from(s, i, whole_words(wrap)) == idents_from(s, j, whole_words(wrap)));
        }
        lemma_rewrite_without_names(s, j, t, wrap);
        assert(s.subrange(i, j) + s.subrange(j, s.len() as int) =~= s.subrange(i, s.len() as int));
    } else {
        assert(s.subrange(i, s.len() as int) =~= Seq::<char>::empty());
    }
}

/// A quoted literal is copied as it is, whatever names it holds.
pub proof fn lemma_quoted_literal_untouched(
    s: Seq<char>,
    t: spec_fn(Seq<char>) -> Option<Seq<char>>,
    wrap: bool,
)
    requires
        s.len() >= 1,
        s[0] == '"',
        quote_end(s, 1) == s.len(),
    ensures
        rewrite_from(s, 0, t, wrap) == s,
{
    assert(token_end(s, 0, whole_words(wrap)) == s.len());
    assert(rewrite_from(s, s.len() as int, t, wrap) == Seq::<char>::empty());
    assert(s.subrange(0, s.len() as int) + Seq::<char>::empty() =~= s);
}

/// With no list defined, list substitution leaves every text as it is.
pub proof fn lemma_substitute_no_lists(s: Seq<char>, lists: Entries)
    requires
        lists.len() == 0,
    ensures
        spec_substitute_lists(s, lists) == s,
{
    lemma_rewrite_without_names(s, 0, table_fn(lists), false);
    assert(s.subrange(0, s.len() as int) =~= s);
}


// ---------------------------------------------------------------------------
// Substituting into a joined text
// ---------------------------------------------------------------------------

/// The number of `"` in `s`.
pub open spec fn quote_count(s: Seq<char>) -> nat
    decreases s.len(),
{
    if s.len() == 0 {
        0
    } else {
        (if s[0] == '"' {
            1nat
        } else {
            0nat
        }) + quote_count(s.drop_first())
    }
}

proof fn lemma_quote_count_step(a: Seq<char>, j: int)
    requires
        0 <= j < a.len(),
    ensures
        quote_count(a.subrange(j, a.len() as int)) == (if a[j] == '"' {
            1nat
        } else {
            0nat
        }) + quote_count(a.subrange(j + 1, a.len() as int)),
{
    assert(a.subrange(j, a.len() as int).drop_first() =~= a.subrange(j + 1, a.len() as int));
}

/// Tokens of `p + b` past `p` are the tokens of `b`, moved.
proof fn lemma_word_end_shift(p: Seq<char>, b: Seq<char>, j: int)
    requires
        0 <= j <= b.len(),
    ensures
        word_end(p + b, p.len() + j) == p.len() + word_end(b, j),
    decreases b.len() - j,
{
    if j < b.len() {
        assert((p + b)[p.len() + j] == b[j]);
        lemma_word_end_shift(p, b, j + 1);
    }
}

proof fn lemma_quote_end_shift(p: Seq<char>, b: Seq<char>, j: int)
    requires
        0 <= j <= b.len(),
    ensures
        quote_end(p + b, p.len() + j) == p.len() + quote_end(b, j),
    decreases b.len() - j,
{
    if j < b.len() {
        assert((p + b)[p.len() + j] == b[j]);
        lemma_quote_end_shift(p, b, j + 1);
    }
}

proof fn lemma_rewrite_shift(
    p: Seq<char>,
    b: Seq<char>,
    j: int,
    t: spec_fn(Seq<char>) -> Option<Seq<char>>,
    wrap: bool,
)
    requires
        0 <= j <= b.len(),
    ensures
        rewrite_from(p + b, p.len() + j, t, wrap) == rewrite_from(b, j, t, wrap),
    decreases b.len() - j,
{
    if j < b.len() {
        let s = p + b;
        let i = p.len() + j;
        assert(s[i] == b[j]);
        lemma_word_end_shift(p, b, j + 1);
        lemma_quote_end_shift(p, b, j + 1);
        let k = token_end(b, j, whole_words(wrap));
        lemma_token_end_bounds(b, j, whole_words(wrap));
        assert(token_end(s, i, whole_words(wrap)) == p.len() + k);
        assert(s.subrange(i, p.len() + k) =~= b.subrange(j, k));
        lemma_rewrite_shift(p, b, k, t, wrap);
    }
}

/// Within `a`, followed by a space, a word ends where it ends in `a`.
proof fn lemma_word_end_before_space(a: Seq<char>, b: Seq<char>, j: int)
    requires
        0 <= j <= a.len(),
    ensures
        word_end(a + seq![' '] + b, j) == word_end(a, j),
        word_end(a, j) <= a.len(),
        quote_count(a.subrange(j, a.len() as int)) == quote_count(
            a.subrange(word_end(a, j), a.len() as int),
        ),
    decreases a.len() - j,
{
    let s = a + seq![' '] + b;
    if j < a.len() {
        assert(s[j] == a[j]);
        if is_word_char(a[j]) {
            lemma_word_end_before_space(a, b, j + 1);
            lemma_quote_count_step(a, j);
        }
    } else {
        assert(s[j] == ' ');
    }
}

/// Within `a`, a quoted literal whose body starts at `j` closes inside `a`
/// when an odd number of `"` follows.
proof fn lemma_quote_end_inside(a: Seq<char>, b: Seq<char>, j: int)
    requires
        0 <= j <= a.len(),
        quote_count(a.subrange(j, a.len() as int)) % 2 == 1,
    ensures
        quote_end(a + seq![' '] + b, j) == quote_end(a, j),
        quote_end(a, j) <= a.len(),
        quote_count(a.subrange(quote_end(a, j), a.len() as int)) % 2 == 0,
    decreases a.len() - j,
{
    let s = a + seq![' '] + b;
    if j < a.len() {
        assert(s[j] == a[j]);
        lemma_quote_count_step(a, j);
        if a[j] != '"' {
            lemma_quote_end_inside(a, b, j + 1);
        }
    } else {
        assert(a.subrange(j, a.len() as int) =~= Seq::<char>::empty());
    }
}

proof fn lemma_rewrite_prefix(
    a: Seq<char>,
    b: Seq<char>,
    i: int,
    t: spec_fn(Seq<char>) -> Option<Seq<char>>,
    wrap: bool,
)
    requires
        0 <= i <= a.len(),
        quote_count(a.subrange(i, a.len() as int)) % 2 == 0,
    ensures
        rewrite_from(a + seq![' '] + b, i, t, wrap) == rewrite_from(a, i, t, wrap) + rewrite_from(
            a + seq![' '] + b,
            a.len() as int,
            t,
            wrap,
        ),
    decreases a.len() - i,
{
    let s = a + seq![' '] + b;
    if i < a.len() {
        assert(s[i] == a[i]);
        lemma_token_end_bounds(a, i, whole_words(wrap));
        lemma_quote_count_step(a, i);
        if a[i] == '"' {
            lemma_quote_end_inside(a, b, i + 1);
        } else if starts_word(a[i], whole_words(wrap)) {
            lemma_word_end_before_space(a, b, i + 1);
        }
        let k = token_end(a, i, whole_words(wrap));
        assert(token_end(s, i, whole_words(wrap)) == k);
        assert(s.subrange(i, k) =~= a.subrange(i, k));
        lemma_rewrite_prefix(a, b, k, t, wrap);
        assert(rewrite_from(s, i, t, wrap) =~= rewrite_from(a, i, t, wrap) + rewrite_from(
            s,
            a.len() as int,
            t,
            wrap,
        ));
    } else {
        assert(rewrite_from(a, i, t, wrap) == Seq::<char>::empty());
        assert(Seq::<char>::empty() + rewrite_from(s, i, t, wrap) =~= rewrite_from(s, i, t, wrap));
    }
}

/// Rewriting two texts joined by a space, the first with all its quoted
/// literals closed, is rewriting each of them.
pub proof fn lemma_rewrite_joined(
    a: Seq<char>,
    b: Seq<char>,
    t: spec_fn(Seq<char>) -> Option<Seq<char>>,
    wrap: bool,
)
    requires
        quote_count(a) % 2 == 0,
    ensures
        rewrite_from(a + seq![' '] + b, 0, t, wrap) == rewrite_from(a, 0, t, wrap) + seq![' ']
            + rewrite_from(b, 0, t, wrap),
{
    let s = a + seq![' '] + b;
    assert(a.subrange(0, a.len() as int) =~= a);
    lemma_rewrite_prefix(a, b, 0, t, wrap);
    let n = a.len() as int;
    assert(s[n] == ' ');
    assert(token_end(s, n, whole_words(wrap)) == n + 1);
    assert(s.subrange(n, n + 1) =~= seq![' ']);
    let p = a + seq![' '];
    assert(s =~= p + b);
    lemma_rewrite_shift(p, b, 0, t, wrap);
    assert(rewrite_from(s, n, t, wrap) =~= seq![' '] + rewrite_from(b, 0, t, wrap));
    assert(rewrite_from(a, 0, t, wrap) + (seq![' '] + rewrite_from(b, 0, t, wrap))
        =~= rewrite_from(a, 0, t, wrap) + seq![' '] + rewrite_from(b, 0, t, wrap));
}

/// Substituting the lists into two texts joined by a space, the first with
/// all its quoted literals closed, is substituting into each of them.
pub proof fn lemma_substitute_lists_joined(a: Seq<char>, b: Seq<char>, lists: Entries)
    requires
        quote_count(a) % 2 == 0,
    ensures
        spec_substitute_lists(a + seq![' '] + b, lists) == spec_substitute_lists(a, lists)
            + seq![' '] + spec_substitute_lists(b, lists),
{
    lemma_rewrite_joined(a, b, table_fn(lists), false);
}

// ---------------------------------------------------------------------------
// Macro expansion
// ---------------------------------------------------------------------------

/// The expansion of `s` from position `i` on, by the definitions `defs`,
/// where no chain of macros inside it is deeper than `fuel`; `None` where
/// `fuel` does not reach.
pub open spec fn exp_from(defs: Entries, s: Seq<char>, i: int, fuel: nat) -> Option<Seq<char>>
    decreases fuel, 1int, s.len() - i,
{
    if 0 <= i < s.len() {
        let j = token_end(s, i, false);
        proof {
            lemma_token_end_bounds(s, i, false);
        }
        let tok = s.subrange(i, j);
        if is_ident_start(s, i) && has_key(defs, tok) {
            match exp_name(defs, tok, fuel) {
                Some(e) => match exp_from(defs, s, j, fuel) {
                    Some(r) => Some(seq!['('] + e + seq![')'] + r),
                    None => None,
                },
                None => None,
            }
        } else {
            match exp_from(defs, s, j, fuel) {
                Some(r) => Some(tok + r),
                None => None,
            }
        }
    } else {
        Some(Seq::empty())
    }
}

/// The expansion of the macro `n` with at most `fuel` nested macros.
pub open spec fn exp_name(defs: Entries, n: Seq<char>, fuel: nat) -> Option<Seq<char>>
    decreases fuel, 0int, 0int,
{
    if fuel == 0 {
        None
    } else {
        match lookup(defs, n) {
            Some(body) => exp_from(defs, body, 0, (fuel - 1) as nat),
            None => None,
        }
    }
}

/// The expansion of the text `s`: what `exp_from` gives with enough fuel,
/// or `None` when no fuel is enough, that is when expanding it never ends.
pub open spec fn text_expansion(defs: Entries, s: Seq<char>) -> Option<Seq<char>> {
    if exists|f: nat| #[trigger] exp_from(defs, s, 0, f) is Some {
        exp_from(defs, s, 0, choose|f: nat| #[trigger] exp_from(defs, s, 0, f) is Some)
    } else {
        None
    }
}

/// The expansion of the macro `n`, or `None` when expanding it never ends
/// (or `n` names no macro).
pub open spec fn macro_expansion(defs: Entries, n: Seq<char>) -> Option<Seq<char>> {
    if exists|f: nat| #[trigger] exp_name(defs, n, f) is Some {
        exp_name(defs, n, choose|f: nat| #[trigger] exp_name(defs, n, f) is Some)
    } else {
        None
    }
}

/// The body of macro `a` mentions the macro `b` as an identifier outside
/// quotes.
pub open spec fn references(defs: Entries, a: Seq<char>, b: Seq<char>) -> bool {
    &&& has_key(defs, b)
    &&& match lookup(defs, a) {
        Some(body) => idents_from(body, 0, false).contains(b),
        None => false,
    }
}

/// Each name of `p` mentions the next one.
pub open spec fn refs_chain(defs: Entries, p: Seq<Seq<char>>) -> bool {
    forall|k: int| 0 <= k < p.len() - 1 ==> #[trigger] references(defs, p[k], p[k + 1])
}

pub proof fn lemma_exp_from_mono(defs: Entries, s: Seq<char>, i: int, f: nat, g: nat)
    requires
        f <= g,
        exp_from(defs, s, i, f) is Some,
    ensures
        exp_from(defs, s, i, g) == exp_from(defs, s, i, f),
    decreases f, 1int, s.len() - i,
{
    if 0 <= i < s.len() {
        let j = token_end(s, i, false);
        lemma_token_end_bounds(s, i, false);
        let tok = s.subrange(i, j);
        if is_ident_start(s, i) && has_key(defs, tok) {
            lemma_exp_name_mono(defs, tok, f, g);
        }
        lemma_exp_from_mono(defs, s, j, f, g);
    }
}

pub proof fn lemma_exp_name_mono(defs: Entries, n: Seq<char>, f: nat, g: nat)
    requires
        f <= g,
        exp_name(defs, n, f) is Some,
    ensures
        exp_name(defs, n, g) == exp_name(defs, n, f),
    decreases f, 0int, 0int,
{
    let body = lookup(defs, n)->0;
    lemma_exp_from_mono(defs, body, 0, (f - 1) as nat, (g - 1) as nat);
}

pub proof fn lemma_text_expansion_at(defs: Entries, s: Seq<char>, f: nat)
    requires
        exp_from(defs, s, 0, f) is Some,
    ensures
        text_expansion(defs, s) == exp_from(defs, s, 0, f),
{
    assert(exists|f: nat| #[trigger] exp_from(defs, s, 0, f) is Some);
    let c = choose|f: nat| #[trigger] exp_from(defs, s, 0, f) is Some;
    if c <= f {
        lemma_exp_from_mono(defs, s, 0, c, f);
    } else {
        lemma_exp_from_mono(defs, s, 0, f, c);
    }
}

pub proof fn lemma_macro_expansion_at(defs: Entries, n: Seq<char>, f: nat)
    requires
        exp_name(defs, n, f) is Some,
    ensures
        macro_expansion(defs, n) == exp_name(defs, n, f),
{
    assert(exists|f: nat| #[trigger] exp_name(defs, n, f) is Some);
    let c = choose|f: nat| #[trigger] exp_name(defs, n, f) is Some;
    if c <= f {
        lemma_exp_name_mono(defs, n, c, f);
    } else {
        lemma_exp_name_mono(defs, n, f, c);
    }
}

/// A macro's expansion is the expansion of its body.
pub proof fn lemma_macro_is_body(defs: Entries, n: Seq<char>)
    requires
        has_key(defs, n),
    ensures
        macro_expansion(defs, n) == text_expansion(defs, lookup(defs, n)->0),
{
    let body = lookup(defs, n)->0;
    if exists|f: nat| #[trigger] exp_from(defs, body, 0, f) is Some {
        let f = choose|f: nat| #[trigger] exp_from(defs, body, 0, f) is Some;
        lemma_text_expansion_at(defs, body, f);
        assert(exp_name(defs, n, f + 1) == exp_from(defs, body, 0, f));
        lemma_macro_expansion_at(defs, n, f + 1);
    } else {
        assert forall|f: nat| #[trigger] exp_name(defs, n, f) is None by {
            if f > 0 {
                assert(exp_name(defs, n, f) == exp_from(defs, body, 0, (f - 1) as nat));
            }
        }
    }
}

/// Every macro named in a text must expand for the text to expand.
pub proof fn lemma_ident_needed(defs: Entries, s: Seq<char>, i: int, f: nat, x: Seq<char>)
    requires
        0 <= i,
        exp_from(defs, s, i, f) is Some,
        idents_from(s, i, false).contains(x),
        has_key(defs, x),
    ensures
        exp_name(defs, x, f) is Some,
    decreases s.len() - i,
{
    if i < s.len() {
        let j = token_end(s, i, false);
        lemma_token_end_bounds(s, i, false);
        let tok = s.subrange(i, j);
        let k = choose|k: int| 0 <= k < idents_from(s, i, false).len() && idents_from(s, i, false)[k] == x;
        if is_ident_start(s, i) {
            if k == 0 {
                assert(x == tok);
            } else {
                assert(idents_from(s, j, false)[k - 1] == x);
                lemma_ident_needed(defs, s, j, f, x);
            }
        } else {
            assert(idents_from(s, i, false) == idents_from(s, j, false));
            lemma_ident_needed(defs, s, j, f, x);
        }
    } else {
        assert(idents_from(s, i, false).len() == 0);
    }
}

/// A macro expands only where the macros it mentions expand, with less
/// nesting.
pub proof fn lemma_reference_needs(defs: Entries, a: Seq<char>, b: Seq<char>, f: nat)
    requires
        references(defs, a, b),
        exp_name(defs, a, f) is Some,
    ensures
        f >= 1,
        exp_name(defs, b, (f - 1) as nat) is Some,
{
    let body = lookup(defs, a)->0;
    lemma_ident_needed(defs, body, 0, (f - 1) as nat, b);
}

proof fn lemma_chain_descends(defs: Entries, p: Seq<Seq<char>>, f: nat, t: int)
    requires
        refs_chain(defs, p),
        0 <= t < p.len(),
        exp_name(defs, p[0], f) is Some,
    ensures
        f >= t,
        exp_name(defs, p[t], (f - t) as nat) is Some,
    decreases t,
{
    if t > 0 {
        lemma_chain_descends(defs, p, f, t - 1);
        let u = t - 1;
        assert(references(defs, p[u], p[u + 1]));
        assert(p[u + 1] == p[t]);
        lemma_reference_needs(defs, p[t - 1], p[t], (f - (t - 1)) as nat);
    }
}

proof fn lemma_cycle_never_expands(defs: Entries, p: Seq<Seq<char>>, f: nat)
    requires
        p.len() >= 2,
        p[0] == p[p.len() - 1],
        refs_chain(defs, p),
    ensures
        exp_name(defs, p[0], f) is None,
    decreases f,
{
    if exp_name(defs, p[0], f) is Some {
        lemma_chain_descends(defs, p, f, p.len() - 1);
        lemma_cycle_never_expands(defs, p, (f - (p.len() - 1)) as nat);
    }
}

/// A macro on a cycle of references has no expansion: expanding it never
/// ends, whatever the order in which the macros are visited.
pub proof fn lemma_reference_cycle_has_no_expansion(defs: Entries, p: Seq<Seq<char>>, k: int)
    requires
        p.len() >= 2,
        p[0] == p[p.len() - 1],
        refs_chain(defs, p),
        0 <= k < p.len(),
    ensures
        macro_expansion(defs, p[k]) is None,
{
    if exists|f: nat| #[trigger] exp_name(defs, p[k], f) is Some {
        let f = choose|f: nat| #[trigger] exp_name(defs, p[k], f) is Some;
        let q = p.subrange(k, p.len() as int);
        assert forall|m: int| 0 <= m < q.len() - 1 implies #[trigger] references(
            defs,
            q[m],
            q[m + 1],
        ) by {
            assert(references(defs, p[k + m], p[k + m + 1]));
        }
        lemma_chain_descends(defs, q, f, q.len() - 1);
        lemma_cycle_never_expands(defs, p, (f - (q.len() - 1)) as nat);
    }
}

/// `p` put before the text in `o`, if any.
pub open spec fn prepend(p: Seq<char>, o: Option<Seq<char>>) -> Option<Seq<char>> {
    match o {
        Some(r) => Some(p + r),
        None => None,
    }
}

/// A copy of the names in `v`.
fn copy_names(v: &Vec<String>) -> (r: Vec<String>)
    ensures
        names_of(r@) == names_of(v@),
{
    let mut r: Vec<String> = Vec::new();
    let mut i: usize = 0;
    while i < v.len()
        invariant
            i <= v@.len(),
            r@.len() == i,
            forall|k: int| 0 <= k < i ==> (#[trigger] r@[k])@ == v@[k]@,
        decreases v@.len() - i,
    {
        r.push(v[i].clone());
        i += 1;
    }
    assert(names_of(r@) =~= names_of(v@));
    r
}

/// Whether `name` is in `stack`.
fn stack_contains(stack: &Vec<String>, name: &String) -> (b: bool)
    ensures
        b == names_of(stack@).contains(name@),
{
    let mut i: usize = 0;
    while i < stack.len()
        invariant
            i <= stack@.len(),
            forall|k: int| 0 <= k < i ==> names_of(stack@)[k] != name@,
        decreases stack@.len() - i,
    {
        if stack[i] == *name {
            assert(names_of(stack@)[i as int] == name@);
            return true;
        }
        i += 1;
    }
    false
}

// ---------------------------------------------------------------------------
// Expansion in a context: a memo of expansions already known and a stack of
// macros whose expansion is in progress
// ---------------------------------------------------------------------------

/// As `exp_from`, where a name that `memo` holds stands for its memoized
/// text, and a name on `stack` that `memo` does not hold cannot be expanded.
pub open spec fn exp_from_in(
    defs: Entries,
    memo: Entries,
    stack: Seq<Seq<char>>,
    s: Seq<char>,
    i: int,
    fuel: nat,
) -> Option<Seq<char>>
    decreases fuel, 1int, s.len() - i,
{
    if 0 <= i < s.len() {
        let j = token_end(s, i, false);
        proof {
            lemma_token_end_bounds(s, i, false);
        }
        let tok = s.subrange(i, j);
        if is_ident_start(s, i) && has_key(defs, tok) {
            match exp_name_in(defs, memo, stack, tok, fuel) {
                Some(e) => match exp_from_in(defs, memo, stack, s, j, fuel) {
                    Some(r) => Some(seq!['('] + e + seq![')'] + r),
                    None => None,
                },
                None => None,
            }
        } else {
            match exp_from_in(defs, memo, stack, s, j, fuel) {
                Some(r) => Some(tok + r),
                None => None,
            }
        }
    } else {
        Some(Seq::empty())
    }
}

/// As `exp_name`, in the context of `memo` and `stack`.
pub open spec fn exp_name_in(
    defs: Entries,
    memo: Entries,
    stack: Seq<Seq<char>>,
    n: Seq<char>,
    fuel: nat,
) -> Option<Seq<char>>
    decreases fuel, 0int, 0int,
{
    if has_key(memo, n) {
        lookup(memo, n)
    } else if stack.contains(n) || fuel == 0 {
        None
    } else {
        match lookup(defs, n) {
            Some(body) => exp_from_in(defs, memo, stack, body, 0, (fuel - 1) as nat),
            None => None,
        }
    }
}

/// The expansion of the text `s` in the context of `memo` and `stack`, or
/// `None` when expanding it fails (reaches a name on `stack`) or never ends.
pub open spec fn text_expansion_in(
    defs: Entries,
    memo: Entries,
    stack: Seq<Seq<char>>,
    s: Seq<char>,
) -> Option<Seq<char>> {
    if exists|f: nat| #[trigger] exp_from_in(defs, memo, stack, s, 0, f) is Some {
        exp_from_in(
            defs,
            memo,
            stack,
            s,
            0,
            choose|f: nat| #[trigger] exp_from_in(defs, memo, stack, s, 0, f) is Some,
        )
    } else {
        None
    }
}

/// The expansion of the name `n` in the context of `memo` and `stack`.
pub open spec fn macro_expansion_in(
    defs: Entries,
    memo: Entries,
    stack: Seq<Seq<char>>,
    n: Seq<char>,
) -> Option<Seq<char>> {
    if exists|f: nat| #[trigger] exp_name_in(defs, memo, stack, n, f) is Some {
        exp_name_in(
            defs,
            memo,
            stack,
            n,
            choose|f: nat| #[trigger] exp_name_in(defs, memo, stack, n, f) is Some,
        )
    } else {
        None
    }
}

/// `memo2` is `memo` with more entries after it, each a name that `memo`
/// does not hold with its expansion in the context of `memo` and `stack`.
pub open spec fn memo_extends(
    defs: Entries,
    memo: Entries,
    stack: Seq<Seq<char>>,
    memo2: Entries,
) -> bool {
    &&& memo.is_prefix_of(memo2)
    &&& distinct_keys(memo2)
    &&& forall|k: Seq<char>|
        has_key(memo2, k) && !has_key(memo, k) ==> {
            &&& macro_expansion_in(defs, memo, stack, k) is Some
            &&& #[trigger] lookup(memo2, k) == macro_expansion_in(defs, memo, stack, k)
        }
}

/// A path of macros, each mentioning the next, none of them in `memo`.
pub open spec fn fresh_path(defs: Entries, memo: Entries, p: Seq<Seq<char>>) -> bool {
    &&& p.len() >= 1
    &&& has_key(defs, p[0])
    &&& refs_chain(defs, p)
    &&& forall|k: int| 0 <= k < p.len() ==> !has_key(memo, #[trigger] p[k])
}

/// The macro `b` is met while expanding the macro `a` without `memo`.
pub open spec fn reaches(defs: Entries, memo: Entries, a: Seq<char>, b: Seq<char>) -> bool {
    exists|p: Seq<Seq<char>>|
        #[trigger] fresh_path(defs, memo, p) && p[0] == a && p[p.len() - 1] == b
}

/// The macro `b` is met while expanding the text `s` without `memo`.
pub open spec fn text_reaches(defs: Entries, memo: Entries, s: Seq<char>, b: Seq<char>) -> bool {
    exists|x: Seq<char>| #[trigger] idents_from(s, 0, false).contains(x) && reaches(defs, memo, x, b)
}

/// Each name that `memo2` holds and `memo` does not is a macro whose
/// mentioned macros `memo2` all holds.
pub open spec fn memo_closed(defs: Entries, memo: Entries, memo2: Entries) -> bool {
    forall|k: Seq<char>, x: Seq<char>|
        has_key(memo2, k) && !has_key(memo, k) && #[trigger] references(defs, k, x) ==> has_key(
            memo2,
            x,
        )
}

/// `e` reports the cycle met when the expansion in progress on `stack` went
/// on through the macros `q`, which follow the stack in its path: each of
/// them mentions the next, none of them but the last is on the stack or
/// occurs twice, and the last one is on the stack or earlier in `q`.
pub open spec fn reports_cycle(defs: Entries, stack: Seq<Seq<char>>, e: ExpandError) -> bool {
    match e {
        ExpandError::CyclicMacro(p) => {
            let v = names_of(p@);
            let q = v.subrange(stack.len() as int, v.len() as int);
            &&& stack.is_prefix_of(v)
            &&& q.len() >= 1
            &&& refs_chain(defs, q)
            &&& q.drop_last().no_duplicates()
            &&& forall|k: int| 0 <= k < q.len() - 1 ==> !stack.contains(#[trigger] q[k])
            &&& v.drop_last().contains(v.last())
        },
        _ => false,
    }
}

/// The name that comes after `stack` in the path that `e` reports.
pub open spec fn cycle_entry(stack: Seq<Seq<char>>, e: ExpandError) -> Seq<char> {
    names_of(e->CyclicMacro_0@)[stack.len() as int]
}

/// A path of macros from its first, each mentioning the next, that repeats
/// no macro until its last one, which is one met before.
pub open spec fn is_cycle_path(defs: Entries, p: Seq<Seq<char>>) -> bool {
    &&& p.len() >= 2
    &&& has_key(defs, p[0])
    &&& refs_chain(defs, p)
    &&& p.drop_last().no_duplicates()
    &&& p.drop_last().contains(p.last())
}

/// The macros of `defs` not on `stack`.
pub open spec fn unvisited(defs: Entries, stack: Seq<Seq<char>>) -> nat {
    keys(defs).to_set().difference(stack.to_set()).len()
}

/// Putting a macro that is not in progress on the stack leaves fewer
/// macros unvisited.
pub proof fn lemma_unvisited_push(defs: Entries, stack: Seq<Seq<char>>, n: Seq<char>)
    requires
        has_key(defs, n),
        !stack.contains(n),
    ensures
        unvisited(defs, stack.push(n)) < unvisited(defs, stack),
{
    broadcast use vstd::seq_lib::seq_to_set_is_finite;
    broadcast use vstd::set::group_set_axioms;

    let a = keys(defs).to_set();
    let d1 = a.difference(stack.to_set());
    let d2 = a.difference(stack.push(n).to_set());
    let i = choose|i: int| 0 <= i < defs.len() && #[trigger] defs[i].0 == n;
    assert(keys(defs)[i] == n);
    assert(d1.contains(n));
    assert forall|x: Seq<char>| d2.contains(x) == d1.remove(n).contains(x) by {
        if stack.contains(x) {
            let k = choose|k: int| 0 <= k < stack.len() && stack[k] == x;
            assert(stack.push(n)[k] == x);
        }
        if stack.push(n).contains(x) && x != n {
            let k = choose|k: int| 0 <= k < stack.push(n).len() && stack.push(n)[k] == x;
            assert(stack[k] == x);
        }
        if x == n {
            assert(stack.push(n)[stack.len() as int] == n);
        }
    }
    assert(d2 =~= d1.remove(n));
    vstd::set_lib::lemma_len_subset(d1, a);
}

pub proof fn lemma_push_contains(s: Seq<Seq<char>>, n: Seq<char>, x: Seq<char>)
    ensures
        s.push(n).contains(x) == (s.contains(x) || x == n),
{
    if s.contains(x) {
        let k = choose|k: int| 0 <= k < s.len() && s[k] == x;
        assert(s.push(n)[k] == x);
    }
    if s.push(n).contains(x) && x != n {
        let k = choose|k: int| 0 <= k < s.push(n).len() && s.push(n)[k] == x;
        assert(s[k] == x);
    }
    if x == n {
        assert(s.push(n)[s.len() as int] == n);
    }
}

pub proof fn lemma_in_from_mono(
    defs: Entries,
    memo: Entries,
    st: Seq<Seq<char>>,
    s: Seq<char>,
    i: int,
    f: nat,
    g: nat,
)
    requires
        f <= g,
        exp_from_in(defs, memo, st, s, i, f) is Some,
    ensures
        exp_from_in(defs, memo, st, s, i, g) == exp_from_in(defs, memo, st, s, i, f),
    decreases f, 1int, s.len() - i,
{
    if 0 <= i < s.len() {
        let j = token_end(s, i, false);
        lemma_token_end_bounds(s, i, false);
        let tok = s.subrange(i, j);
        if is_ident_start(s, i) && has_key(defs, tok) {
            lemma_in_name_mono(defs, memo, st, tok, f, g);
        }
        lemma_in_from_mono(defs, memo, st, s, j, f, g);
    }
}

pub proof fn lemma_in_name_mono(
    defs: Entries,
    memo: Entries,
    st: Seq<Seq<char>>,
    n: Seq<char>,
    f: nat,
    g: nat,
)
    requires
        f <= g,
        exp_name_in(defs, memo, st, n, f) is Some,
    ensures
        exp_name_in(defs, memo, st, n, g) == exp_name_in(defs, memo, st, n, f),
    decreases f, 0int, 0int,
{
    if !has_key(memo, n) {
        let body = lookup(defs, n)->0;
        lemma_in_from_mono(defs, memo, st, body, 0, (f - 1) as nat, (g - 1) as nat);
    }
}

pub proof fn lemma_text_in_at(defs: Entries, memo: Entries, st: Seq<Seq<char>>, s: Seq<char>, f: nat)
    requires
        exp_from_in(defs, memo, st, s, 0, f) is Some,
    ensures
        text_expansion_in(defs, memo, st, s) == exp_from_in(defs, memo, st, s, 0, f),
{
    assert(exists|f: nat| #[trigger] exp_from_in(defs, memo, st, s, 0, f) is Some);
    let c = choose|f: nat| #[trigger] exp_from_in(defs, memo, st, s, 0, f) is Some;
    if c <= f {
        lemma_in_from_mono(defs, memo, st, s, 0, c, f);
    } else {
        lemma_in_from_mono(defs, memo, st, s, 0, f, c);
    }
}

pub proof fn lemma_name_in_at(defs: Entries, memo: Entries, st: Seq<Seq<char>>, n: Seq<char>, f: nat)
    requires
        exp_name_in(defs, memo, st, n, f) is Some,
    ensures
        macro_expansion_in(defs, memo, st, n) == exp_name_in(defs, memo, st, n, f),
{
    assert(exists|f: nat| #[trigger] exp_name_in(defs, memo, st, n, f) is Some);
    let c = choose|f: nat| #[trigger] exp_name_in(defs, memo, st, n, f) is Some;
    if c <= f {
        lemma_in_name_mono(defs, memo, st, n, c, f);
    } else {
        lemma_in_name_mono(defs, memo, st, n, f, c);
    }
}

/// With nothing memoized and nothing in progress, expansion in a context is
/// plain expansion.
pub proof fn lemma_in_empty_from(defs: Entries, s: Seq<char>, i: int, f: nat)
    ensures
        exp_from_in(defs, Seq::empty(), Seq::empty(), s, i, f) == exp_from(defs, s, i, f),
    decreases f, 1int, s.len() - i,
{
    if 0 <= i < s.len() {
        let j = token_end(s, i, false);
        lemma_token_end_bounds(s, i, false);
        let tok = s.subrange(i, j);
        if is_ident_start(s, i) && has_key(defs, tok) {
            lemma_in_empty_name(defs, tok, f);
        }
        lemma_in_empty_from(defs, s, j, f);
    }
}

pub proof fn lemma_in_empty_name(defs: Entries, n: Seq<char>, f: nat)
    ensures
        exp_name_in(defs, Seq::empty(), Seq::empty(), n, f) == exp_name(defs, n, f),
    decreases f, 0int, 0int,
{
    let e: Entries = Seq::empty();
    assert(!has_key(e, n));
    assert(!Seq::<Seq<char>>::empty().contains(n));
    if f > 0 {
        match lookup(defs, n) {
            Some(body) => lemma_in_empty_from(defs, body, 0, (f - 1) as nat),
            None => {},
        }
    }
}

/// With nothing memoized and nothing in progress, a macro expands to its
/// plain expansion.
pub proof fn lemma_macro_expansion_in_empty(defs: Entries, n: Seq<char>)
    ensures
        macro_expansion_in(defs, Seq::empty(), Seq::empty(), n) == macro_expansion(defs, n),
{
    if exists|f: nat| #[trigger] exp_name(defs, n, f) is Some {
        let f = choose|f: nat| #[trigger] exp_name(defs, n, f) is Some;
        lemma_in_empty_name(defs, n, f);
        lemma_name_in_at(defs, Seq::empty(), Seq::empty(), n, f);
        lemma_macro_expansion_at(defs, n, f);
    } else {
        assert forall|f: nat| #[trigger] exp_name_in(defs, Seq::empty(), Seq::empty(), n, f) is None by {
            lemma_in_empty_name(defs, n, f);
        }
    }
}

/// An expansion that succeeds with more names in progress succeeds, the
/// same, with fewer.
pub proof fn lemma_in_from_fewer(
    defs: Entries,
    memo: Entries,
    st: Seq<Seq<char>>,
    st2: Seq<Seq<char>>,
    s: Seq<char>,
    i: int,
    f: nat,
)
    requires
        forall|x: Seq<char>| st.contains(x) ==> st2.contains(x),
        exp_from_in(defs, memo, st2, s, i, f) is Some,
    ensures
        exp_from_in(defs, memo, st, s, i, f) == exp_from_in(defs, memo, st2, s, i, f),
    decreases f, 1int, s.len() - i,
{
    if 0 <= i < s.len() {
        let j = token_end(s, i, false);
        lemma_token_end_bounds(s, i, false);
        let tok = s.subrange(i, j);
        if is_ident_start(s, i) && has_key(defs, tok) {
            lemma_in_name_fewer(defs, memo, st, st2, tok, f);
        }
        lemma_in_from_fewer(defs, memo, st, st2, s, j, f);
    }
}

pub proof fn lemma_in_name_fewer(
    defs: Entries,
    memo: Entries,
    st: Seq<Seq<char>>,
    st2: Seq<Seq<char>>,
    n: Seq<char>,
    f: nat,
)
    requires
        forall|x: Seq<char>| st.contains(x) ==> st2.contains(x),
        exp_name_in(defs, memo, st2, n, f) is Some,
    ensures
        exp_name_in(defs, memo, st, n, f) == exp_name_in(defs, memo, st2, n, f),
    decreases f, 0int, 0int,
{
    if !has_key(memo, n) {
        let body = lookup(defs, n)->0;
        lemma_in_from_fewer(defs, memo, st, st2, body, 0, (f - 1) as nat);
    }
}

proof fn lemma_in_from_push(
    defs: Entries,
    memo: Entries,
    st: Seq<Seq<char>>,
    n: Seq<char>,
    s: Seq<char>,
    i: int,
    g: nat,
)
    requires
        forall|h: nat| h <= g ==> #[trigger] exp_name_in(defs, memo, st, n, h) is None,
        exp_from_in(defs, memo, st, s, i, g) is Some,
    ensures
        exp_from_in(defs, memo, st.push(n), s, i, g) == exp_from_in(defs, memo, st, s, i, g),
    decreases g, 1int, s.len() - i,
{
    if 0 <= i < s.len() {
        let j = token_end(s, i, false);
        lemma_token_end_bounds(s, i, false);
        let tok = s.subrange(i, j);
        if is_ident_start(s, i) && has_key(defs, tok) {
            lemma_in_name_push(defs, memo, st, n, tok, g);
        }
        lemma_in_from_push(defs, memo, st, n, s, j, g);
    }
}

proof fn lemma_in_name_push(
    defs: Entries,
    memo: Entries,
    st: Seq<Seq<char>>,
    n: Seq<char>,
    x: Seq<char>,
    g: nat,
)
    requires
        forall|h: nat| h <= g ==> #[trigger] exp_name_in(defs, memo, st, n, h) is None,
        exp_name_in(defs, memo, st, x, g) is Some,
    ensures
        exp_name_in(defs, memo, st.push(n), x, g) == exp_name_in(defs, memo, st, x, g),
    decreases g, 0int, 0int,
{
    assert(exp_name_in(defs, memo, st, n, g) is None);
    lemma_push_contains(st, n, x);
    if !has_key(memo, x) {
        let body = lookup(defs, x)->0;
        assert forall|h: nat| h <= (g - 1) as nat implies #[trigger] exp_name_in(
            defs,
            memo,
            st,
            n,
            h,
        ) is None by {
            assert(exp_name_in(defs, memo, st, n, h) is None);
        }
        lemma_in_from_push(defs, memo, st, n, body, 0, (g - 1) as nat);
    }
}

proof fn lemma_least_fuel(defs: Entries, memo: Entries, st: Seq<Seq<char>>, n: Seq<char>, f: nat) -> (f0: nat)
    requires
        exp_name_in(defs, memo, st, n, f) is Some,
    ensures
        f0 <= f,
        exp_name_in(defs, memo, st, n, f0) is Some,
        forall|h: nat| h < f0 ==> #[trigger] exp_name_in(defs, memo, st, n, h) is None,
    decreases f,
{
    if f > 0 && exp_name_in(defs, memo, st, n, (f - 1) as nat) is Some {
        lemma_least_fuel(defs, memo, st, n, (f - 1) as nat)
    } else {
        assert forall|h: nat| h < f implies #[trigger] exp_name_in(defs, memo, st, n, h) is None by {
            if exp_name_in(defs, memo, st, n, h) is Some {
                lemma_in_name_mono(defs, memo, st, n, h, (f - 1) as nat);
            }
        }
        f
    }
}

/// A macro expands, in a context, exactly as its body does with the macro
/// itself put in progress.
pub proof fn lemma_macro_is_body_in(defs: Entries, memo: Entries, st: Seq<Seq<char>>, n: Seq<char>)
    requires
        !has_key(memo, n),
        !st.contains(n),
        has_key(defs, n),
    ensures
        macro_expansion_in(defs, memo, st, n) == text_expansion_in(
            defs,
            memo,
            st.push(n),
            lookup(defs, n)->0,
        ),
{
    let body = lookup(defs, n)->0;
    assert forall|x: Seq<char>| st.contains(x) implies st.push(n).contains(x) by {
        lemma_push_contains(st, n, x);
    }
    if exists|f: nat| #[trigger] exp_name_in(defs, memo, st, n, f) is Some {
        let f = choose|f: nat| #[trigger] exp_name_in(defs, memo, st, n, f) is Some;
        let f0 = lemma_least_fuel(defs, memo, st, n, f);
        let g = (f0 - 1) as nat;
        assert forall|h: nat| h <= g implies #[trigger] exp_name_in(defs, memo, st, n, h) is None by {
        }
        lemma_in_from_push(defs, memo, st, n, body, 0, g);
        lemma_text_in_at(defs, memo, st.push(n), body, g);
        lemma_name_in_at(defs, memo, st, n, f0);
    } else if exists|f: nat| #[trigger] exp_from_in(defs, memo, st.push(n), body, 0, f) is Some {
        let f = choose|f: nat| #[trigger] exp_from_in(defs, memo, st.push(n), body, 0, f) is Some;
        lemma_in_from_fewer(defs, memo, st, st.push(n), body, 0, f);
        assert(exp_name_in(defs, memo, st, n, f + 1) is Some);
    }
}

/// Memoizing expansions changes no expansion: one way.
proof fn lemma_extend_from_up(
    defs: Entries,
    memo: Entries,
    st: Seq<Seq<char>>,
    memo2: Entries,
    s: Seq<char>,
    i: int,
    f: nat,
)
    requires
        distinct_keys(memo),
        memo_extends(defs, memo, st, memo2),
        exp_from_in(defs, memo, st, s, i, f) is Some,
    ensures
        exp_from_in(defs, memo2, st, s, i, f) == exp_from_in(defs, memo, st, s, i, f),
    decreases f, 1int, s.len() - i,
{
    if 0 <= i < s.len() {
        let j = token_end(s, i, false);
        lemma_token_end_bounds(s, i, false);
        let tok = s.subrange(i, j);
        if is_ident_start(s, i) && has_key(defs, tok) {
            lemma_extend_name_up(defs, memo, st, memo2, tok, f);
        }
        lemma_extend_from_up(defs, memo, st, memo2, s, j, f);
    }
}

proof fn lemma_extend_name_up(
    defs: Entries,
    memo: Entries,
    st: Seq<Seq<char>>,
    memo2: Entries,
    n: Seq<char>,
    f: nat,
)
    requires
        distinct_keys(memo),
        memo_extends(defs, memo, st, memo2),
        exp_name_in(defs, memo, st, n, f) is Some,
    ensures
        exp_name_in(defs, memo2, st, n, f) == exp_name_in(defs, memo, st, n, f),
    decreases f, 0int, 0int,
{
    if has_key(memo, n) {
        crate::table::lemma_lookup_prefix(memo, memo2, n);
    } else if has_key(memo2, n) {
        assert(lookup(memo2, n) == macro_expansion_in(defs, memo, st, n));
        lemma_name_in_at(defs, memo, st, n, f);
    } else {
        let body = lookup(defs, n)->0;
        lemma_extend_from_up(defs, memo, st, memo2, body, 0, (f - 1) as nat);
    }
}

/// Memoizing expansions changes no expansion: the other way.
proof fn lemma_extend_from_down(
    defs: Entries,
    memo: Entries,
    st: Seq<Seq<char>>,
    memo2: Entries,
    s: Seq<char>,
    i: int,
    f: nat,
)
    requires
        distinct_keys(memo),
        memo_extends(defs, memo, st, memo2),
        exp_from_in(defs, memo2, st, s, i, f) is Some,
    ensures
        exists|g: nat|
            #[trigger] exp_from_in(defs, memo, st, s, i, g) == exp_from_in(defs, memo2, st, s, i, f),
    decreases f, 1int, s.len() - i,
{
    if 0 <= i < s.len() {
        let j = token_end(s, i, false);
        lemma_token_end_bounds(s, i, false);
        let tok = s.subrange(i, j);
        lemma_extend_from_down(defs, memo, st, memo2, s, j, f);
        let g2 = choose|g: nat|
            #[trigger] exp_from_in(defs, memo, st, s, j, g) == exp_from_in(defs, memo2, st, s, j, f);
        if is_ident_start(s, i) && has_key(defs, tok) {
            lemma_extend_name_down(defs, memo, st, memo2, tok, f);
            let g1 = choose|g: nat|
                #[trigger] exp_name_in(defs, memo, st, tok, g) == exp_name_in(defs, memo2, st, tok, f);
            let g = if g1 > g2 {
                g1
            } else {
                g2
            };
            lemma_in_name_mono(defs, memo, st, tok, g1, g);
            lemma_in_from_mono(defs, memo, st, s, j, g2, g);
            assert(exp_from_in(defs, memo, st, s, i, g) == exp_from_in(defs, memo2, st, s, i, f));
        } else {
            assert(exp_from_in(defs, memo, st, s, i, g2) == exp_from_in(defs, memo2, st, s, i, f));
        }
    } else {
        assert(exp_from_in(defs, memo, st, s, i, 0) == exp_from_in(defs, memo2, st, s, i, f));
    }
}

proof fn lemma_extend_name_down(
    defs: Entries,
    memo: Entries,
    st: Seq<Seq<char>>,
    memo2: Entries,
    n: Seq<char>,
    f: nat,
)
    requires
        distinct_keys(memo),
        memo_extends(defs, memo, st, memo2),
        exp_name_in(defs, memo2, st, n, f) is Some,
    ensures
        exists|g: nat|
            #[trigger] exp_name_in(defs, memo, st, n, g) == exp_name_in(defs, memo2, st, n, f),
    decreases f, 0int, 0int,
{
    if has_key(memo, n) {
        crate::table::lemma_lookup_prefix(memo, memo2, n);
        assert(exp_name_in(defs, memo, st, n, f) == exp_name_in(defs, memo2, st, n, f));
    } else if has_key(memo2, n) {
        assert(lookup(memo2, n) == macro_expansion_in(defs, memo, st, n));
        let g = choose|g: nat| #[trigger] exp_name_in(defs, memo, st, n, g) is Some;
        assert(exp_name_in(defs, memo, st, n, g) == exp_name_in(defs, memo2, st, n, f));
    } else {
        let body = lookup(defs, n)->0;
        assert forall|k: int| 0 <= k < memo.len() implies memo[k].0 != n by {
            assert(memo2[k] == memo[k]);
            if memo[k].0 == n {
                assert(has_key(memo2, n));
            }
        }
        lemma_extend_from_down(defs, memo, st, memo2, body, 0, (f - 1) as nat);
        let g = choose|g: nat|
            #[trigger] exp_from_in(defs, memo, st, body, 0, g) == exp_from_in(
                defs,
                memo2,
                st,
                body,
                0,
                (f - 1) as nat,
            );
        assert(exp_name_in(defs, memo, st, n, g + 1) == exp_name_in(defs, memo2, st, n, f));
    }
}

/// Memoizing expansions, each in the context it was computed in, changes no
/// expansion.
pub proof fn lemma_extend_keeps_expansions(
    defs: Entries,
    memo: Entries,
    st: Seq<Seq<char>>,
    memo2: Entries,
    n: Seq<char>,
    s: Seq<char>,
)
    requires
        distinct_keys(memo),
        memo_extends(defs, memo, st, memo2),
    ensures
        macro_expansion_in(defs, memo2, st, n) == macro_expansion_in(defs, memo, st, n),
        text_expansion_in(defs, memo2, st, s) == text_expansion_in(defs, memo, st, s),
{
    if exists|f: nat| #[trigger] exp_name_in(defs, memo, st, n, f) is Some {
        let f = choose|f: nat| #[trigger] exp_name_in(defs, memo, st, n, f) is Some;
        lemma_extend_name_up(defs, memo, st, memo2, n, f);
        lemma_name_in_at(defs, memo, st, n, f);
        lemma_name_in_at(defs, memo2, st, n, f);
    } else if exists|f: nat| #[trigger] exp_name_in(defs, memo2, st, n, f) is Some {
        let f = choose|f: nat| #[trigger] exp_name_in(defs, memo2, st, n, f) is Some;
        lemma_extend_name_down(defs, memo, st, memo2, n, f);
    }
    if exists|f: nat| #[trigger] exp_from_in(defs, memo, st, s, 0, f) is Some {
        let f = choose|f: nat| #[trigger] exp_from_in(defs, memo, st, s, 0, f) is Some;
        lemma_extend_from_up(defs, memo, st, memo2, s, 0, f);
        lemma_text_in_at(defs, memo, st, s, f);
        lemma_text_in_at(defs, memo2, st, s, f);
    } else if exists|f: nat| #[trigger] exp_from_in(defs, memo2, st, s, 0, f) is Some {
        let f = choose|f: nat| #[trigger] exp_from_in(defs, memo2, st, s, 0, f) is Some;
        lemma_extend_from_down(defs, memo, st, memo2, s, 0, f);
    }
}

/// Memo extensions compose.
pub proof fn lemma_extends_trans(
    defs: Entries,
    m1: Entries,
    st: Seq<Seq<char>>,
    m2: Entries,
    m3: Entries,
)
    requires
        distinct_keys(m1),
        memo_extends(defs, m1, st, m2),
        memo_extends(defs, m2, st, m3),
    ensures
        memo_extends(defs, m1, st, m3),
{
    assert forall|k: Seq<char>| has_key(m3, k) && !has_key(m1, k) implies {
        &&& macro_expansion_in(defs, m1, st, k) is Some
        &&& #[trigger] lookup(m3, k) == macro_expansion_in(defs, m1, st, k)
    } by {
        lemma_extend_keeps_expansions(defs, m1, st, m2, k, Seq::empty());
        if has_key(m2, k) {
            crate::table::lemma_lookup_prefix(m2, m3, k);
        }
    }
}

/// Every macro named in a text must expand, in the same context, for the
/// text to expand.
pub proof fn lemma_in_ident_needed(
    defs: Entries,
    memo: Entries,
    st: Seq<Seq<char>>,
    s: Seq<char>,
    i: int,
    f: nat,
    x: Seq<char>,
)
    requires
        0 <= i,
        exp_from_in(defs, memo, st, s, i, f) is Some,
        idents_from(s, i, false).contains(x),
        has_key(defs, x),
    ensures
        exp_name_in(defs, memo, st, x, f) is Some,
    decreases s.len() - i,
{
    if i < s.len() {
        let j = token_end(s, i, false);
        lemma_token_end_bounds(s, i, false);
        let tok = s.subrange(i, j);
        let k = choose|k: int| 0 <= k < idents_from(s, i, false).len() && idents_from(s, i, false)[k] == x;
        if is_ident_start(s, i) {
            if k == 0 {
                assert(x == tok);
            } else {
                assert(idents_from(s, j, false)[k - 1] == x);
                lemma_in_ident_needed(defs, memo, st, s, j, f, x);
            }
        } else {
            assert(idents_from(s, i, false) == idents_from(s, j, false));
            lemma_in_ident_needed(defs, memo, st, s, j, f, x);
        }
    } else {
        assert(idents_from(s, i, false).len() == 0);
    }
}

/// A memo closed under references holds every macro met, without the
/// older memo, from a macro it holds.
pub proof fn lemma_closed_holds_path(
    defs: Entries,
    memo: Entries,
    memo2: Entries,
    p: Seq<Seq<char>>,
    t: int,
)
    requires
        fresh_path(defs, memo, p),
        has_key(memo2, p[0]),
        memo_closed(defs, memo, memo2),
        0 <= t < p.len(),
    ensures
        has_key(memo2, p[t]),
    decreases t,
{
    if t > 0 {
        lemma_closed_holds_path(defs, memo, memo2, p, t - 1);
        let u = t - 1;
        assert(references(defs, p[u], p[u + 1]));
        assert(!has_key(memo, p[u]));
    }
}


/// Some macro of `xs` reaches `k`.
pub open spec fn list_reaches(defs: Entries, memo: Entries, xs: Seq<Seq<char>>, k: Seq<char>) -> bool {
    exists|x: Seq<char>| #[trigger] xs.contains(x) && reaches(defs, memo, x, k)
}

/// A table that extends another holds its names.
pub proof fn lemma_has_key_prefix(t: Entries, t2: Entries, k: Seq<char>)
    requires
        t.is_prefix_of(t2),
        has_key(t, k),
    ensures
        has_key(t2, k),
{
    let i = choose|i: int| 0 <= i < t.len() && #[trigger] t[i].0 == k;
    assert(t2[i] == t[i]);
}

proof fn lemma_fresh_path_smaller_memo(defs: Entries, m: Entries, m2: Entries, p: Seq<Seq<char>>)
    requires
        m.is_prefix_of(m2),
        fresh_path(defs, m2, p),
    ensures
        fresh_path(defs, m, p),
{
    assert forall|y: Seq<char>| has_key(m, y) implies has_key(m2, y) by {
        lemma_has_key_prefix(m, m2, y);
    }
    lemma_fresh_path_fewer_names(defs, m, m2, p);
}

proof fn lemma_fresh_path_fewer_names(defs: Entries, m: Entries, m2: Entries, p: Seq<Seq<char>>)
    requires
        forall|y: Seq<char>| has_key(m, y) ==> has_key(m2, y),
        fresh_path(defs, m2, p),
    ensures
        fresh_path(defs, m, p),
{
    assert forall|k: int| 0 <= k < p.len() implies !has_key(m, #[trigger] p[k]) by {
        assert(!has_key(m2, p[k]));
    }
}

proof fn lemma_fresh_path_push(defs: Entries, m: Entries, q: Seq<Seq<char>>, y: Seq<char>)
    requires
        fresh_path(defs, m, q),
        references(defs, q[q.len() - 1], y),
        !has_key(m, y),
    ensures
        fresh_path(defs, m, q.push(y)),
{
    let q2 = q.push(y);
    assert forall|t: int| 0 <= t < q2.len() - 1 implies #[trigger] references(defs, q2[t], q2[t + 1]) by {
        if t < q.len() - 1 {
            assert(q2[t] == q[t] && q2[t + 1] == q[t + 1]);
        }
    }
    assert forall|t: int| 0 <= t < q2.len() implies !has_key(m, #[trigger] q2[t]) by {
        if t < q.len() {
            assert(q2[t] == q[t]);
        }
    }
}

/// Along a path avoiding `m`, each macro is reached from `a` avoiding `m`,
/// or from the start of the path avoiding `m1` too.
proof fn lemma_path_split(
    defs: Entries,
    m: Entries,
    m1: Entries,
    a: Seq<char>,
    p: Seq<Seq<char>>,
    t: int,
)
    requires
        forall|k: Seq<char>| #[trigger] has_key(m1, k) == (has_key(m, k) || reaches(defs, m, a, k)),
        fresh_path(defs, m, p),
        0 <= t < p.len(),
    ensures
        reaches(defs, m, a, p[t]) || fresh_path(defs, m1, p.subrange(0, t + 1)),
    decreases t,
{
    let pre = p.subrange(0, t + 1);
    if t == 0 {
        if !has_key(m1, p[0]) {
            assert(fresh_path(defs, m1, pre));
        }
    } else {
        lemma_path_split(defs, m, m1, a, p, t - 1);
        let u = t - 1;
        assert(references(defs, p[u], p[u + 1]));
        assert(!has_key(m, p[t]));
        if reaches(defs, m, a, p[u]) {
            let q = choose|q: Seq<Seq<char>>| #[trigger] fresh_path(defs, m, q) && q[0] == a && q[q.len() - 1] == p[u];
            lemma_fresh_path_push(defs, m, q, p[t]);
            assert(q.push(p[t])[0] == a);
        } else if !has_key(m1, p[t]) {
            let pu = p.subrange(0, t);
            assert(pu[pu.len() - 1] == p[u]);
            lemma_fresh_path_push(defs, m1, pu, p[t]);
            assert(pu.push(p[t]) =~= pre);
        }
    }
}

/// Resolving two macros one after the other leaves the memo with the same
/// names whichever is resolved first: those it held and those met from
/// either macro.
pub proof fn lemma_resolve_order(
    defs: Entries,
    m: Entries,
    m1: Entries,
    m2: Entries,
    a: Seq<char>,
    b: Seq<char>,
)
    requires
        forall|k: Seq<char>| #[trigger] has_key(m1, k) == (has_key(m, k) || reaches(defs, m, a, k)),
        forall|k: Seq<char>| #[trigger] has_key(m2, k) == (has_key(m1, k) || reaches(defs, m1, b, k)),
    ensures
        forall|k: Seq<char>|
            #[trigger] has_key(m2, k) == (has_key(m, k) || reaches(defs, m, a, k) || reaches(
                defs,
                m,
                b,
                k,
            )),
{
    assert forall|k: Seq<char>| #[trigger] has_key(m2, k) == (has_key(m, k) || reaches(defs, m, a, k)
        || reaches(defs, m, b, k)) by {
        if reaches(defs, m1, b, k) {
            let p = choose|p: Seq<Seq<char>>| #[trigger] fresh_path(defs, m1, p) && p[0] == b && p[p.len() - 1] == k;
            assert forall|y: Seq<char>| has_key(m, y) implies has_key(m1, y) by {}
            lemma_fresh_path_fewer_names(defs, m, m1, p);
        }
        if reaches(defs, m, b, k) && !has_key(m, k) && !reaches(defs, m, a, k) {
            let p = choose|p: Seq<Seq<char>>| #[trigger] fresh_path(defs, m, p) && p[0] == b && p[p.len() - 1] == k;
            lemma_path_split(defs, m, m1, a, p, p.len() - 1);
            assert(p.subrange(0, p.len() as int) =~= p);
        }
    }
}

/// Resolving two macros one after the other, in either order, from the same
/// memo and stack: each macro gets the same text whichever comes first, and
/// the two memos, which hold the same names, give every name the same text.
pub proof fn lemma_resolve_order_texts(
    defs: Entries,
    m: Entries,
    st: Seq<Seq<char>>,
    a: Seq<char>,
    b: Seq<char>,
    m1: Entries,
    m2: Entries,
    n1: Entries,
    n2: Entries,
)
    requires
        distinct_keys(m),
        memo_extends(defs, m, st, m1),
        memo_extends(defs, m1, st, m2),
        memo_extends(defs, m, st, n1),
        memo_extends(defs, n1, st, n2),
        forall|k: Seq<char>| #[trigger] has_key(m2, k) == has_key(n2, k),
    ensures
        macro_expansion_in(defs, m, st, a) == macro_expansion_in(defs, n1, st, a),
        macro_expansion_in(defs, m, st, b) == macro_expansion_in(defs, m1, st, b),
        forall|k: Seq<char>| #[trigger] lookup(m2, k) == lookup(n2, k),
{
    lemma_extend_keeps_expansions(defs, m, st, n1, a, Seq::empty());
    lemma_extend_keeps_expansions(defs, m, st, m1, b, Seq::empty());
    lemma_extends_trans(defs, m, st, m1, m2);
    lemma_extends_trans(defs, m, st, n1, n2);
    assert forall|k: Seq<char>| #[trigger] lookup(m2, k) == lookup(n2, k) by {
        if has_key(m, k) {
            crate::table::lemma_lookup_prefix(m, m2, k);
            crate::table::lemma_lookup_prefix(m, n2, k);
        } else if has_key(m2, k) {
            assert(has_key(n2, k));
        }
    }
}

/// Closure under references composes.
pub proof fn lemma_closed_trans(defs: Entries, m1: Entries, m2: Entries, m3: Entries)
    requires
        memo_closed(defs, m1, m2),
        memo_closed(defs, m2, m3),
        m2.is_prefix_of(m3),
    ensures
        memo_closed(defs, m1, m3),
{
    assert forall|k: Seq<char>, x: Seq<char>|
        has_key(m3, k) && !has_key(m1, k) && #[trigger] references(defs, k, x) implies has_key(
        m3,
        x,
    ) by {
        if has_key(m2, k) {
            assert(has_key(m2, x));
            lemma_has_key_prefix(m2, m3, x);
        }
    }
}

proof fn lemma_extends_fewer_stack(
    defs: Entries,
    m: Entries,
    st: Seq<Seq<char>>,
    st2: Seq<Seq<char>>,
    m2: Entries,
)
    requires
        forall|x: Seq<char>| st.contains(x) ==> st2.contains(x),
        memo_extends(defs, m, st2, m2),
    ensures
        memo_extends(defs, m, st, m2),
{
    assert forall|k: Seq<char>| has_key(m2, k) && !has_key(m, k) implies {
        &&& macro_expansion_in(defs, m, st, k) is Some
        &&& #[trigger] lookup(m2, k) == macro_expansion_in(defs, m, st, k)
    } by {
        assert(lookup(m2, k) == macro_expansion_in(defs, m, st2, k));
        let f = choose|f: nat| #[trigger] exp_name_in(defs, m, st2, k, f) is Some;
        lemma_in_name_fewer(defs, m, st, st2, k, f);
        lemma_name_in_at(defs, m, st, k, f);
    }
}

/// A path from a macro mentioned in the body of `name` is a path from
/// `name`.
proof fn lemma_reach_prepend(defs: Entries, m: Entries, name: Seq<char>, body: Seq<char>, k: Seq<char>)
    requires
        lookup(defs, name) == Some(body),
        has_key(defs, name),
        !has_key(m, name),
        text_reaches(defs, m, body, k),
    ensures
        reaches(defs, m, name, k),
{
    let x = choose|x: Seq<char>| #[trigger] idents_from(body, 0, false).contains(x) && reaches(defs, m, x, k);
    let p = choose|p: Seq<Seq<char>>| #[trigger] fresh_path(defs, m, p) && p[0] == x && p[p.len() - 1] == k;
    let p2 = seq![name] + p;
    assert(references(defs, name, x));
    assert forall|t: int| 0 <= t < p2.len() - 1 implies #[trigger] references(defs, p2[t], p2[t + 1]) by {
        if t > 0 {
            assert(p2[t] == p[t - 1] && p2[t + 1] == p[t]);
            assert(references(defs, p[t - 1], p[(t - 1) + 1]));
        }
    }
    assert forall|t: int| 0 <= t < p2.len() implies !has_key(m, #[trigger] p2[t]) by {
        if t > 0 {
            assert(p2[t] == p[t - 1]);
        }
    }
    assert(fresh_path(defs, m, p2));
}

/// A cycle met below `name` is a cycle met from `name`.
proof fn lemma_cycle_extend(defs: Entries, st: Seq<Seq<char>>, name: Seq<char>, e: ExpandError)
    requires
        reports_cycle(defs, st.push(name), e),
        !st.contains(name),
        references(defs, name, cycle_entry(st.push(name), e)),
    ensures
        reports_cycle(defs, st, e),
        cycle_entry(st, e) == name,
{
    let s1 = st.push(name);
    let v = names_of(e->CyclicMacro_0@);
    let q1 = v.subrange(s1.len() as int, v.len() as int);
    let q = v.subrange(st.len() as int, v.len() as int);
    assert(v[st.len() as int] == s1[st.len() as int]);
    assert(q =~= seq![name] + q1);
    assert(st.is_prefix_of(v)) by {
        assert forall|k: int| 0 <= k < st.len() implies st[k] == v[k] by {
            assert(s1[k] == st[k]);
        }
    }
    assert forall|t: int| 0 <= t < q.len() - 1 implies #[trigger] references(defs, q[t], q[t + 1]) by {
        if t > 0 {
            assert(q[t] == q1[t - 1] && q[t + 1] == q1[t]);
            assert(references(defs, q1[t - 1], q1[(t - 1) + 1]));
        } else {
            assert(q[1] == q1[0]);
        }
    }
    assert forall|t: int| 0 <= t < q.len() - 1 implies !st.contains(#[trigger] q[t]) by {
        if t > 0 {
            assert(q[t] == q1[t - 1]);
            assert(!s1.contains(q1[t - 1]));
            lemma_push_contains(st, name, q1[t - 1]);
        }
    }
    assert(q.drop_last() =~= seq![name] + q1.drop_last());
    assert(q.drop_last().no_duplicates()) by {
        assert forall|a: int, b: int|
            0 <= a < q.drop_last().len() && 0 <= b < q.drop_last().len() && a != b implies q.drop_last()[a]
            != q.drop_last()[b] by {
            if a > 0 && b > 0 {
                assert(q.drop_last()[a] == q1.drop_last()[a - 1]);
                assert(q.drop_last()[b] == q1.drop_last()[b - 1]);
            } else if a == 0 {
                assert(q.drop_last()[b] == q1[b - 1]);
                assert(!s1.contains(q1[b - 1]));
                assert(s1[st.len() as int] == name);
            } else {
                assert(q.drop_last()[a] == q1[a - 1]);
                assert(!s1.contains(q1[a - 1]));
                assert(s1[st.len() as int] == name);
            }
        }
    }
}

// ---------------------------------------------------------------------------
// The cycle that expansion reports
// ---------------------------------------------------------------------------

/// The macro `x` cannot be expanded in the context of `memo` and `stack`.
pub open spec fn fails_in(defs: Entries, memo: Entries, st: Seq<Seq<char>>, x: Seq<char>) -> bool {
    has_key(defs, x) && macro_expansion_in(defs, memo, st, x) is None
}

/// The first name of `xs` that `fails_in`.
pub open spec fn first_failing(
    defs: Entries,
    memo: Entries,
    st: Seq<Seq<char>>,
    xs: Seq<Seq<char>>,
) -> Seq<char>
    decreases xs.len(),
{
    if xs.len() == 0 {
        Seq::empty()
    } else if fails_in(defs, memo, st, xs[0]) {
        xs[0]
    } else {
        first_failing(defs, memo, st, xs.drop_first())
    }
}

/// Some name of `xs` `fails_in`.
pub open spec fn some_failing(
    defs: Entries,
    memo: Entries,
    st: Seq<Seq<char>>,
    xs: Seq<Seq<char>>,
) -> bool {
    exists|t: int| 0 <= t < xs.len() && #[trigger] fails_in(defs, memo, st, xs[t])
}

/// The path that expanding the macro `x` reports as a cycle, `st` being the
/// macros in progress: the search goes depth first, through the macros that
/// a body names in the order in which it names them, and follows the first
/// that fails, until it meets a macro on the path again.
pub open spec fn cycle_path(
    defs: Entries,
    memo: Entries,
    st: Seq<Seq<char>>,
    x: Seq<char>,
) -> Seq<Seq<char>>
    decreases unvisited(defs, st),
{
    if st.contains(x) || !has_key(defs, x) {
        st.push(x)
    } else {
        let s1 = st.push(x);
        let xs = idents_from(lookup(defs, x)->0, 0, false);
        if some_failing(defs, memo, s1, xs) {
            proof {
                lemma_unvisited_push(defs, st, x);
            }
            cycle_path(defs, memo, s1, first_failing(defs, memo, s1, xs))
        } else {
            s1
        }
    }
}

/// The path that expanding the text `s` reports as a cycle.
pub open spec fn text_cycle_path(
    defs: Entries,
    memo: Entries,
    st: Seq<Seq<char>>,
    s: Seq<char>,
) -> Seq<Seq<char>> {
    cycle_path(defs, memo, st, first_failing(defs, memo, st, idents_from(s, 0, false)))
}

proof fn lemma_first_failing_at(
    defs: Entries,
    memo: Entries,
    st: Seq<Seq<char>>,
    xs: Seq<Seq<char>>,
    t: int,
)
    requires
        0 <= t < xs.len(),
        fails_in(defs, memo, st, xs[t]),
        forall|u: int| 0 <= u < t ==> !fails_in(defs, memo, st, #[trigger] xs[u]),
    ensures
        first_failing(defs, memo, st, xs) == xs[t],
    decreases t,
{
    if t > 0 {
        let ys = xs.drop_first();
        assert forall|u: int| 0 <= u < t - 1 implies !fails_in(defs, memo, st, #[trigger] ys[u]) by {
            assert(ys[u] == xs[u + 1]);
        }
        lemma_first_failing_at(defs, memo, st, ys, t - 1);
    }
}

proof fn lemma_first_failing_fails(
    defs: Entries,
    memo: Entries,
    st: Seq<Seq<char>>,
    xs: Seq<Seq<char>>,
)
    requires
        some_failing(defs, memo, st, xs),
    ensures
        fails_in(defs, memo, st, first_failing(defs, memo, st, xs)),
    decreases xs.len(),
{
    if !fails_in(defs, memo, st, xs[0]) {
        let t = choose|t: int| 0 <= t < xs.len() && #[trigger] fails_in(defs, memo, st, xs[t]);
        let ys = xs.drop_first();
        assert(ys[t - 1] == xs[t]);
        lemma_first_failing_fails(defs, memo, st, ys);
    }
}

/// Two contexts in which every macro expands alike fail alike.
proof fn lemma_first_failing_same(
    defs: Entries,
    m: Entries,
    m2: Entries,
    st: Seq<Seq<char>>,
    xs: Seq<Seq<char>>,
)
    requires
        forall|y: Seq<char>| #[trigger] macro_expansion_in(defs, m, st, y) == macro_expansion_in(defs, m2, st, y),
    ensures
        first_failing(defs, m, st, xs) == first_failing(defs, m2, st, xs),
        some_failing(defs, m, st, xs) == some_failing(defs, m2, st, xs),
    decreases xs.len(),
{
    assert forall|t: int| 0 <= t < xs.len() implies #[trigger] fails_in(defs, m, st, xs[t]) == fails_in(defs, m2, st, xs[t]) by {
        assert(macro_expansion_in(defs, m, st, xs[t]) == macro_expansion_in(defs, m2, st, xs[t]));
    }
    if some_failing(defs, m, st, xs) {
        let t = choose|t: int| 0 <= t < xs.len() && #[trigger] fails_in(defs, m, st, xs[t]);
        assert(fails_in(defs, m2, st, xs[t]));
    }
    if some_failing(defs, m2, st, xs) {
        let t = choose|t: int| 0 <= t < xs.len() && #[trigger] fails_in(defs, m2, st, xs[t]);
        assert(fails_in(defs, m, st, xs[t]));
    }
    if xs.len() > 0 {
        assert(macro_expansion_in(defs, m, st, xs[0]) == macro_expansion_in(defs, m2, st, xs[0]));
        lemma_first_failing_same(defs, m, m2, st, xs.drop_first());
    }
}

/// A memoized macro whose mentioned macros the memo all holds expands alike
/// under any stack that holds no newly memoized macro beyond `st`.
proof fn lemma_closed_name_any_stack(
    defs: Entries,
    m0: Entries,
    m1: Entries,
    st: Seq<Seq<char>>,
    st2: Seq<Seq<char>>,
    n: Seq<char>,
    f: nat,
)
    requires
        memo_closed(defs, m0, m1),
        forall|x: Seq<char>| st2.contains(x) && has_key(m1, x) && !has_key(m0, x) ==> st.contains(x),
        has_key(m1, n),
        exp_name_in(defs, m0, st, n, f) is Some,
    ensures
        exp_name_in(defs, m0, st2, n, f) == exp_name_in(defs, m0, st, n, f),
    decreases f, 0int, 0int,
{
    if !has_key(m0, n) {
        let body = lookup(defs, n)->0;
        assert forall|x: Seq<char>| #[trigger] idents_from(body, 0, false).contains(x) && has_key(defs, x) implies has_key(m1, x) by {
            assert(references(defs, n, x));
        }
        lemma_closed_from_any_stack(defs, m0, m1, st, st2, body, 0, (f - 1) as nat);
    }
}

proof fn lemma_closed_from_any_stack(
    defs: Entries,
    m0: Entries,
    m1: Entries,
    st: Seq<Seq<char>>,
    st2: Seq<Seq<char>>,
    s: Seq<char>,
    i: int,
    f: nat,
)
    requires
        memo_closed(defs, m0, m1),
        forall|x: Seq<char>| st2.contains(x) && has_key(m1, x) && !has_key(m0, x) ==> st.contains(x),
        forall|x: Seq<char>| #[trigger] idents_from(s, i, false).contains(x) && has_key(defs, x) ==> has_key(m1, x),
        exp_from_in(defs, m0, st, s, i, f) is Some,
    ensures
        exp_from_in(defs, m0, st2, s, i, f) == exp_from_in(defs, m0, st, s, i, f),
    decreases f, 1int, s.len() - i,
{
    if 0 <= i < s.len() {
        let j = token_end(s, i, false);
        lemma_token_end_bounds(s, i, false);
        let tok = s.subrange(i, j);
        if is_ident_start(s, i) {
            assert(idents_from(s, i, false) == seq![tok] + idents_from(s, j, false));
            assert(idents_from(s, i, false)[0] == tok);
            assert forall|x: Seq<char>| #[trigger] idents_from(s, j, false).contains(x) && has_key(defs, x) implies has_key(m1, x) by {
                let t = choose|t: int| 0 <= t < idents_from(s, j, false).len() && idents_from(s, j, false)[t] == x;
                assert(idents_from(s, i, false)[t + 1] == x);
                assert(idents_from(s, i, false).contains(x));
            }
            if has_key(defs, tok) {
                assert(idents_from(s, i, false).contains(tok));
                lemma_closed_name_any_stack(defs, m0, m1, st, st2, tok, f);
            }
        } else {
            assert(idents_from(s, i, false) == idents_from(s, j, false));
        }
        lemma_closed_from_any_stack(defs, m0, m1, st, st2, s, j, f);
    }
}

/// What a memo learnt under one stack holds under another stack on which
/// none of the macros it learnt is in progress but those on the first.
proof fn lemma_extends_other_stack(
    defs: Entries,
    m0: Entries,
    st: Seq<Seq<char>>,
    st2: Seq<Seq<char>>,
    m1: Entries,
)
    requires
        memo_extends(defs, m0, st, m1),
        memo_closed(defs, m0, m1),
        forall|x: Seq<char>| st2.contains(x) && has_key(m1, x) && !has_key(m0, x) ==> st.contains(x),
    ensures
        memo_extends(defs, m0, st2, m1),
{
    assert forall|k: Seq<char>| has_key(m1, k) && !has_key(m0, k) implies {
        &&& macro_expansion_in(defs, m0, st2, k) is Some
        &&& #[trigger] lookup(m1, k) == macro_expansion_in(defs, m0, st2, k)
    } by {
        assert(lookup(m1, k) == macro_expansion_in(defs, m0, st, k));
        let f = choose|f: nat| #[trigger] exp_name_in(defs, m0, st, k, f) is Some;
        lemma_name_in_at(defs, m0, st, k, f);
        lemma_closed_name_any_stack(defs, m0, m1, st, st2, k, f);
        lemma_name_in_at(defs, m0, st2, k, f);
    }
}

/// The names of `xs` before the first that `fails_in`.
pub open spec fn before_failing(
    defs: Entries,
    memo: Entries,
    st: Seq<Seq<char>>,
    xs: Seq<Seq<char>>,
) -> Seq<Seq<char>>
    decreases xs.len(),
{
    if xs.len() == 0 || fails_in(defs, memo, st, xs[0]) {
        Seq::empty()
    } else {
        seq![xs[0]] + before_failing(defs, memo, st, xs.drop_first())
    }
}

/// The macro `k` is one that expanding the macro `x` memoizes before it
/// reports its cycle: one met, without `memo`, from a macro that a body on
/// the reported path names before the macro the path goes on with.
pub open spec fn memoized_on_failure(
    defs: Entries,
    memo: Entries,
    st: Seq<Seq<char>>,
    x: Seq<char>,
    k: Seq<char>,
) -> bool
    decreases unvisited(defs, st),
{
    if st.contains(x) || !has_key(defs, x) {
        false
    } else {
        let s1 = st.push(x);
        let xs = idents_from(lookup(defs, x)->0, 0, false);
        if some_failing(defs, memo, s1, xs) {
            proof {
                lemma_unvisited_push(defs, st, x);
            }
            list_reaches(defs, memo, before_failing(defs, memo, s1, xs), k)
                || memoized_on_failure(defs, memo, s1, first_failing(defs, memo, s1, xs), k)
        } else {
            false
        }
    }
}

/// The macro `k` is one that expanding the text `s` memoizes before it
/// reports its cycle.
pub open spec fn text_memoized_on_failure(
    defs: Entries,
    memo: Entries,
    st: Seq<Seq<char>>,
    s: Seq<char>,
    k: Seq<char>,
) -> bool {
    let xs = idents_from(s, 0, false);
    list_reaches(defs, memo, before_failing(defs, memo, st, xs), k) || memoized_on_failure(
        defs,
        memo,
        st,
        first_failing(defs, memo, st, xs),
        k,
    )
}

proof fn lemma_before_failing_at(
    defs: Entries,
    memo: Entries,
    st: Seq<Seq<char>>,
    xs: Seq<Seq<char>>,
    t: int,
)
    requires
        0 <= t < xs.len(),
        fails_in(defs, memo, st, xs[t]),
        forall|u: int| 0 <= u < t ==> !fails_in(defs, memo, st, #[trigger] xs[u]),
    ensures
        before_failing(defs, memo, st, xs) == xs.subrange(0, t),
    decreases t,
{
    if t > 0 {
        let ys = xs.drop_first();
        assert forall|u: int| 0 <= u < t - 1 implies !fails_in(defs, memo, st, #[trigger] ys[u]) by {
            assert(ys[u] == xs[u + 1]);
        }
        lemma_before_failing_at(defs, memo, st, ys, t - 1);
        assert(xs.subrange(0, t) =~= seq![xs[0]] + ys.subrange(0, t - 1));
    } else {
        assert(xs.subrange(0, 0) =~= Seq::<Seq<char>>::empty());
    }
}

proof fn lemma_before_failing_same(
    defs: Entries,
    m: Entries,
    m2: Entries,
    st: Seq<Seq<char>>,
    xs: Seq<Seq<char>>,
)
    requires
        forall|y: Seq<char>| #[trigger] macro_expansion_in(defs, m, st, y) == macro_expansion_in(defs, m2, st, y),
    ensures
        before_failing(defs, m, st, xs) == before_failing(defs, m2, st, xs),
    decreases xs.len(),
{
    if xs.len() > 0 {
        assert(macro_expansion_in(defs, m, st, xs[0]) == macro_expansion_in(defs, m2, st, xs[0]));
        lemma_before_failing_same(defs, m, m2, st, xs.drop_first());
    }
}

/// A path that avoids `m0` avoids the grown memo `m1` too, or ends in it.
proof fn lemma_path_in_grown_memo(defs: Entries, m0: Entries, m1: Entries, p: Seq<Seq<char>>)
    requires
        memo_closed(defs, m0, m1),
        fresh_path(defs, m0, p),
    ensures
        fresh_path(defs, m1, p) || has_key(m1, p[p.len() - 1]),
    decreases p.len(),
{
    if p.len() > 1 {
        let q = p.drop_last();
        assert(fresh_path(defs, m0, q)) by {
            assert forall|t: int| 0 <= t < q.len() - 1 implies #[trigger] references(defs, q[t], q[t + 1]) by {
                assert(q[t] == p[t] && q[t + 1] == p[t + 1]);
            }
            assert forall|t: int| 0 <= t < q.len() implies !has_key(m0, #[trigger] q[t]) by {
                assert(q[t] == p[t]);
            }
        }
        lemma_path_in_grown_memo(defs, m0, m1, q);
        let u = p.len() - 2;
        assert(references(defs, p[u], p[u + 1]));
        assert(!has_key(m0, p[u]));
        if !has_key(m1, p[p.len() - 1]) && fresh_path(defs, m1, q) {
            lemma_fresh_path_push(defs, m1, q, p[p.len() - 1]);
            assert(q.push(p[p.len() - 1]) =~= p);
        }
    } else if !has_key(m1, p[0]) {
        assert(fresh_path(defs, m1, p));
    }
}

/// Up to what a grown memo holds, macros are met alike with and without it.
proof fn lemma_reaches_grown_memo(
    defs: Entries,
    m0: Entries,
    m1: Entries,
    xs: Seq<Seq<char>>,
    k: Seq<char>,
)
    requires
        memo_closed(defs, m0, m1),
        m0.is_prefix_of(m1),
    ensures
        (has_key(m1, k) || list_reaches(defs, m1, xs, k)) == (has_key(m1, k) || list_reaches(
            defs,
            m0,
            xs,
            k,
        )),
{
    if list_reaches(defs, m1, xs, k) {
        let x = choose|x: Seq<char>| #[trigger] xs.contains(x) && reaches(defs, m1, x, k);
        let p = choose|p: Seq<Seq<char>>| #[trigger] fresh_path(defs, m1, p) && p[0] == x && p[p.len() - 1] == k;
        lemma_fresh_path_smaller_memo(defs, m0, m1, p);
        assert(reaches(defs, m0, x, k));
    }
    if list_reaches(defs, m0, xs, k) && !has_key(m1, k) {
        let x = choose|x: Seq<char>| #[trigger] xs.contains(x) && reaches(defs, m0, x, k);
        let p = choose|p: Seq<Seq<char>>| #[trigger] fresh_path(defs, m0, p) && p[0] == x && p[p.len() - 1] == k;
        lemma_path_in_grown_memo(defs, m0, m1, p);
        assert(reaches(defs, m1, x, k));
    }
}

/// Up to what a memo grown by expansions under `st0` holds, expanding `x`
/// memoizes before its cycle what it does from the memo it grew from.
pub proof fn lemma_memoized_on_failure_memo(
    defs: Entries,
    m0: Entries,
    m1: Entries,
    st0: Seq<Seq<char>>,
    st: Seq<Seq<char>>,
    x: Seq<char>,
    k: Seq<char>,
)
    requires
        distinct_keys(m0),
        memo_extends(defs, m0, st0, m1),
        memo_closed(defs, m0, m1),
        forall|y: Seq<char>| st.contains(y) && has_key(m1, y) && !has_key(m0, y) ==> st0.contains(y),
        !(has_key(m1, x) && !has_key(m0, x)) || st0.contains(x),
    ensures
        (has_key(m1, k) || memoized_on_failure(defs, m1, st, x, k)) == (has_key(m1, k)
            || memoized_on_failure(defs, m0, st, x, k)),
    decreases unvisited(defs, st),
{
    if !(st.contains(x) || !has_key(defs, x)) {
        let s1 = st.push(x);
        let xs = idents_from(lookup(defs, x)->0, 0, false);
        assert forall|y: Seq<char>| s1.contains(y) && has_key(m1, y) && !has_key(m0, y) implies st0.contains(y) by {
            lemma_push_contains(st, x, y);
        }
        lemma_extends_other_stack(defs, m0, st0, s1, m1);
        assert forall|y: Seq<char>| #[trigger] macro_expansion_in(defs, m1, s1, y) == macro_expansion_in(defs, m0, s1, y) by {
            lemma_extend_keeps_expansions(defs, m0, s1, m1, y, Seq::empty());
        }
        lemma_first_failing_same(defs, m1, m0, s1, xs);
        lemma_before_failing_same(defs, m1, m0, s1, xs);
        if some_failing(defs, m1, s1, xs) {
            lemma_unvisited_push(defs, st, x);
            let y = first_failing(defs, m1, s1, xs);
            lemma_first_failing_fails(defs, m1, s1, xs);
            if has_key(m1, y) {
                assert(exp_name_in(defs, m1, s1, y, 0) is Some);
            }
            lemma_memoized_on_failure_memo(defs, m0, m1, st0, s1, y, k);
            lemma_reaches_grown_memo(defs, m0, m1, before_failing(defs, m1, s1, xs), k);
        }
    }
}

/// The cycle reported from a memo that has grown by expansions under `st0`
/// is the one reported from the memo it grew from.
pub proof fn lemma_cycle_path_memo(
    defs: Entries,
    m0: Entries,
    m1: Entries,
    st0: Seq<Seq<char>>,
    st: Seq<Seq<char>>,
    x: Seq<char>,
)
    requires
        distinct_keys(m0),
        memo_extends(defs, m0, st0, m1),
        memo_closed(defs, m0, m1),
        forall|y: Seq<char>| st.contains(y) && has_key(m1, y) && !has_key(m0, y) ==> st0.contains(y),
        !(has_key(m1, x) && !has_key(m0, x)) || st0.contains(x),
    ensures
        cycle_path(defs, m1, st, x) == cycle_path(defs, m0, st, x),
    decreases unvisited(defs, st),
{
    if !(st.contains(x) || !has_key(defs, x)) {
        let s1 = st.push(x);
        let xs = idents_from(lookup(defs, x)->0, 0, false);
        assert forall|y: Seq<char>| s1.contains(y) && has_key(m1, y) && !has_key(m0, y) implies st0.contains(y) by {
            lemma_push_contains(st, x, y);
        }
        lemma_extends_other_stack(defs, m0, st0, s1, m1);
        assert forall|y: Seq<char>| #[trigger] macro_expansion_in(defs, m1, s1, y) == macro_expansion_in(defs, m0, s1, y) by {
            lemma_extend_keeps_expansions(defs, m0, s1, m1, y, Seq::empty());
        }
        lemma_first_failing_same(defs, m1, m0, s1, xs);
        if some_failing(defs, m1, s1, xs) {
            lemma_unvisited_push(defs, st, x);
            let y = first_failing(defs, m1, s1, xs);
            lemma_first_failing_fails(defs, m1, s1, xs);
            if has_key(m1, y) {
                assert(exp_name_in(defs, m1, s1, y, 0) is Some);
            }
            lemma_cycle_path_memo(defs, m0, m1, st0, s1, y);
        }
    }
}

/// Expands the macro `name` by the definitions `defs`, memoizing each
/// expansion in `resolved`. `stack` holds the macros whose expansion is in
/// progress; meeting one of them again, uncached, is a cycle. The cycle
/// reported is the first that the depth-first search meets (`cycle_path`);
/// the stack is then left holding it, and the memo keeps the macros that
/// were expanded before it (`memoized_on_failure`).
pub fn resolve(
    name: &str,
    defs: &NameTable,
    resolved: &mut NameTable,
    stack: &mut Vec<String>,
) -> (r: Result<String, ExpandError>)
    requires
        has_key(old(resolved)@, name@) || names_of(old(stack)@).contains(name@) || has_key(
            defs@,
            name@,
        ),
    ensures
        memo_extends(defs@, old(resolved)@, names_of(old(stack)@), final(resolved)@),
        memo_closed(defs@, old(resolved)@, final(resolved)@),
        forall|k: Seq<char>|
            has_key(final(resolved)@, k) && !has_key(old(resolved)@, k) ==> #[trigger] reaches(
                defs@,
                old(resolved)@,
                name@,
                k,
            ),
        has_key(old(resolved)@, name@) ==> {
            &&& final(resolved)@ == old(resolved)@
            &&& final(stack)@ == old(stack)@
        },
        !has_key(old(resolved)@, name@) && names_of(old(stack)@).contains(name@) ==> {
            &&& final(resolved)@ == old(resolved)@
            &&& r matches Err(ExpandError::CyclicMacro(p)) && names_of(p@) == names_of(
                old(stack)@,
            ).push(name@)
        },
        match r {
            Ok(s) => {
                &&& macro_expansion_in(defs@, old(resolved)@, names_of(old(stack)@), name@) == Some(
                    s@,
                )
                &&& final(stack)@ == old(stack)@
                &&& has_key(final(resolved)@, name@)
                &&& forall|k: Seq<char>|
                    #[trigger] has_key(final(resolved)@, k) == (has_key(old(resolved)@, k) || reaches(
                        defs@,
                        old(resolved)@,
                        name@,
                        k,
                    ))
            },
            Err(e) => {
                &&& macro_expansion_in(defs@, old(resolved)@, names_of(old(stack)@), name@) is None
                &&& reports_cycle(defs@, names_of(old(stack)@), e)
                &&& cycle_entry(names_of(old(stack)@), e) == name@
                &&& e matches ExpandError::CyclicMacro(p) && names_of(p@) == cycle_path(
                    defs@,
                    old(resolved)@,
                    names_of(old(stack)@),
                    name@,
                )
                &&& e matches ExpandError::CyclicMacro(p) && names_of(final(stack)@) == names_of(p@)
                &&& forall|k: Seq<char>|
                    #[trigger] has_key(final(resolved)@, k) == (has_key(old(resolved)@, k)
                        || memoized_on_failure(
                        defs@,
                        old(resolved)@,
                        names_of(old(stack)@),
                        name@,
                        k,
                    ))
            },
        },
    decreases unvisited(defs@, names_of(old(stack)@)), 0int,
{
    let key = string_of(&chars_of(name));
    // `len` tells that the memo's names are distinct.
    let _ = resolved.len();
    let ghost m0 = resolved@;
    let ghost s0 = names_of(stack@);
    match resolved.get(&key) {
        Some(cached) => {
            proof {
                assert(exp_name_in(defs@, m0, s0, name@, 0) == lookup(m0, name@));
                lemma_name_in_at(defs@, m0, s0, name@, 0);
                assert forall|k: Seq<char>| #[trigger] has_key(resolved@, k) == (has_key(m0, k) || reaches(defs@, m0, name@, k)) by {
                    if reaches(defs@, m0, name@, k) {
                        let p = choose|p: Seq<Seq<char>>| #[trigger] fresh_path(defs@, m0, p) && p[0] == name@ && p[p.len() - 1] == k;
                        assert(!has_key(m0, p[0]));
                    }
                }
            }
            return Ok(cached.clone());
        },
        None => {},
    }
    if stack_contains(stack, &key) {
        stack.push(key);
        let path = copy_names(stack);
        proof {
            let v = s0.push(name@);
            assert(names_of(stack@) =~= v);
            assert(v.subrange(s0.len() as int, v.len() as int) =~= seq![name@]);
            assert(v.drop_last() =~= s0);
            assert(seq![name@].drop_last() =~= Seq::<Seq<char>>::empty());
            assert(s0.is_prefix_of(v));
            assert forall|f: nat| #[trigger] exp_name_in(defs@, m0, s0, name@, f) is None by {}
        }
        return Err(ExpandError::CyclicMacro(path));
    }
    let ghost s1 = s0.push(name@);
    stack.push(key.clone());
    proof {
        assert(names_of(stack@) =~= s1);
        lemma_unvisited_push(defs@, s0, name@);
        assert forall|x: Seq<char>| s0.contains(x) implies s1.contains(x) by {
            lemma_push_contains(s0, name@, x);
        }
    }
    let i = defs.find(&key).unwrap();
    let body = defs.value_at(i);
    let ghost b = body@;
    proof {
        lemma_macro_is_body_in(defs@, m0, s0, name@);
    }
    let expanded = match expand_str(body.as_str(), defs, resolved, stack) {
        Ok(e) => e,
        Err(e) => {
            proof {
                lemma_extends_fewer_stack(defs@, m0, s0, s1, resolved@);
                assert forall|k: Seq<char>| has_key(resolved@, k) && !has_key(m0, k) implies #[trigger] reaches(defs@, m0, name@, k) by {
                    assert(text_reaches(defs@, m0, b, k));
                    lemma_reach_prepend(defs@, m0, name@, b, k);
                }
                lemma_cycle_extend(defs@, s0, name@, e);
                assert(b == lookup(defs@, name@)->0);
            }
            return Err(e);
        },
    };
    stack.pop();
    proof {
        assert(stack@ =~= old(stack)@);
        lemma_extends_fewer_stack(defs@, m0, s0, s1, resolved@);
    }
    let _ = resolved.len();
    let ghost m1 = resolved@;
    let added = resolved.insert_new(key, expanded.clone());
    proof {
        // the entries added for the body, then `name` itself
        assert forall|k: Seq<char>| has_key(resolved@, k) && !has_key(m0, k) implies {
            &&& macro_expansion_in(defs@, m0, s0, k) is Some
            &&& #[trigger] lookup(resolved@, k) == macro_expansion_in(defs@, m0, s0, k)
        } by {
            if added {
                crate::table::lemma_lookup_push(m1, name@, expanded@, k);
            }
        }
        assert(m0.is_prefix_of(resolved@)) by {
            if added {
                assert forall|t: int| 0 <= t < m0.len() implies m0[t] == resolved@[t] by {
                    assert(m1[t] == m0[t]);
                }
            }
        }
        if added {
            crate::table::lemma_lookup_push(m1, name@, expanded@, name@);
        }
        assert(has_key(resolved@, name@));
        assert forall|x: Seq<char>| references(defs@, name@, x) implies has_key(resolved@, x) by {
            assert(has_key(m1, x)) by {
                if !has_key(m0, x) {
                    let p = seq![x];
                    assert(fresh_path(defs@, m0, p));
                    assert(idents_from(b, 0, false).contains(x));
                    assert(text_reaches(defs@, m0, b, x));
                }
            }
            lemma_has_key_prefix(m1, resolved@, x);
        }
        assert forall|k: Seq<char>, x: Seq<char>|
            has_key(resolved@, k) && !has_key(m0, k) && #[trigger] references(defs@, k, x) implies has_key(
            resolved@,
            x,
        ) by {
            if k != name@ {
                if added {
                    crate::table::lemma_lookup_push(m1, name@, expanded@, k);
                }
                assert(has_key(m1, x));
                lemma_has_key_prefix(m1, resolved@, x);
            }
        }
        assert forall|k: Seq<char>| has_key(resolved@, k) && !has_key(m0, k) implies #[trigger] reaches(defs@, m0, name@, k) by {
            if k == name@ {
                let p = seq![name@];
                assert(fresh_path(defs@, m0, p));
            } else {
                if added {
                    crate::table::lemma_lookup_push(m1, name@, expanded@, k);
                }
                assert(text_reaches(defs@, m0, b, k));
                lemma_reach_prepend(defs@, m0, name@, b, k);
            }
        }
        assert forall|k: Seq<char>| #[trigger] has_key(resolved@, k) == (has_key(m0, k) || reaches(defs@, m0, name@, k)) by {
            if has_key(m0, k) {
                lemma_has_key_prefix(m0, resolved@, k);
            } else if reaches(defs@, m0, name@, k) {
                let p = choose|p: Seq<Seq<char>>| #[trigger] fresh_path(defs@, m0, p) && p[0] == name@ && p[p.len() - 1] == k;
                lemma_closed_holds_path(defs@, m0, resolved@, p, p.len() - 1);
            }
        }
    }
    Ok(expanded)
}

/// Expands every macro named in `input` by the definitions `defs`, through
/// `resolve`, in the order in which `input` names them.
pub fn expand_str(
    input: &str,
    defs: &NameTable,
    resolved: &mut NameTable,
    stack: &mut Vec<String>,
) -> (r: Result<String, ExpandError>)
    ensures
        memo_extends(defs@, old(resolved)@, names_of(old(stack)@), final(resolved)@),
        memo_closed(defs@, old(resolved)@, final(resolved)@),
        forall|k: Seq<char>|
            has_key(final(resolved)@, k) && !has_key(old(resolved)@, k) ==> #[trigger] text_reaches(
                defs@,
                old(resolved)@,
                input@,
                k,
            ),
        match r {
            Ok(s) => {
                &&& text_expansion_in(defs@, old(resolved)@, names_of(old(stack)@), input@) == Some(
                    s@,
                )
                &&& final(stack)@ == old(stack)@
                &&& forall|k: Seq<char>|
                    #[trigger] has_key(final(resolved)@, k) == (has_key(old(resolved)@, k)
                        || text_reaches(defs@, old(resolved)@, input@, k))
            },
            Err(e) => {
                &&& text_expansion_in(defs@, old(resolved)@, names_of(old(stack)@), input@) is None
                &&& reports_cycle(defs@, names_of(old(stack)@), e)
                &&& idents_from(input@, 0, false).contains(cycle_entry(names_of(old(stack)@), e))
                &&& has_key(defs@, cycle_entry(names_of(old(stack)@), e))
                &&& some_failing(
                    defs@,
                    old(resolved)@,
                    names_of(old(stack)@),
                    idents_from(input@, 0, false),
                )
                &&& e matches ExpandError::CyclicMacro(p) && names_of(p@) == text_cycle_path(
                    defs@,
                    old(resolved)@,
                    names_of(old(stack)@),
                    input@,
                )
                &&& e matches ExpandError::CyclicMacro(p) && names_of(final(stack)@) == names_of(p@)
                &&& forall|k: Seq<char>|
                    #[trigger] has_key(final(resolved)@, k) == (has_key(old(resolved)@, k)
                        || text_memoized_on_failure(
                        defs@,
                        old(resolved)@,
                        names_of(old(stack)@),
                        input@,
                        k,
                    ))
            },
        },
    decreases unvisited(defs@, names_of(old(stack)@)), 1int,
{
    let chars = chars_of(input);
    let _ = resolved.len();
    let ghost m0 = resolved@;
    let ghost s0 = names_of(stack@);
    let mut out: Vec<char> = Vec::new();
    let mut i: usize = 0;
    let ghost mut depth: nat = 0;
    let ghost mut seen: Seq<Seq<char>> = Seq::empty();
    proof {
        assert forall|f: nat| f >= depth implies #[trigger] exp_from_in(defs@, m0, s0, input@, 0, f)
            == prepend(out@, exp_from_in(defs@, m0, s0, input@, i as int, f)) by {
            match exp_from_in(defs@, m0, s0, input@, 0, f) {
                Some(r) => assert(out@ + r =~= r),
                None => {},
            }
        }
        assert(idents_from(input@, 0, false) =~= seen + idents_from(input@, 0, false));
    }
    while i < chars.len()
        invariant
            i <= chars@.len(),
            chars@ == input@,
            stack@ == old(stack)@,
            s0 == names_of(stack@),
            m0 == old(resolved)@,
            distinct_keys(m0),
            memo_extends(defs@, m0, s0, resolved@),
            memo_closed(defs@, m0, resolved@),
            forall|k: Seq<char>|
                has_key(resolved@, k) && !has_key(m0, k) ==> #[trigger] list_reaches(
                    defs@,
                    m0,
                    seen,
                    k,
                ),
            forall|x: Seq<char>| #[trigger] seen.contains(x) && has_key(defs@, x) ==> has_key(resolved@, x),
            forall|t: int| 0 <= t < seen.len() ==> !fails_in(defs@, m0, s0, #[trigger] seen[t]),
            idents_from(input@, 0, false) == seen + idents_from(input@, i as int, false),
            forall|f: nat|
                f >= depth ==> #[trigger] exp_from_in(defs@, m0, s0, input@, 0, f) == prepend(
                    out@,
                    exp_from_in(defs@, m0, s0, input@, i as int, f),
                ),
        decreases chars@.len() - i,
    {
        let j = scan_token(&chars, i, false);
        let ghost tok = input@.subrange(i as int, j as int);
        let ghost before = out@;
        let ghost old_depth = depth;
        let ghost old_seen = seen;
        let mut expanded_macro = false;
        if char_is_ascii_alpha(chars[i]) {
            let ident = substring(&chars, i, j);
            proof {
                assert(idents_from(input@, i as int, false) == seq![tok] + idents_from(input@, j as int, false));
                seen = seen.push(tok);
                assert(idents_from(input@, 0, false) =~= seen + idents_from(input@, j as int, false));
                assert(idents_from(input@, 0, false)[old_seen.len() as int] == tok);
                assert(idents_from(input@, 0, false).contains(tok));
                assert(seen[old_seen.len() as int] == tok);
                assert forall|x: Seq<char>| old_seen.contains(x) implies seen.contains(x) by {
                    let t = choose|t: int| 0 <= t < old_seen.len() && old_seen[t] == x;
                    assert(seen[t] == x);
                }
                assert forall|x: Seq<char>| seen.contains(x) implies old_seen.contains(x) || x == tok by {
                    let t = choose|t: int| 0 <= t < seen.len() && seen[t] == x;
                    if t < old_seen.len() {
                        assert(old_seen[t] == x);
                    }
                }
            }
            if defs.contains_key(&ident) {
                expanded_macro = true;
                let _ = resolved.len();
                let ghost m1 = resolved@;
                match resolve(ident.as_str(), defs, resolved, stack) {
                    Ok(e) => {
                        out.push('(');
                        push_str_chars(&mut out, e.as_str());
                        out.push(')');
                        proof {
                            lemma_extend_keeps_expansions(defs@, m0, s0, m1, tok, input@);
                            lemma_extends_trans(defs@, m0, s0, m1, resolved@);
                            lemma_closed_trans(defs@, m0, m1, resolved@);
                            let ft = choose|f: nat| #[trigger] exp_name_in(defs@, m0, s0, tok, f) is Some;
                            depth = if ft > old_depth {
                                ft
                            } else {
                                old_depth
                            };
                            let piece = seq!['('] + e@ + seq![')'];
                            assert(out@ =~= before + piece);
                            assert forall|f: nat| f >= depth implies #[trigger] exp_from_in(
                                defs@,
                                m0,
                                s0,
                                input@,
                                0,
                                f,
                            ) == prepend(out@, exp_from_in(defs@, m0, s0, input@, j as int, f)) by {
                                lemma_in_name_mono(defs@, m0, s0, tok, ft, f);
                                assert(exp_from_in(defs@, m0, s0, input@, 0, f) == prepend(
                                    before,
                                    exp_from_in(defs@, m0, s0, input@, i as int, f),
                                ));
                                match exp_from_in(defs@, m0, s0, input@, j as int, f) {
                                    Some(r) => assert(before + (piece + r) =~= out@ + r),
                                    None => {},
                                }
                            }
                            assert forall|k: Seq<char>|
                                has_key(resolved@, k) && !has_key(m0, k) implies #[trigger] list_reaches(
                                defs@,
                                m0,
                                seen,
                                k,
                            ) by {
                                if has_key(m1, k) {
                                    assert(list_reaches(defs@, m0, old_seen, k));
                                    let x = choose|x: Seq<char>| #[trigger] old_seen.contains(x) && reaches(defs@, m0, x, k);
                                    assert(seen.contains(x));
                                } else {
                                    assert(reaches(defs@, m1, tok, k));
                                    let p = choose|p: Seq<Seq<char>>| #[trigger] fresh_path(defs@, m1, p) && p[0] == tok && p[p.len() - 1] == k;
                                    lemma_fresh_path_smaller_memo(defs@, m0, m1, p);
                                    assert(reaches(defs@, m0, tok, k));
                                    assert(seen.contains(tok));
                                }
                            }
                            assert forall|x: Seq<char>| #[trigger] seen.contains(x) && has_key(defs@, x) implies has_key(resolved@, x) by {
                                if x != tok {
                                    assert(old_seen.contains(x));
                                    lemma_has_key_prefix(m1, resolved@, x);
                                }
                            }
                            assert forall|t: int| 0 <= t < seen.len() implies !fails_in(defs@, m0, s0, #[trigger] seen[t]) by {
                                if t < old_seen.len() {
                                    assert(seen[t] == old_seen[t]);
                                }
                            }
                        }
                    },
                    Err(err) => {
                        proof {
                            lemma_extend_keeps_expansions(defs@, m0, s0, m1, tok, input@);
                            lemma_extends_trans(defs@, m0, s0, m1, resolved@);
                            lemma_closed_trans(defs@, m0, m1, resolved@);
                            assert forall|f: nat| #[trigger]
                                exp_from_in(defs@, m0, s0, input@, 0, f) is None by {
                                if exp_from_in(defs@, m0, s0, input@, 0, f) is Some {
                                    lemma_in_ident_needed(defs@, m0, s0, input@, 0, f, tok);
                                    lemma_name_in_at(defs@, m0, s0, tok, f);
                                }
                            }
                            assert forall|k: Seq<char>|
                                has_key(resolved@, k) && !has_key(m0, k) implies #[trigger] text_reaches(
                                defs@,
                                m0,
                                input@,
                                k,
                            ) by {
                                let x = if has_key(m1, k) {
                                    assert(list_reaches(defs@, m0, old_seen, k));
                                    choose|x: Seq<char>| #[trigger] old_seen.contains(x) && reaches(defs@, m0, x, k)
                                } else {
                                    assert(reaches(defs@, m1, tok, k));
                                    let p = choose|p: Seq<Seq<char>>| #[trigger] fresh_path(defs@, m1, p) && p[0] == tok && p[p.len() - 1] == k;
                                    lemma_fresh_path_smaller_memo(defs@, m0, m1, p);
                                    tok
                                };
                                assert(seen.contains(x));
                                let t = choose|t: int| 0 <= t < seen.len() && seen[t] == x;
                                assert(idents_from(input@, 0, false)[t] == x);
                                assert(idents_from(input@, 0, false).contains(x));
                            }
                            let xs = idents_from(input@, 0, false);
                            let at = old_seen.len() as int;
                            assert(xs[at] == tok);
                            assert(fails_in(defs@, m0, s0, tok));
                            assert forall|u: int| 0 <= u < at implies !fails_in(defs@, m0, s0, #[trigger] xs[u]) by {
                                assert(xs[u] == old_seen[u]);
                            }
                            lemma_first_failing_at(defs@, m0, s0, xs, at);
                            assert(some_failing(defs@, m0, s0, xs));
                            if has_key(m1, tok) {
                                assert(exp_name_in(defs@, m1, s0, tok, 0) is Some);
                            }
                            lemma_cycle_path_memo(defs@, m0, m1, s0, s0, tok);
                            lemma_before_failing_at(defs@, m0, s0, xs, at);
                            assert(xs.subrange(0, at) =~= old_seen);
                            assert forall|k: Seq<char>| #[trigger] has_key(resolved@, k) == (has_key(m0, k)
                                || text_memoized_on_failure(defs@, m0, s0, input@, k)) by {
                                lemma_memoized_on_failure_memo(defs@, m0, m1, s0, s0, tok, k);
                                assert(has_key(m1, k) == (has_key(m0, k) || list_reaches(defs@, m0, old_seen, k))) by {
                                    if has_key(m0, k) {
                                        lemma_has_key_prefix(m0, m1, k);
                                    }
                                    if list_reaches(defs@, m0, old_seen, k) {
                                        let x = choose|x: Seq<char>| #[trigger] old_seen.contains(x) && reaches(defs@, m0, x, k);
                                        let p = choose|p: Seq<Seq<char>>| #[trigger] fresh_path(defs@, m0, p) && p[0] == x && p[p.len() - 1] == k;
                                        assert(has_key(m1, x));
                                        lemma_closed_holds_path(defs@, m0, m1, p, p.len() - 1);
                                    }
                                }
                            }
                        }
                        return Err(err);
                    },
                }
            }
        } else {
            proof {
                assert(idents_from(input@, i as int, false) == idents_from(input@, j as int, false));
            }
        }
        if !expanded_macro {
            push_range(&mut out, &chars, i, j);
            proof {
                assert forall|f: nat| f >= depth implies #[trigger] exp_from_in(
                    defs@,
                    m0,
                    s0,
                    input@,
                    0,
                    f,
                ) == prepend(out@, exp_from_in(defs@, m0, s0, input@, j as int, f)) by {
                    assert(exp_from_in(defs@, m0, s0, input@, 0, f) == prepend(
                        before,
                        exp_from_in(defs@, m0, s0, input@, i as int, f),
                    ));
                    match exp_from_in(defs@, m0, s0, input@, j as int, f) {
                        Some(r) => assert(before + (tok + r) =~= out@ + r),
                        None => {},
                    }
                }
                assert forall|k: Seq<char>|
                    has_key(resolved@, k) && !has_key(m0, k) implies #[trigger] list_reaches(
                    defs@,
                    m0,
                    seen,
                    k,
                ) by {
                    assert(list_reaches(defs@, m0, old_seen, k));
                    let x = choose|x: Seq<char>| #[trigger] old_seen.contains(x) && reaches(defs@, m0, x, k);
                    assert(seen.contains(x));
                }
                assert forall|x: Seq<char>| #[trigger] seen.contains(x) && has_key(defs@, x) implies has_key(resolved@, x) by {
                    if x != tok || old_seen =~= seen {
                        assert(old_seen.contains(x));
                    }
                }
                assert forall|t: int| 0 <= t < seen.len() implies !fails_in(defs@, m0, s0, #[trigger] seen[t]) by {
                    if t < old_seen.len() {
                        assert(seen[t] == old_seen[t]);
                    }
                }
            }
        }
        i = j;
    }
    proof {
        assert(exp_from_in(defs@, m0, s0, input@, i as int, depth) == Some(Seq::<char>::empty()));
        assert(out@ + Seq::<char>::empty() =~= out@);
        lemma_text_in_at(defs@, m0, s0, input@, depth);
        assert(idents_from(input@, i as int, false) =~= Seq::<Seq<char>>::empty());
        assert(seen =~= idents_from(input@, 0, false));
        assert forall|k: Seq<char>| #[trigger] has_key(resolved@, k) == (has_key(m0, k)
            || text_reaches(defs@, m0, input@, k)) by {
            if has_key(m0, k) {
                lemma_has_key_prefix(m0, resolved@, k);
            } else if text_reaches(defs@, m0, input@, k) {
                let x = choose|x: Seq<char>| #[trigger] idents_from(input@, 0, false).contains(x) && reaches(defs@, m0, x, k);
                let p = choose|p: Seq<Seq<char>>| #[trigger] fresh_path(defs@, m0, p) && p[0] == x && p[p.len() - 1] == k;
                assert(seen.contains(x));
                lemma_closed_holds_path(defs@, m0, resolved@, p, p.len() - 1);
            } else if has_key(resolved@, k) {
                assert(list_reaches(defs@, m0, seen, k));
            }
        }
        assert forall|k: Seq<char>| has_key(resolved@, k) && !has_key(m0, k) implies #[trigger] text_reaches(
            defs@,
            m0,
            input@,
            k,
        ) by {
            assert(list_reaches(defs@, m0, seen, k));
        }
    }
    Ok(string_of(&out))
}

} // verus!
