//! Expansion of the `lists` and `macros` of a rule configuration into the
//! `scope` and `event` predicates of its rules.
use vstd::prelude::*;
use crate::error::{names_of, ErrorView, ExpandError};
use crate::macros::{
    cycle_path, exp_name, exp_name_in, is_cycle_path, lemma_closed_trans, lemma_cycle_path_memo,
    memo_closed, lemma_extend_keeps_expansions, lemma_extends_trans,
    lemma_macro_expansion_in_empty, lemma_macro_is_body, macro_expansion, memo_extends,
    text_expansion, resolve, spec_substitute_lists,
    spec_substitute_macros, substitute_lists, substitute_macros, table_fn,
};
use crate::table::{distinct_keys, has_key, lookup, Entries, NameTable};
use crate::text::{
    chars_of, digits_value, integer_text, is_blank, is_blank_text, is_canonical_digits,
    is_valid_name, lemma_integer_text_value, push_integer, push_str_chars, spec_is_valid_name,
    string_of,
};
use crate::yaml::{
    as_sequence, as_str, distinct_entry_keys, entry_get, entry_remove, get_entry, lacks_key,
    lemma_lacks_key, lemma_remove_key, lemma_remove_keeps_valid, opt_items, opt_str,
    remove_entry, str_of, valid_entries, valid_yaml, YamlValue,
};

verus! {

/// A key whose string value is a predicate to expand.
pub open spec fn is_predicate_key(k: Seq<char>) -> bool {
    k == seq!['s', 'c', 'o', 'p', 'e'] || k == seq!['e', 'v', 'e', 'n', 't']
}

/// A predicate after list substitution (first pass) and macro substitution
/// (second pass).
pub open spec fn spec_expand_predicate(
    p: Seq<char>,
    lists: Entries,
    expansions: spec_fn(Seq<char>) -> Option<Seq<char>>,
) -> Seq<char> {
    spec_substitute_macros(spec_substitute_lists(p, lists), expansions)
}

/// `b` is `a` with every predicate expanded: every string under a `scope` or
/// `event` key of a mapping expanded, and every other value inside mappings
/// and sequences treated in the same way; keys, order and all other values
/// stay as they are.
pub open spec fn expanded(
    a: YamlValue,
    b: YamlValue,
    lists: Entries,
    expansions: spec_fn(Seq<char>) -> Option<Seq<char>>,
) -> bool
    decreases a,
{
    match a {
        YamlValue::Sequence(xs) => match b {
            YamlValue::Sequence(ys) => {
                &&& xs@.len() == ys@.len()
                &&& forall|k: int|
                    0 <= k < xs@.len() ==> expanded(#[trigger] xs@[k], ys@[k], lists, expansions)
            },
            _ => false,
        },
        YamlValue::Mapping(xs) => match b {
            YamlValue::Mapping(ys) => {
                &&& xs@.len() == ys@.len()
                &&& forall|k: int|
                    0 <= k < xs@.len() ==> {
                        &&& (#[trigger] xs@[k]).0 == ys@[k].0
                        &&& if is_predicate_key(xs@[k].0@) && xs@[k].1 is String {
                            str_of(ys@[k].1) == Some(
                                spec_expand_predicate(str_of(xs@[k].1)->0, lists, expansions),
                            )
                        } else {
                            expanded(xs@[k].1, ys@[k].1, lists, expansions)
                        }
                    }
            },
            _ => false,
        },
        _ => b == a,
    }
}


/// Whether `k` is `scope` or `event`.
fn is_predicate_name(k: &String) -> (r: bool)
    ensures
        r == is_predicate_key(k@),
{
    let c = chars_of(k.as_str());
    if c.len() != 5 {
        return false;
    }
    let scope = c[0] == 's' && c[1] == 'c' && c[2] == 'o' && c[3] == 'p' && c[4] == 'e';
    let event = c[0] == 'e' && c[1] == 'v' && c[2] == 'e' && c[3] == 'n' && c[4] == 't';
    proof {
        if scope {
            assert(c@ =~= seq!['s', 'c', 'o', 'p', 'e']);
        }
        if event {
            assert(c@ =~= seq!['e', 'v', 'e', 'n', 't']);
        }
    }
    scope || event
}

/// A predicate with its lists and then its macros substituted.
fn expand_predicate(p: &String, lists: &NameTable, resolved: &NameTable) -> (r: String)
    ensures
        r@ == spec_expand_predicate(p@, lists@, table_fn(resolved@)),
{
    let first = substitute_lists(p.as_str(), lists);
    substitute_macros(first.as_str(), resolved)
}

/// The items of `v` in reverse order.
fn reversed<T>(v: Vec<T>) -> (r: Vec<T>)
    ensures
        r@.len() == v@.len(),
        forall|k: int| 0 <= k < v@.len() ==> #[trigger] r@[k] == v@[v@.len() - 1 - k],
{
    let ghost orig = v@;
    let mut v = v;
    let mut r: Vec<T> = Vec::new();
    while v.len() > 0
        invariant
            v@ == orig.subrange(0, v@.len() as int),
            r@.len() + v@.len() == orig.len(),
            forall|k: int| 0 <= k < r@.len() ==> #[trigger] r@[k] == orig[orig.len() - 1 - k],
        decreases v@.len(),
    {
        let x = v.pop().unwrap();
        r.push(x);
        assert(v@ =~= orig.subrange(0, v@.len() as int));
    }
    r
}

/// `v` with its predicates expanded.
fn expand_owned(v: YamlValue, lists: &NameTable, resolved: &NameTable) -> (r: YamlValue)
    ensures
        expanded(v, r, lists@, table_fn(resolved@)),
    decreases v,
{
    let ghost gv = v;
    match v {
        YamlValue::Sequence(items) => {
            let ghost orig = items@;
            let n = items.len();
            let mut rev = reversed(items);
            let mut out: Vec<YamlValue> = Vec::new();
            while rev.len() > 0
                invariant
                    gv == v,
                    gv == YamlValue::Sequence(items),
                    orig == items@,
                    n == orig.len(),
                    rev@.len() + out@.len() == n,
                    forall|k: int| 0 <= k < rev@.len() ==> #[trigger] rev@[k] == orig[n - 1 - k],
                    forall|k: int|
                        0 <= k < out@.len() ==> expanded(
                            #[trigger] orig[k],
                            out@[k],
                            lists@,
                            table_fn(resolved@),
                        ),
                decreases rev@.len(),
            {
                let ghost k = out@.len() as int;
                let x = rev.pop().unwrap();
                assert(x == orig[k]);
                assert(decreases_to!(gv => gv->Sequence_0));
                let y = expand_owned(x, lists, resolved);
                out.push(y);
            }
            YamlValue::Sequence(out)
        },
        YamlValue::Mapping(entries) => {
            let ghost orig = entries@;
            let n = entries.len();
            let mut rev = reversed(entries);
            let mut out: Vec<(String, YamlValue)> = Vec::new();
            while rev.len() > 0
                invariant
                    gv == v,
                    gv == YamlValue::Mapping(entries),
                    orig == entries@,
                    n == orig.len(),
                    rev@.len() + out@.len() == n,
                    forall|k: int| 0 <= k < rev@.len() ==> #[trigger] rev@[k] == orig[n - 1 - k],
                    forall|k: int|
                        0 <= k < out@.len() ==> {
                            &&& (#[trigger] orig[k]).0 == out@[k].0
                            &&& if is_predicate_key(orig[k].0@) && orig[k].1 is String {
                                str_of(out@[k].1) == Some(
                                    spec_expand_predicate(
                                        str_of(orig[k].1)->0,
                                        lists@,
                                        table_fn(resolved@),
                                    ),
                                )
                            } else {
                                expanded(orig[k].1, out@[k].1, lists@, table_fn(resolved@))
                            }
                        },
                decreases rev@.len(),
            {
                let ghost k = out@.len() as int;
                let (key, val) = rev.pop().unwrap();
                assert((key, val) == orig[k]);
                assert(decreases_to!(gv => gv->Mapping_0));
                let is_pred = is_predicate_name(&key);
                let new_val = match &val {
                    YamlValue::String(p) if is_pred => YamlValue::String(
                        expand_predicate(p, lists, resolved),
                    ),
                    _ => expand_owned(val, lists, resolved),
                };
                out.push((key, new_val));
            }
            YamlValue::Mapping(out)
        },
        other => other,
    }
}

/// Expands, in place, the predicates of `value`: every string under a
/// `scope` or `event` key, at any depth, gets its lists and then its macros
/// substituted; `resolved` holds the macros' expansions.
pub fn expand_value(value: &mut YamlValue, lists: &NameTable, resolved: &NameTable)
    ensures
        expanded(*old(value), *final(value), lists@, table_fn(resolved@)),
{
    let mut taken = YamlValue::Null;
    std::mem::swap(&mut taken, value);
    *value = expand_owned(taken, lists, resolved);
}

// ---------------------------------------------------------------------------
// Reading the definitions
// ---------------------------------------------------------------------------

pub open spec fn key_list() -> Seq<char> {
    seq!['l', 'i', 's', 't']
}

pub open spec fn key_items() -> Seq<char> {
    seq!['i', 't', 'e', 'm', 's']
}

pub open spec fn key_lists() -> Seq<char> {
    seq!['l', 'i', 's', 't', 's']
}

pub open spec fn key_macro() -> Seq<char> {
    seq!['m', 'a', 'c', 'r', 'o']
}

pub open spec fn key_macros() -> Seq<char> {
    seq!['m', 'a', 'c', 'r', 'o', 's']
}

pub open spec fn key_condition() -> Seq<char> {
    seq!['c', 'o', 'n', 'd', 'i', 't', 'i', 'o', 'n']
}

fn text(v: Vec<char>) -> (s: String)
    ensures
        s@ == v@,
{
    string_of(&v)
}

/// How a list item is written among the items: a string in double quotes,
/// an integer in decimal; anything else is not an item.
pub open spec fn item_text(v: YamlValue) -> Option<Seq<char>> {
    match v {
        YamlValue::String(s) => Some(seq!['"'] + s@ + seq!['"']),
        YamlValue::Integer(n) => Some(integer_text(n)),
        _ => None,
    }
}

/// The items of list `name` joined by `, `, or the error of the first item
/// that is neither a string nor an integer.
pub open spec fn joined_items(items: Seq<YamlValue>, name: Seq<char>) -> Result<Seq<char>, ErrorView>
    decreases items.len(),
{
    if items.len() == 0 {
        Ok(Seq::empty())
    } else {
        match joined_items(items.drop_last(), name) {
            Err(e) => Err(e),
            Ok(t) => match item_text(items.last()) {
                None => Err(ErrorView::ListItemNotScalar(name)),
                Some(x) => Ok(
                    if items.len() == 1 {
                        x
                    } else {
                        t + seq![',', ' '] + x
                    },
                ),
            },
        }
    }
}

/// The name and joined items of one entry of `lists`.
pub open spec fn list_entry(item: YamlValue) -> Result<(Seq<char>, Seq<char>), ErrorView> {
    match item {
        YamlValue::Mapping(e) => match opt_str(entry_get(e@, key_list())) {
            None => Err(ErrorView::ListNameMissing),
            Some(name) => if !spec_is_valid_name(name) {
                Err(ErrorView::InvalidListName(name))
            } else {
                match opt_items(entry_get(e@, key_items())) {
                    None => Err(ErrorView::ListItemsMissing(name)),
                    Some(items) => if items.len() == 0 {
                        Err(ErrorView::ListEmpty(name))
                    } else {
                        match joined_items(items, name) {
                            Err(x) => Err(x),
                            Ok(t) => Ok((name, t)),
                        }
                    },
                }
            },
        },
        _ => Err(ErrorView::ListEntryNotMapping),
    }
}

/// The lists defined by the entries `items`, in order, or the first error.
pub open spec fn list_defs_of(items: Seq<YamlValue>) -> Result<Entries, ErrorView>
    decreases items.len(),
{
    if items.len() == 0 {
        Ok(Seq::empty())
    } else {
        match list_defs_of(items.drop_last()) {
            Err(e) => Err(e),
            Ok(acc) => match list_entry(items.last()) {
                Err(e) => Err(e),
                Ok((n, t)) => if has_key(acc, n) {
                    Err(ErrorView::DuplicateList(n))
                } else {
                    Ok(acc.push((n, t)))
                },
            },
        }
    }
}

/// The lists defined by the value of `lists`.
pub open spec fn spec_parse_list_defs(v: YamlValue) -> Result<Entries, ErrorView> {
    match v {
        YamlValue::Sequence(items) => list_defs_of(items@),
        _ => Err(ErrorView::ListsNotSequence),
    }
}

/// The name and condition of one entry of `macros`.
pub open spec fn macro_entry(item: YamlValue) -> Result<(Seq<char>, Seq<char>), ErrorView> {
    match item {
        YamlValue::Mapping(e) => match opt_str(entry_get(e@, key_macro())) {
            None => Err(ErrorView::MacroNameMissing),
            Some(name) => match opt_str(entry_get(e@, key_condition())) {
                None => Err(ErrorView::MacroConditionMissing(name)),
                Some(cond) => if !spec_is_valid_name(name) {
                    Err(ErrorView::InvalidMacroName(name))
                } else if is_blank(cond) {
                    Err(ErrorView::EmptyCondition(name))
                } else {
                    Ok((name, cond))
                },
            },
        },
        _ => Err(ErrorView::MacroEntryNotMapping),
    }
}

/// The macros defined by the entries `items`, in order, or the first error.
pub open spec fn macro_defs_of(items: Seq<YamlValue>) -> Result<Entries, ErrorView>
    decreases items.len(),
{
    if items.len() == 0 {
        Ok(Seq::empty())
    } else {
        match macro_defs_of(items.drop_last()) {
            Err(e) => Err(e),
            Ok(acc) => match macro_entry(items.last()) {
                Err(e) => Err(e),
                Ok((n, t)) => if has_key(acc, n) {
                    Err(ErrorView::DuplicateMacro(n))
                } else {
                    Ok(acc.push((n, t)))
                },
            },
        }
    }
}

/// The macros defined by the value of `macros`.
pub open spec fn spec_parse_defs(v: YamlValue) -> Result<Entries, ErrorView> {
    match v {
        YamlValue::Sequence(items) => macro_defs_of(items@),
        _ => Err(ErrorView::MacrosNotSequence),
    }
}

proof fn lemma_joined_err(items: Seq<YamlValue>, name: Seq<char>, m: int)
    requires
        0 <= m <= items.len(),
        joined_items(items.subrange(0, m), name) is Err,
    ensures
        joined_items(items, name) == joined_items(items.subrange(0, m), name),
    decreases items.len() - m,
{
    if m < items.len() {
        assert(items.subrange(0, m + 1).drop_last() =~= items.subrange(0, m));
        lemma_joined_err(items, name, m + 1);
    } else {
        assert(items.subrange(0, m) =~= items);
    }
}

proof fn lemma_list_defs_err(items: Seq<YamlValue>, m: int)
    requires
        0 <= m <= items.len(),
        list_defs_of(items.subrange(0, m)) is Err,
    ensures
        list_defs_of(items) == list_defs_of(items.subrange(0, m)),
    decreases items.len() - m,
{
    if m < items.len() {
        assert(items.subrange(0, m + 1).drop_last() =~= items.subrange(0, m));
        lemma_list_defs_err(items, m + 1);
    } else {
        assert(items.subrange(0, m) =~= items);
    }
}

proof fn lemma_macro_defs_err(items: Seq<YamlValue>, m: int)
    requires
        0 <= m <= items.len(),
        macro_defs_of(items.subrange(0, m)) is Err,
    ensures
        macro_defs_of(items) == macro_defs_of(items.subrange(0, m)),
    decreases items.len() - m,
{
    if m < items.len() {
        assert(items.subrange(0, m + 1).drop_last() =~= items.subrange(0, m));
        lemma_macro_defs_err(items, m + 1);
    } else {
        assert(items.subrange(0, m) =~= items);
    }
}

/// The items of list `name`, joined by `, `.
fn join_items(values: &Vec<YamlValue>, name: &String) -> (r: Result<String, ExpandError>)
    ensures
        match r {
            Ok(t) => joined_items(values@, name@) == Ok::<Seq<char>, ErrorView>(t@),
            Err(e) => joined_items(values@, name@) == Err::<Seq<char>, ErrorView>(e@),
        },
{
    let mut parts: Vec<char> = Vec::new();
    let mut k: usize = 0;
    while k < values.len()
        invariant
            k <= values@.len(),
            joined_items(values@.subrange(0, k as int), name@) == Ok::<Seq<char>, ErrorView>(
                parts@,
            ),
        decreases values@.len() - k,
    {
        let ghost before = parts@;
        assert(values@.subrange(0, k + 1).drop_last() =~= values@.subrange(0, k as int));
        match &values[k] {
            YamlValue::String(s) => {
                if k > 0 {
                    parts.push(',');
                    parts.push(' ');
                }
                parts.push('"');
                push_str_chars(&mut parts, s.as_str());
                parts.push('"');
            },
            YamlValue::Integer(n) => {
                if k > 0 {
                    parts.push(',');
                    parts.push(' ');
                }
                push_integer(&mut parts, *n);
            },
            _ => {
                proof {
                    lemma_joined_err(values@, name@, k + 1);
                }
                return Err(ExpandError::ListItemNotScalar(name.clone()));
            },
        }
        assert(parts@ =~= (if k == 0 {
            item_text(values@[k as int])->0
        } else {
            before + seq![',', ' '] + item_text(values@[k as int])->0
        }));
        k += 1;
    }
    assert(values@.subrange(0, k as int) =~= values@);
    Ok(text(parts))
}

/// The name and joined items of one entry of `lists`.
fn parse_list_entry(item: &YamlValue) -> (r: Result<(String, String), ExpandError>)
    ensures
        match r {
            Ok((n, t)) => list_entry(*item) == Ok::<(Seq<char>, Seq<char>), ErrorView>((n@, t@)),
            Err(e) => list_entry(*item) == Err::<(Seq<char>, Seq<char>), ErrorView>(e@),
        },
{
    let entry = match item {
        YamlValue::Mapping(entry) => entry,
        _ => {
            return Err(ExpandError::ListEntryNotMapping);
        },
    };
    let name = match get_entry(entry, &text(vec!['l', 'i', 's', 't'])) {
        Some(v) => match as_str(v) {
            Some(s) => s,
            None => {
                return Err(ExpandError::ListNameMissing);
            },
        },
        None => {
            return Err(ExpandError::ListNameMissing);
        },
    };
    if !is_valid_name(name.as_str()) {
        return Err(ExpandError::InvalidListName(name.clone()));
    }
    let values = match get_entry(entry, &text(vec!['i', 't', 'e', 'm', 's'])) {
        Some(v) => match as_sequence(v) {
            Some(values) => values,
            None => {
                return Err(ExpandError::ListItemsMissing(name.clone()));
            },
        },
        None => {
            return Err(ExpandError::ListItemsMissing(name.clone()));
        },
    };
    if values.len() == 0 {
        return Err(ExpandError::ListEmpty(name.clone()));
    }
    let joined = join_items(values, name)?;
    Ok((name.clone(), joined))
}

/// Reads the value of `lists`: a sequence of `- list: <name>` / `items:
/// [...]` entries. Each list becomes its items, strings in double quotes and
/// integers in decimal, joined by `, `.
pub fn parse_list_defs(lists_val: &YamlValue) -> (r: Result<NameTable, ExpandError>)
    ensures
        match r {
            Ok(t) => spec_parse_list_defs(*lists_val) == Ok::<Entries, ErrorView>(t@),
            Err(e) => spec_parse_list_defs(*lists_val) == Err::<Entries, ErrorView>(e@),
        },
{
    let items = match lists_val {
        YamlValue::Sequence(items) => items,
        _ => {
            return Err(ExpandError::ListsNotSequence);
        },
    };
    let mut defs = NameTable::new();
    let mut k: usize = 0;
    while k < items.len()
        invariant
            k <= items@.len(),
            *lists_val == YamlValue::Sequence(*items),
            list_defs_of(items@.subrange(0, k as int)) == Ok::<Entries, ErrorView>(defs@),
        decreases items@.len() - k,
    {
        assert(items@.subrange(0, k + 1).drop_last() =~= items@.subrange(0, k as int));
        match parse_list_entry(&items[k]) {
            Ok((name, joined)) => {
                let dup = name.clone();
                let added = defs.insert_new(name, joined);
                if !added {
                    proof {
                        lemma_list_defs_err(items@, k + 1);
                    }
                    return Err(ExpandError::DuplicateList(dup));
                }
            },
            Err(e) => {
                proof {
                    lemma_list_defs_err(items@, k + 1);
                }
                return Err(e);
            },
        }
        k += 1;
    }
    assert(items@.subrange(0, k as int) =~= items@);
    Ok(defs)
}

/// The name and condition of one entry of `macros`.
fn parse_macro_entry(item: &YamlValue) -> (r: Result<(String, String), ExpandError>)
    ensures
        match r {
            Ok((n, t)) => macro_entry(*item) == Ok::<(Seq<char>, Seq<char>), ErrorView>((n@, t@)),
            Err(e) => macro_entry(*item) == Err::<(Seq<char>, Seq<char>), ErrorView>(e@),
        },
{
    let entry = match item {
        YamlValue::Mapping(entry) => entry,
        _ => {
            return Err(ExpandError::MacroEntryNotMapping);
        },
    };
    let name = match get_entry(entry, &text(vec!['m', 'a', 'c', 'r', 'o'])) {
        Some(v) => match as_str(v) {
            Some(s) => s,
            None => {
                return Err(ExpandError::MacroNameMissing);
            },
        },
        None => {
            return Err(ExpandError::MacroNameMissing);
        },
    };
    let condition = match get_entry(
        entry,
        &text(vec!['c', 'o', 'n', 'd', 'i', 't', 'i', 'o', 'n']),
    ) {
        Some(v) => match as_str(v) {
            Some(s) => s,
            None => {
                return Err(ExpandError::MacroConditionMissing(name.clone()));
            },
        },
        None => {
            return Err(ExpandError::MacroConditionMissing(name.clone()));
        },
    };
    if !is_valid_name(name.as_str()) {
        return Err(ExpandError::InvalidMacroName(name.clone()));
    }
    if is_blank_text(condition.as_str()) {
        return Err(ExpandError::EmptyCondition(name.clone()));
    }
    Ok((name.clone(), condition.clone()))
}

/// Reads the value of `macros`: a sequence of `- macro: <name>` /
/// `condition: <expr>` entries.
pub fn parse_defs(macros_val: &YamlValue) -> (r: Result<NameTable, ExpandError>)
    ensures
        match r {
            Ok(t) => spec_parse_defs(*macros_val) == Ok::<Entries, ErrorView>(t@),
            Err(e) => spec_parse_defs(*macros_val) == Err::<Entries, ErrorView>(e@),
        },
{
    let items = match macros_val {
        YamlValue::Sequence(items) => items,
        _ => {
            return Err(ExpandError::MacrosNotSequence);
        },
    };
    let mut defs = NameTable::new();
    let mut k: usize = 0;
    while k < items.len()
        invariant
            k <= items@.len(),
            *macros_val == YamlValue::Sequence(*items),
            macro_defs_of(items@.subrange(0, k as int)) == Ok::<Entries, ErrorView>(defs@),
        decreases items@.len() - k,
    {
        assert(items@.subrange(0, k + 1).drop_last() =~= items@.subrange(0, k as int));
        match parse_macro_entry(&items[k]) {
            Ok((name, condition)) => {
                let dup = name.clone();
                let added = defs.insert_new(name, condition);
                if !added {
                    proof {
                        lemma_macro_defs_err(items@, k + 1);
                    }
                    return Err(ExpandError::DuplicateMacro(dup));
                }
            },
            Err(e) => {
                proof {
                    lemma_macro_defs_err(items@, k + 1);
                }
                return Err(e);
            },
        }
        k += 1;
    }
    assert(items@.subrange(0, k as int) =~= items@);
    Ok(defs)
}

// ---------------------------------------------------------------------------
// The whole configuration
// ---------------------------------------------------------------------------

/// The entries `ys` are the entries `xs` with their predicates expanded.
pub open spec fn entries_expanded(
    xs: Seq<(String, YamlValue)>,
    ys: Seq<(String, YamlValue)>,
    lists: Entries,
    expansions: spec_fn(Seq<char>) -> Option<Seq<char>>,
) -> bool {
    &&& xs.len() == ys.len()
    &&& forall|k: int|
        0 <= k < xs.len() ==> {
            &&& (#[trigger] xs[k]).0 == ys[k].0
            &&& if is_predicate_key(xs[k].0@) && xs[k].1 is String {
                str_of(ys[k].1) == Some(
                    spec_expand_predicate(str_of(xs[k].1)->0, lists, expansions),
                )
            } else {
                expanded(xs[k].1, ys[k].1, lists, expansions)
            }
        }
}

/// The macros with the lists substituted in their conditions.
pub open spec fn substituted_defs(defs: Entries, lists: Entries) -> Entries {
    Seq::new(defs.len(), |i: int| (defs[i].0, spec_substitute_lists(defs[i].1, lists)))
}

/// The expansion of each macro of `defs`.
pub open spec fn expansion_fn(defs: Entries) -> spec_fn(Seq<char>) -> Option<Seq<char>> {
    |k: Seq<char>| macro_expansion(defs, k)
}

/// The position of the first macro, from `i` on, whose expansion never
/// ends.
pub open spec fn first_unexpandable(defs: Entries, i: int) -> Option<int>
    decreases defs.len() - i,
{
    if 0 <= i < defs.len() {
        if macro_expansion(defs, defs[i].0) is None {
            Some(i)
        } else {
            first_unexpandable(defs, i + 1)
        }
    } else {
        None
    }
}

/// `w` is a mapping with the entries `m`.
pub open spec fn mapping_is(w: YamlValue, m: Seq<(String, YamlValue)>) -> bool {
    w matches YamlValue::Mapping(x) && x@ == m
}

/// What expanding the configuration `v` gives: the value `w` it leaves and
/// the result `r`.
///
/// A value that is not a mapping is left as it is. Otherwise the `lists` and
/// then the `macros` entries are taken out of the mapping and read; an error
/// in either is returned with the mapping as it is at that point. With no
/// list and no macro, nothing more happens. Otherwise the lists are
/// substituted into the macro conditions, and every macro is expanded in
/// definition order: the first whose expansion never ends is reported as a
/// cycle path that starts at it and repeats no macro until its last one,
/// the first that a depth-first search from it meets (`cycle_path`).
/// When all expand, every predicate of the mapping is expanded.
pub open spec fn config_result(v: YamlValue, w: YamlValue, r: Result<(), ErrorView>) -> bool {
    match v {
        YamlValue::Mapping(m0) => {
            let m1 = entry_remove(m0@, key_lists());
            let m2 = entry_remove(m1, key_macros());
            let lists = match entry_get(m0@, key_lists()) {
                Some(x) => spec_parse_list_defs(x),
                None => Ok(Seq::empty()),
            };
            match lists {
                Err(e) => r == Err::<(), ErrorView>(e) && mapping_is(w, m1),
                Ok(ls) => {
                    let defs = match entry_get(m1, key_macros()) {
                        Some(x) => spec_parse_defs(x),
                        None => Ok(Seq::empty()),
                    };
                    match defs {
                        Err(e) => r == Err::<(), ErrorView>(e) && mapping_is(w, m2),
                        Ok(ds) => if ls.len() == 0 && ds.len() == 0 {
                            r == Ok::<(), ErrorView>(()) && mapping_is(w, m2)
                        } else {
                            let ds2 = substituted_defs(ds, ls);
                            match first_unexpandable(ds2, 0) {
                                Some(k) => {
                                    &&& mapping_is(w, m2)
                                    &&& r matches Err(ErrorView::CyclicMacro(p))
                                    &&& p[0] == ds2[k].0
                                    &&& is_cycle_path(ds2, p)
                                    &&& p == cycle_path(ds2, Seq::empty(), Seq::empty(), ds2[k].0)
                                },
                                None => {
                                    &&& r == Ok::<(), ErrorView>(())
                                    &&& w matches YamlValue::Mapping(m) && entries_expanded(
                                        m2,
                                        m@,
                                        ls,
                                        expansion_fn(ds2),
                                    )
                                },
                            }
                        },
                    }
                },
            }
        },
        _ => r == Ok::<(), ErrorView>(()) && w == v,
    }
}

proof fn lemma_first_unexpandable_at(defs: Entries, i: int, k: int)
    requires
        0 <= i <= k < defs.len(),
        forall|j: int| 0 <= j < k ==> macro_expansion(defs, #[trigger] defs[j].0) is Some,
        macro_expansion(defs, defs[k].0) is None,
    ensures
        first_unexpandable(defs, i) == Some(k),
    decreases k - i,
{
    if i < k {
        lemma_first_unexpandable_at(defs, i + 1, k);
    }
}

proof fn lemma_none_unexpandable(defs: Entries, i: int)
    requires
        0 <= i,
        forall|j: int| 0 <= j < defs.len() ==> macro_expansion(defs, #[trigger] defs[j].0) is Some,
    ensures
        first_unexpandable(defs, i) is None,
    decreases defs.len() - i,
{
    if i < defs.len() {
        assert(macro_expansion(defs, defs[i].0) is Some);
        lemma_none_unexpandable(defs, i + 1);
    }
}

/// The macros with the lists substituted into their conditions.
fn substitute_definitions(defs: &NameTable, lists: &NameTable) -> (r: NameTable)
    ensures
        r@ == substituted_defs(defs@, lists@),
{
    let n = defs.len();
    let mut out = NameTable::new();
    let mut k: usize = 0;
    while k < n
        invariant
            n == defs@.len(),
            distinct_keys(defs@),
            k <= n,
            out@ == substituted_defs(defs@.subrange(0, k as int), lists@),
        decreases n - k,
    {
        let name = defs.key_at(k).clone();
        let cond = substitute_lists(defs.value_at(k).as_str(), lists);
        proof {
            assert forall|j: int| 0 <= j < out@.len() implies #[trigger] out@[j].0 != defs@[k as int].0 by {
                assert(out@[j].0 == defs@[j].0);
            }
        }
        let added = out.insert_new(name, cond);
        k += 1;
        assert(out@ =~= substituted_defs(defs@.subrange(0, k as int), lists@));
    }
    assert(defs@.subrange(0, n as int) =~= defs@);
    out
}

/// Expands the `lists` and `macros` of a rule configuration into its `scope`
/// and `event` predicates, removing both definitions from it.
#[verifier::loop_isolation(false)]
pub fn expand_config(value: &mut YamlValue) -> (r: Result<(), ExpandError>)
    ensures
        config_result(
            *old(value),
            *final(value),
            match r {
                Ok(()) => Ok(()),
                Err(e) => Err(e@),
            },
        ),
{
    let mut taken = YamlValue::Null;
    std::mem::swap(&mut taken, value);
    let mut map = match taken {
        YamlValue::Mapping(map) => map,
        other => {
            *value = other;
            return Ok(());
        },
    };
    let lists = match remove_entry(&mut map, &text(vec!['l', 'i', 's', 't', 's'])) {
        Some(lists_val) => match parse_list_defs(&lists_val) {
            Ok(lists) => lists,
            Err(e) => {
                *value = YamlValue::Mapping(map);
                return Err(e);
            },
        },
        None => NameTable::new(),
    };
    let defs = match remove_entry(&mut map, &text(vec!['m', 'a', 'c', 'r', 'o', 's'])) {
        Some(macros_val) => match parse_defs(&macros_val) {
            Ok(defs) => defs,
            Err(e) => {
                *value = YamlValue::Mapping(map);
                return Err(e);
            },
        },
        None => NameTable::new(),
    };
    if lists.is_empty() && defs.is_empty() {
        *value = YamlValue::Mapping(map);
        return Ok(());
    }
    // Pass 1: inline list references into macro conditions so the macro
    // resolution below operates on list-free text.
    let defs = substitute_definitions(&defs, &lists);
    let n = defs.len();
    let mut resolved = NameTable::new();
    let mut k: usize = 0;
    while k < n
        invariant
            n == defs@.len(),
            k <= n,
            distinct_keys(defs@),
            memo_extends(defs@, Seq::empty(), Seq::empty(), resolved@),
            memo_closed(defs@, Seq::empty(), resolved@),
            forall|j: int| 0 <= j < k ==> has_key(resolved@, #[trigger] defs@[j].0),
            forall|j: int| 0 <= j < k ==> macro_expansion(defs@, #[trigger] defs@[j].0) is Some,
        decreases n - k,
    {
        let mut stack: Vec<String> = Vec::new();
        let ghost before = resolved@;
        let ghost name = defs@[k as int].0;
        let ghost none: Seq<Seq<char>> = Seq::empty();
        let ghost nothing: Entries = Seq::empty();
        proof {
            assert(names_of(stack@) =~= none);
            crate::table::lemma_lookup_at(defs@, k as int);
            lemma_macro_expansion_in_empty(defs@, name);
            lemma_extend_keeps_expansions(defs@, nothing, none, before, name, Seq::empty());
        }
        let res = resolve(defs.key_at(k).as_str(), &defs, &mut resolved, &mut stack);
        proof {
            lemma_extends_trans(defs@, nothing, none, before, resolved@);
            lemma_closed_trans(defs@, nothing, before, resolved@);
        }
        match res {
            Ok(_) => {},
            Err(e) => {
                proof {
                    lemma_first_unexpandable_at(defs@, 0, k as int);
                    let p = names_of(e->CyclicMacro_0@);
                    assert(p.subrange(0, p.len() as int) =~= p);
                    assert(p[0] == name);
                    assert(p.drop_last().len() >= 1);
                    assert(is_cycle_path(defs@, p));
                    assert(e@ == ErrorView::CyclicMacro(p));
                    assert(first_unexpandable(defs@, 0) == Some(k as int));
                    if has_key(before, name) {
                        assert(exp_name_in(defs@, before, none, name, 0) is Some);
                    }
                    lemma_cycle_path_memo(defs@, nothing, before, none, none, name);
                }
                *value = YamlValue::Mapping(map);
                return Err(e);
            },
        }
        proof {
            assert forall|j: int| 0 <= j < k + 1 implies has_key(resolved@, #[trigger] defs@[j].0) by {
                if j < k {
                    let i = choose|i: int| 0 <= i < before.len() && #[trigger] before[i].0 == defs@[j].0;
                    assert(resolved@[i] == before[i]);
                }
            }
        }
        k += 1;
    }
    proof {
        lemma_none_unexpandable(defs@, 0);
        assert(table_fn(resolved@) =~= expansion_fn(defs@)) by {
            assert forall|q: Seq<char>| #[trigger] lookup(resolved@, q) == macro_expansion(defs@, q) by {
                lemma_macro_expansion_in_empty(defs@, q);
                if !has_key(resolved@, q) {
                    if has_key(defs@, q) {
                        let j = choose|j: int| 0 <= j < defs@.len() && #[trigger] defs@[j].0 == q;
                        assert(has_key(resolved@, defs@[j].0));
                    }
                    assert forall|f: nat| #[trigger] exp_name(defs@, q, f) is None by {
                    }
                }
            }
        }
    }
    // Pass 2: expand every predicate, lists first and then macros.
    *value = YamlValue::Mapping(map);
    expand_value(value, &lists, &resolved);
    Ok(())
}

/// A configuration that defines no list and no macro comes out of
/// `expand_config` as it went in, and the expansion succeeds.
pub proof fn lemma_config_without_definitions(
    m0: Vec<(String, YamlValue)>,
    w: YamlValue,
    r: Result<(), ErrorView>,
)
    requires
        entry_get(m0@, key_lists()) is None,
        entry_get(m0@, key_macros()) is None,
        config_result(YamlValue::Mapping(m0), w, r),
    ensures
        r == Ok::<(), ErrorView>(()),
        mapping_is(w, m0@),
{
}

/// The expansions when no macro is defined: none.
pub open spec fn no_macros() -> spec_fn(Seq<char>) -> Option<Seq<char>> {
    |k: Seq<char>| None::<Seq<char>>
}

/// When no macro from `i` on fails to expand, every one of them expands.
proof fn lemma_all_expandable(defs: Entries, i: int)
    requires
        0 <= i,
        first_unexpandable(defs, i) is None,
    ensures
        forall|j: int| i <= j < defs.len() ==> macro_expansion(defs, #[trigger] defs[j].0) is Some,
    decreases defs.len() - i,
{
    if i < defs.len() {
        lemma_all_expandable(defs, i + 1);
    }
}

/// Substituting no macro leaves every text as it is.
pub proof fn lemma_no_macros_identity(t: Seq<char>)
    ensures
        spec_substitute_macros(t, no_macros()) == t,
{
    crate::macros::lemma_rewrite_without_names(t, 0, no_macros(), true);
    assert(t.subrange(0, t.len() as int) =~= t);
}

/// With lists or macros defined and no macro on a cycle, expansion succeeds,
/// takes the definitions out of the mapping and keeps its other keys in
/// order; every string under a `scope` or `event` key of the mapping becomes
/// its list substitution followed by its macro substitution, and every other
/// value is expanded in the same way at any depth.
pub proof fn lemma_definitions_reach_predicates(
    m0: Vec<(String, YamlValue)>,
    w: YamlValue,
    r: Result<(), ErrorView>,
    ls: Entries,
    ds: Entries,
)
    requires
        match entry_get(m0@, key_lists()) {
            Some(x) => spec_parse_list_defs(x) == Ok::<Entries, ErrorView>(ls),
            None => ls == Seq::<(Seq<char>, Seq<char>)>::empty(),
        },
        match entry_get(entry_remove(m0@, key_lists()), key_macros()) {
            Some(x) => spec_parse_defs(x) == Ok::<Entries, ErrorView>(ds),
            None => ds == Seq::<(Seq<char>, Seq<char>)>::empty(),
        },
        ls.len() > 0 || ds.len() > 0,
        first_unexpandable(substituted_defs(ds, ls), 0) is None,
        config_result(YamlValue::Mapping(m0), w, r),
    ensures
        r == Ok::<(), ErrorView>(()),
        w matches YamlValue::Mapping(m) && {
            let m2 = entry_remove(entry_remove(m0@, key_lists()), key_macros());
            let ex = expansion_fn(substituted_defs(ds, ls));
            &&& m@.len() == m2.len()
            &&& forall|k: int|
                0 <= k < m2.len() ==> {
                    &&& (#[trigger] m@[k]).0 == m2[k].0
                    &&& if is_predicate_key(m2[k].0@) && m2[k].1 is String {
                        str_of(m@[k].1) == Some(
                            spec_substitute_macros(spec_substitute_lists(str_of(m2[k].1)->0, ls), ex),
                        )
                    } else {
                        expanded(m2[k].1, m@[k].1, ls, ex)
                    }
                }
        },
        forall|k: Seq<char>|
            has_key(substituted_defs(ds, ls), k) ==> {
                &&& (#[trigger] expansion_fn(substituted_defs(ds, ls))(k)) is Some
                &&& expansion_fn(substituted_defs(ds, ls))(k) == text_expansion(
                    substituted_defs(ds, ls),
                    lookup(substituted_defs(ds, ls), k)->0,
                )
            },
        forall|k: Seq<char>|
            !has_key(substituted_defs(ds, ls), k) ==> (#[trigger] expansion_fn(
                substituted_defs(ds, ls),
            )(k)) is None,
{
    let ds2 = substituted_defs(ds, ls);
    lemma_all_expandable(ds2, 0);
    assert forall|k: Seq<char>| has_key(ds2, k) implies {
        &&& (#[trigger] expansion_fn(ds2)(k)) is Some
        &&& expansion_fn(ds2)(k) == text_expansion(ds2, lookup(ds2, k)->0)
    } by {
        let j = choose|j: int| 0 <= j < ds2.len() && #[trigger] ds2[j].0 == k;
        assert(macro_expansion(ds2, ds2[j].0) is Some);
        lemma_macro_is_body(ds2, k);
    }
    assert forall|k: Seq<char>| !has_key(ds2, k) implies (#[trigger] expansion_fn(ds2)(k)) is None by {
        assert forall|f: nat| #[trigger] exp_name(ds2, k, f) is None by {}
    }
    let m2 = entry_remove(entry_remove(m0@, key_lists()), key_macros());
    let m = w->Mapping_0;
    assert forall|k: int| 0 <= k < m2.len() implies (#[trigger] m@[k]).0 == m2[k].0 by {
        assert(m2[k].0 == m@[k].0);
    }
}

/// A configuration that defines lists and no macro gets its lists
/// substituted into its predicates all the same: every string under a
/// `scope` or `event` key of the mapping becomes its list substitution, and
/// every other value is treated in the same way at any depth, the macros
/// substituting nothing.
pub proof fn lemma_lists_without_macros(
    m0: Vec<(String, YamlValue)>,
    w: YamlValue,
    r: Result<(), ErrorView>,
    ls: Entries,
)
    requires
        entry_get(m0@, key_lists()) matches Some(x) && spec_parse_list_defs(x) == Ok::<
            Entries,
            ErrorView,
        >(ls),
        ls.len() > 0,
        entry_get(entry_remove(m0@, key_lists()), key_macros()) is None,
        config_result(YamlValue::Mapping(m0), w, r),
    ensures
        r == Ok::<(), ErrorView>(()),
        w matches YamlValue::Mapping(m) && {
            let m2 = entry_remove(entry_remove(m0@, key_lists()), key_macros());
            &&& m@.len() == m2.len()
            &&& forall|k: int|
                0 <= k < m2.len() ==> {
                    &&& (#[trigger] m@[k]).0 == m2[k].0
                    &&& if is_predicate_key(m2[k].0@) && m2[k].1 is String {
                        str_of(m@[k].1) == Some(spec_substitute_lists(str_of(m2[k].1)->0, ls))
                    } else {
                        expanded(m2[k].1, m@[k].1, ls, no_macros())
                    }
                }
        },
{
    let empty: Entries = Seq::empty();
    let ds2 = substituted_defs(empty, ls);
    assert(ds2 =~= empty);
    assert(first_unexpandable(ds2, 0) is None);
    lemma_definitions_reach_predicates(m0, w, r, ls, empty);
    assert(expansion_fn(ds2) =~= no_macros()) by {
        assert forall|q: Seq<char>| #[trigger] expansion_fn(ds2)(q) == no_macros()(q) by {
            assert forall|f: nat| #[trigger] exp_name(ds2, q, f) is None by {}
        }
    }
    let m2 = entry_remove(entry_remove(m0@, key_lists()), key_macros());
    let m = w->Mapping_0;
    assert forall|k: int| 0 <= k < m2.len() && is_predicate_key(m2[k].0@) && m2[k].1 is String implies str_of(#[trigger] m@[k].1)
        == Some(spec_substitute_lists(str_of(m2[k].1)->0, ls)) by {
        lemma_no_macros_identity(spec_substitute_lists(str_of(m2[k].1)->0, ls));
    }
}

/// The text written for a string item of a list is the string between
/// double quotes.
pub proof fn lemma_string_item_text(v: String)
    ensures
        item_text(YamlValue::String(v)) matches Some(t) && {
            &&& t.len() == v@.len() + 2
            &&& t[0] == '"'
            &&& t[t.len() - 1] == '"'
            &&& t.subrange(1, t.len() - 1) == v@
        },
{
    let t = item_text(YamlValue::String(v))->0;
    assert(t.subrange(1, t.len() - 1) =~= v@);
}

/// The text written for an integer item of a list reads back as the item:
/// canonical decimal digits of its magnitude, after a `-` when it is
/// negative.
pub proof fn lemma_integer_item_text(n: i64)
    ensures
        item_text(YamlValue::Integer(n)) matches Some(t) && if n < 0 {
            &&& t.len() > 0
            &&& t[0] == '-'
            &&& is_canonical_digits(t.drop_first())
            &&& -digits_value(t.drop_first()) == n
        } else {
            &&& is_canonical_digits(t)
            &&& digits_value(t) == n
        },
{
    lemma_integer_text_value(n);
}

/// When some macro lies on a cycle of references, expanding the
/// configuration fails: some macro is reported as never expanding.
pub proof fn lemma_cycle_rejected(defs: Entries, p: Seq<Seq<char>>)
    requires
        p.len() >= 2,
        p[0] == p[p.len() - 1],
        crate::macros::refs_chain(defs, p),
        has_key(defs, p[0]),
    ensures
        first_unexpandable(defs, 0) is Some,
{
    crate::macros::lemma_reference_cycle_has_no_expansion(defs, p, 0);
    let i = choose|i: int| 0 <= i < defs.len() && #[trigger] defs[i].0 == p[0];
    lemma_some_unexpandable(defs, 0, i);
}

proof fn lemma_some_unexpandable(defs: Entries, i: int, k: int)
    requires
        0 <= i <= k < defs.len(),
        macro_expansion(defs, defs[k].0) is None,
    ensures
        first_unexpandable(defs, i) is Some,
    decreases k - i,
{
    if i < k && macro_expansion(defs, defs[i].0) is Some {
        lemma_some_unexpandable(defs, i + 1, k);
    }
}

/// Expanding the predicates of a valid value gives a valid value.
pub proof fn lemma_expanded_keeps_valid(
    a: YamlValue,
    b: YamlValue,
    lists: Entries,
    expansions: spec_fn(Seq<char>) -> Option<Seq<char>>,
)
    requires
        valid_yaml(a),
        expanded(a, b, lists, expansions),
    ensures
        valid_yaml(b),
    decreases a,
{
    match a {
        YamlValue::Sequence(xs) => {
            let ys = b->Sequence_0@;
            assert forall|k: int| 0 <= k < ys.len() implies valid_yaml(#[trigger] ys[k]) by {
                assert(expanded(xs@[k], ys[k], lists, expansions));
                lemma_expanded_keeps_valid(xs@[k], ys[k], lists, expansions);
            }
        },
        YamlValue::Mapping(xs) => {
            let ys = b->Mapping_0@;
            lemma_entries_expanded_keep_valid(xs@, ys, lists, expansions);
        },
        _ => {},
    }
}

/// Expanding the predicates of entries keeps their keys, and keeps every
/// value valid.
pub proof fn lemma_entries_expanded_keep_valid(
    xs: Seq<(String, YamlValue)>,
    ys: Seq<(String, YamlValue)>,
    lists: Entries,
    expansions: spec_fn(Seq<char>) -> Option<Seq<char>>,
)
    requires
        distinct_entry_keys(xs),
        valid_entries(xs),
        entries_expanded(xs, ys, lists, expansions),
    ensures
        distinct_entry_keys(ys),
        valid_entries(ys),
    decreases xs,
{
    assert forall|i: int, j: int|
        0 <= i < ys.len() && 0 <= j < ys.len() && i != j implies #[trigger] ys[i].0@
        != #[trigger] ys[j].0@ by {
        assert(xs[i].0 == ys[i].0 && xs[j].0 == ys[j].0);
    }
    assert forall|k: int| 0 <= k < ys.len() implies valid_yaml((#[trigger] ys[k]).1) by {
        assert(xs[k].0 == ys[k].0);
        if !(is_predicate_key(xs[k].0@) && xs[k].1 is String) {
            assert(decreases_to!(xs => xs[k]));
            lemma_expanded_keeps_valid(xs[k].1, ys[k].1, lists, expansions);
        }
    }
}

/// Expanding a valid configuration, with or without error, leaves a valid
/// value.
pub proof fn lemma_config_keeps_valid(v: YamlValue, w: YamlValue, r: Result<(), ErrorView>)
    requires
        valid_yaml(v),
        config_result(v, w, r),
    ensures
        valid_yaml(w),
{
    match v {
        YamlValue::Mapping(m0) => {
            let m1 = entry_remove(m0@, key_lists());
            let m2 = entry_remove(m1, key_macros());
            lemma_remove_key(m0@, key_lists(), key_lists());
            lemma_remove_key(m1, key_macros(), key_lists());
            lemma_remove_keeps_valid(m0@, key_lists());
            lemma_remove_keeps_valid(m1, key_macros());
            if let YamlValue::Mapping(m) = w {
                if m@ != m1 && m@ != m2 {
                    let lists = match entry_get(m0@, key_lists()) {
                        Some(x) => spec_parse_list_defs(x),
                        None => Ok(Seq::empty()),
                    };
                    let ls = lists->Ok_0;
                    let defs = match entry_get(m1, key_macros()) {
                        Some(x) => spec_parse_defs(x),
                        None => Ok(Seq::empty()),
                    };
                    let ds2 = substituted_defs(defs->Ok_0, ls);
                    lemma_entries_expanded_keep_valid(m2, m@, ls, expansion_fn(ds2));
                }
            }
        },
        _ => {},
    }
}

/// A configuration that expanded without error holds no `lists` or `macros`
/// key any more, so expanding it again changes nothing.
pub proof fn lemma_expansion_idempotent(
    v: YamlValue,
    w: YamlValue,
    w2: YamlValue,
    r2: Result<(), ErrorView>,
)
    requires
        valid_yaml(v),
        config_result(v, w, Ok::<(), ErrorView>(())),
        config_result(w, w2, r2),
    ensures
        r2 == Ok::<(), ErrorView>(()),
        w2 == w || (w matches YamlValue::Mapping(m) && mapping_is(w2, m@)),
{
    match v {
        YamlValue::Mapping(m0) => {
            let m1 = entry_remove(m0@, key_lists());
            let m2 = entry_remove(m1, key_macros());
            lemma_remove_key(m0@, key_lists(), key_lists());
            lemma_remove_key(m1, key_macros(), key_lists());
            assert(lacks_key(m2, key_lists()));
            assert(lacks_key(m2, key_macros()));
            let ys = w->Mapping_0@;
            assert(ys.len() == m2.len());
            assert(lacks_key(ys, key_lists())) by {
                assert forall|i: int| 0 <= i < ys.len() implies (#[trigger] ys[i]).0@
                    != key_lists() by {
                    assert(ys[i].0 == m2[i].0);
                }
            }
            assert(lacks_key(ys, key_macros())) by {
                assert forall|i: int| 0 <= i < ys.len() implies (#[trigger] ys[i]).0@
                    != key_macros() by {
                    assert(ys[i].0 == m2[i].0);
                }
            }
            lemma_lacks_key(ys, key_lists());
            lemma_lacks_key(ys, key_macros());
        },
        _ => {},
    }
}
} // verus!
