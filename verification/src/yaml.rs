//! The YAML values that a rule configuration is made of, and the accessors
//! that the expansion reads them with.
use vstd::prelude::*;

verus! {

/// A YAML value. A mapping keeps its entries in document order; a tagged
/// value keeps its tag and the value it tags. A value read from a document
/// holds each key of a mapping at most once (`valid_yaml`).
#[derive(Debug, PartialEq)]
pub enum YamlValue {
    Null,
    Bool(bool),
    Integer(i64),
    /// A floating-point number, held by its IEEE 754 bits.
    Float(u64),
    String(String),
    Sequence(Vec<YamlValue>),
    Mapping(Vec<(String, YamlValue)>),
    Tagged(String, Box<YamlValue>),
}

/// The text of a string value.
pub open spec fn str_of(v: YamlValue) -> Option<Seq<char>> {
    match v {
        YamlValue::String(s) => Some(s@),
        _ => None,
    }
}

/// The text of a value that may be missing.
pub open spec fn opt_str(o: Option<YamlValue>) -> Option<Seq<char>> {
    match o {
        Some(v) => str_of(v),
        None => None,
    }
}

/// The items of a sequence value that may be missing.
pub open spec fn opt_items(o: Option<YamlValue>) -> Option<Seq<YamlValue>> {
    match o {
        Some(YamlValue::Sequence(items)) => Some(items@),
        _ => None,
    }
}

/// The position of the first entry with key `k`, looking from `i` on.
pub open spec fn entry_index_from(e: Seq<(String, YamlValue)>, k: Seq<char>, i: int) -> Option<int>
    decreases e.len() - i,
{
    if 0 <= i < e.len() {
        if e[i].0@ == k {
            Some(i)
        } else {
            entry_index_from(e, k, i + 1)
        }
    } else {
        None
    }
}

/// The position of the entry with key `k`.
pub open spec fn entry_index(e: Seq<(String, YamlValue)>, k: Seq<char>) -> Option<int> {
    entry_index_from(e, k, 0)
}

/// The value under key `k`.
pub open spec fn entry_get(e: Seq<(String, YamlValue)>, k: Seq<char>) -> Option<YamlValue> {
    match entry_index(e, k) {
        Some(i) => Some(e[i].1),
        None => None,
    }
}

/// The entries without the one with key `k`, the others keeping their order.
pub open spec fn entry_remove(e: Seq<(String, YamlValue)>, k: Seq<char>) -> Seq<(String, YamlValue)> {
    match entry_index(e, k) {
        Some(i) => e.remove(i),
        None => e,
    }
}

/// The position of the entry with key `key`: `Mapping::get`'s search.
pub fn find_entry(e: &Vec<(String, YamlValue)>, key: &String) -> (r: Option<usize>)
    ensures
        match r {
            Some(i) => entry_index(e@, key@) == Some(i as int) && i < e@.len(),
            None => entry_index(e@, key@) is None,
        },
{
    let mut i: usize = 0;
    while i < e.len()
        invariant
            i <= e@.len(),
            entry_index(e@, key@) == entry_index_from(e@, key@, i as int),
        decreases e@.len() - i,
    {
        if e[i].0 == *key {
            return Some(i);
        }
        i += 1;
    }
    None
}

/// The value under `key`: `Mapping::get`.
pub fn get_entry<'a>(e: &'a Vec<(String, YamlValue)>, key: &String) -> (r: Option<&'a YamlValue>)
    ensures
        match r {
            Some(v) => entry_get(e@, key@) == Some(*v),
            None => entry_get(e@, key@) is None,
        },
{
    match find_entry(e, key) {
        Some(i) => Some(&e[i].1),
        None => None,
    }
}

/// Takes out the entry with key `key`, keeping the others in order:
/// `Mapping::remove`, a shift removal.
pub fn remove_entry(e: &mut Vec<(String, YamlValue)>, key: &String) -> (r: Option<YamlValue>)
    ensures
        r == entry_get(old(e)@, key@),
        final(e)@ == entry_remove(old(e)@, key@),
{
    match find_entry(e, key) {
        Some(i) => {
            let (_, v) = e.remove(i);
            Some(v)
        },
        None => None,
    }
}

/// The text of a string value: `Value::as_str`.
pub fn as_str(v: &YamlValue) -> (r: Option<&String>)
    ensures
        match r {
            Some(s) => str_of(*v) == Some(s@),
            None => str_of(*v) is None,
        },
{
    match v {
        YamlValue::String(s) => Some(s),
        _ => None,
    }
}

/// The items of a sequence value: `Value::as_sequence`.
pub fn as_sequence(v: &YamlValue) -> (r: Option<&Vec<YamlValue>>)
    ensures
        match r {
            Some(items) => *v == YamlValue::Sequence(*items),
            None => !(v is Sequence),
        },
{
    match v {
        YamlValue::Sequence(items) => Some(items),
        _ => None,
    }
}

/// No key occurs twice, as in a YAML mapping.
pub open spec fn distinct_entry_keys(e: Seq<(String, YamlValue)>) -> bool {
    forall|i: int, j: int|
        0 <= i < e.len() && 0 <= j < e.len() && i != j ==> #[trigger] e[i].0@ != #[trigger] e[j].0@
}

/// A value as a YAML document holds it: no mapping, at any depth, holds a
/// key twice.
pub open spec fn valid_yaml(v: YamlValue) -> bool
    decreases v,
{
    match v {
        YamlValue::Sequence(items) => forall|k: int|
            0 <= k < items@.len() ==> valid_yaml(#[trigger] items@[k]),
        YamlValue::Mapping(entries) => {
            &&& distinct_entry_keys(entries@)
            &&& forall|k: int| 0 <= k < entries@.len() ==> valid_yaml((#[trigger] entries@[k]).1)
        },
        YamlValue::Tagged(_, inner) => valid_yaml(*inner),
        _ => true,
    }
}

/// Every value held by the entries is valid.
pub open spec fn valid_entries(e: Seq<(String, YamlValue)>) -> bool {
    forall|k: int| 0 <= k < e.len() ==> valid_yaml((#[trigger] e[k]).1)
}

/// Removing an entry keeps the values of the others.
pub proof fn lemma_remove_keeps_valid(e: Seq<(String, YamlValue)>, k: Seq<char>)
    requires
        valid_entries(e),
    ensures
        valid_entries(entry_remove(e, k)),
{
    lemma_entry_index_from(e, k, 0);
    match entry_index(e, k) {
        Some(i) => {
            let r = e.remove(i);
            assert forall|m: int| 0 <= m < r.len() implies valid_yaml((#[trigger] r[m]).1) by {
                if m < i {
                    assert(r[m] == e[m]);
                } else {
                    assert(r[m] == e[m + 1]);
                }
            }
        },
        None => {},
    }
}

/// The key `k` occurs nowhere in `e`.
pub open spec fn lacks_key(e: Seq<(String, YamlValue)>, k: Seq<char>) -> bool {
    forall|i: int| 0 <= i < e.len() ==> (#[trigger] e[i]).0@ != k
}

pub proof fn lemma_entry_index_from(e: Seq<(String, YamlValue)>, k: Seq<char>, j: int)
    requires
        0 <= j,
    ensures
        entry_index_from(e, k, j) matches Some(i) ==> j <= i < e.len() && e[i].0@ == k,
        (forall|m: int| j <= m < e.len() ==> (#[trigger] e[m]).0@ != k) ==> entry_index_from(
            e,
            k,
            j,
        ) is None,
        entry_index_from(e, k, j) is None ==> forall|m: int|
            j <= m < e.len() ==> (#[trigger] e[m]).0@ != k,
    decreases e.len() - j,
{
    if j < e.len() {
        lemma_entry_index_from(e, k, j + 1);
    }
}

/// Without the key, a lookup finds nothing.
pub proof fn lemma_lacks_key(e: Seq<(String, YamlValue)>, k: Seq<char>)
    requires
        lacks_key(e, k),
    ensures
        entry_index(e, k) is None,
        entry_get(e, k) is None,
        entry_remove(e, k) == e,
{
    lemma_entry_index_from(e, k, 0);
}

/// Removing a key of a mapping whose keys are distinct leaves no entry with
/// it, keeps the keys distinct, and keeps away any key that was absent.
pub proof fn lemma_remove_key(e: Seq<(String, YamlValue)>, k: Seq<char>, q: Seq<char>)
    requires
        distinct_entry_keys(e),
    ensures
        lacks_key(entry_remove(e, k), k),
        distinct_entry_keys(entry_remove(e, k)),
        lacks_key(e, q) ==> lacks_key(entry_remove(e, k), q),
{
    lemma_entry_index_from(e, k, 0);
    match entry_index(e, k) {
        Some(i) => {
            let r = e.remove(i);
            assert forall|m: int| 0 <= m < r.len() implies (#[trigger] r[m]).0@ != k by {
                if m < i {
                    assert(r[m] == e[m]);
                } else {
                    assert(r[m] == e[m + 1]);
                }
            }
            assert forall|a: int, b: int|
                0 <= a < r.len() && 0 <= b < r.len() && a != b implies #[trigger] r[a].0@
                != #[trigger] r[b].0@ by {
                let a2 = if a < i {
                    a
                } else {
                    a + 1
                };
                let b2 = if b < i {
                    b
                } else {
                    b + 1
                };
                assert(r[a] == e[a2] && r[b] == e[b2]);
            }
            if lacks_key(e, q) {
                assert forall|m: int| 0 <= m < r.len() implies (#[trigger] r[m]).0@ != q by {
                    if m < i {
                        assert(r[m] == e[m]);
                    } else {
                        assert(r[m] == e[m + 1]);
                    }
                }
            }
        },
        None => {},
    }
}

} // verus!
