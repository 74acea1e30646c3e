//! A table of named texts (list items, macro conditions, expanded macros),
//! kept in the order in which the names were defined, each name at most once.
use vstd::prelude::*;

verus! {

/// The model of a table: its (name, text) entries in definition order.
pub type Entries = Seq<(Seq<char>, Seq<char>)>;

pub open spec fn has_key(t: Entries, k: Seq<char>) -> bool {
    exists|i: int| 0 <= i < t.len() && #[trigger] t[i].0 == k
}

/// The text that `t` gives to the name `k`, if any.
pub open spec fn lookup(t: Entries, k: Seq<char>) -> Option<Seq<char>> {
    if has_key(t, k) {
        Some(t[choose|i: int| 0 <= i < t.len() && #[trigger] t[i].0 == k].1)
    } else {
        None
    }
}

/// No name occurs twice.
pub open spec fn distinct_keys(t: Entries) -> bool {
    forall|i: int, j: int|
        0 <= i < t.len() && 0 <= j < t.len() && i != j ==> #[trigger] t[i].0 != #[trigger] t[j].0
}

/// The names of `t`, in order.
pub open spec fn keys(t: Entries) -> Seq<Seq<char>> {
    t.map_values(|e: (Seq<char>, Seq<char>)| e.0)
}

pub proof fn lemma_lookup_at(t: Entries, i: int)
    requires
        distinct_keys(t),
        0 <= i < t.len(),
    ensures
        has_key(t, t[i].0),
        lookup(t, t[i].0) == Some(t[i].1),
{
    assert(has_key(t, t[i].0));
}

pub proof fn lemma_lookup_push(t: Entries, k: Seq<char>, v: Seq<char>, q: Seq<char>)
    requires
        distinct_keys(t),
        !has_key(t, k),
    ensures
        distinct_keys(t.push((k, v))),
        has_key(t.push((k, v)), q) == (has_key(t, q) || q == k),
        lookup(t.push((k, v)), q) == (if q == k {
            Some(v)
        } else {
            lookup(t, q)
        }),
{
    let t2 = t.push((k, v));
    assert forall|i: int, j: int|
        0 <= i < t2.len() && 0 <= j < t2.len() && i != j implies #[trigger] t2[i].0
        != #[trigger] t2[j].0 by {
        if i < t.len() && j < t.len() {
            assert(t2[i] == t[i] && t2[j] == t[j]);
        } else if i < t.len() {
            assert(t2[i] == t[i]);
        } else {
            assert(t2[j] == t[j]);
        }
    }
    if q == k {
        lemma_lookup_at(t2, t.len() as int);
    } else if has_key(t, q) {
        let i = choose|i: int| 0 <= i < t.len() && #[trigger] t[i].0 == q;
        lemma_lookup_at(t, i);
        assert(t2[i] == t[i]);
        lemma_lookup_at(t2, i);
    } else {
        assert forall|i: int| 0 <= i < t2.len() implies #[trigger] t2[i].0 != q by {
            if i < t.len() {
                assert(t2[i] == t[i]);
            }
        }
    }
}

/// A table that `t2` extends keeps the texts of `t`'s names.
pub proof fn lemma_lookup_prefix(t: Entries, t2: Entries, k: Seq<char>)
    requires
        t.is_prefix_of(t2),
        distinct_keys(t2),
        has_key(t, k),
    ensures
        has_key(t2, k),
        lookup(t2, k) == lookup(t, k),
{
    let i = choose|i: int| 0 <= i < t.len() && #[trigger] t[i].0 == k;
    assert(t2[i] == t[i]);
    assert(distinct_keys(t)) by {
        assert forall|a: int, b: int|
            0 <= a < t.len() && 0 <= b < t.len() && a != b implies #[trigger] t[a].0
            != #[trigger] t[b].0 by {
            assert(t2[a] == t[a] && t2[b] == t[b]);
        }
    }
    lemma_lookup_at(t, i);
    lemma_lookup_at(t2, i);
}

/// Names mapped to texts, in definition order, each name at most once.
#[derive(Debug)]
pub struct NameTable {
    entries: Vec<(String, String)>,
}

impl View for NameTable {
    type V = Entries;

    closed spec fn view(&self) -> Entries {
        Seq::new(self.entries@.len(), |i: int| (self.entries@[i].0@, self.entries@[i].1@))
    }
}

impl NameTable {
    #[verifier::type_invariant]
    spec fn well_formed(self) -> bool {
        distinct_keys(self@)
    }

    /// An empty table.
    pub fn new() -> (t: NameTable)
        ensures
            t@ == Seq::<(Seq<char>, Seq<char>)>::empty(),
    {
        let t = NameTable { entries: Vec::new() };
        assert(t@ =~= Seq::<(Seq<char>, Seq<char>)>::empty());
        t
    }

    pub fn len(&self) -> (n: usize)
        ensures
            n == self@.len(),
            distinct_keys(self@),
    {
        proof {
            use_type_invariant(self);
        }
        self.entries.len()
    }

    pub fn is_empty(&self) -> (b: bool)
        ensures
            b == (self@.len() == 0),
    {
        self.entries.len() == 0
    }

    /// The name of the `i`-th entry.
    pub fn key_at(&self, i: usize) -> (k: &String)
        requires
            i < self@.len(),
        ensures
            k@ == self@[i as int].0,
    {
        &self.entries[i].0
    }

    /// The text of the `i`-th entry.
    pub fn value_at(&self, i: usize) -> (v: &String)
        requires
            i < self@.len(),
        ensures
            v@ == self@[i as int].1,
    {
        &self.entries[i].1
    }

    /// The position of the entry named `key`, if there is one.
    pub fn find(&self, key: &String) -> (r: Option<usize>)
        ensures
            distinct_keys(self@),
            match r {
                Some(i) => i < self@.len() && self@[i as int].0 == key@ && lookup(self@, key@)
                    == Some(self@[i as int].1),
                None => !has_key(self@, key@) && lookup(self@, key@) is None,
            },
    {
        proof {
            use_type_invariant(self);
        }
        let mut i: usize = 0;
        while i < self.entries.len()
            invariant
                i <= self@.len(),
                self@.len() == self.entries@.len(),
                distinct_keys(self@),
                forall|j: int| 0 <= j < i ==> #[trigger] self@[j].0 != key@,
            decreases self@.len() - i,
        {
            if self.entries[i].0 == *key {
                proof {
                    lemma_lookup_at(self@, i as int);
                }
                return Some(i);
            }
            i += 1;
        }
        None
    }

    /// The text of `key`, if the table names it.
    pub fn get(&self, key: &String) -> (r: Option<&String>)
        ensures
            match r {
                Some(v) => lookup(self@, key@) == Some(v@),
                None => lookup(self@, key@) is None,
            },
    {
        match self.find(key) {
            Some(i) => Some(&self.entries[i].1),
            None => None,
        }
    }

    pub fn contains_key(&self, key: &String) -> (b: bool)
        ensures
            b == has_key(self@, key@),
    {
        self.find(key).is_some()
    }

    /// Adds `key` with `value` unless the table already names `key`; tells
    /// whether it did.
    pub fn insert_new(&mut self, key: String, value: String) -> (added: bool)
        ensures
            added == !has_key(old(self)@, key@),
            added ==> final(self)@ == old(self)@.push((key@, value@)),
            !added ==> final(self)@ == old(self)@,
            distinct_keys(final(self)@),
    {
        proof {
            use_type_invariant(&*self);
        }
        if self.contains_key(&key) {
            return false;
        }
        let ghost k = key@;
        let ghost v = value@;
        proof {
            lemma_lookup_push(self@, k, v, k);
        }
        let mut entries: Vec<(String, String)> = Vec::new();
        std::mem::swap(&mut entries, &mut self.entries);
        entries.push((key, value));
        assert(Seq::new(entries@.len(), |i: int| (entries@[i].0@, entries@[i].1@)) =~= old(
            self,
        )@.push((k, v)));
        self.entries = entries;
        assert(self@ =~= old(self)@.push((k, v)));
        true
    }

    /// A copy of the table.
    pub fn duplicate(&self) -> (t: NameTable)
        ensures
            t@ == self@,
    {
        proof {
            use_type_invariant(self);
        }
        let mut entries: Vec<(String, String)> = Vec::new();
        let mut i: usize = 0;
        while i < self.entries.len()
            invariant
                i <= self.entries@.len(),
                entries@.len() == i,
                forall|j: int|
                    0 <= j < i ==> (#[trigger] entries@[j]).0@ == self.entries@[j].0@
                        && entries@[j].1@ == self.entries@[j].1@,
            decreases self.entries@.len() - i,
        {
            let k = self.entries[i].0.clone();
            let v = self.entries[i].1.clone();
            entries.push((k, v));
            i += 1;
        }
        assert(Seq::new(entries@.len(), |i: int| (entries@[i].0@, entries@[i].1@)) =~= self@);
        let t = NameTable { entries };
        t
    }
}

} // verus!
