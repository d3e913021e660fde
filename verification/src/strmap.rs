//! A map from strings to strings that keeps its entries in insertion order.

use vstd::prelude::*;

verus! {

/// Entries as the contracts see them: pairs of character sequences.
pub type Entries = Seq<(Seq<char>, Seq<char>)>;

/// No key occurs twice.
pub open spec fn keys_distinct(s: Entries) -> bool {
    forall|i: int, j: int| 0 <= i < j < s.len() ==> s[i].0 != s[j].0
}

/// Some entry has key `k`.
pub open spec fn has_key(s: Entries, k: Seq<char>) -> bool {
    exists|i: int| 0 <= i < s.len() && s[i].0 == k
}

/// The index of the entry with key `k`.
pub open spec fn index_of(s: Entries, k: Seq<char>) -> int {
    choose|i: int| 0 <= i < s.len() && s[i].0 == k
}

/// The value stored under `k`, if any.
pub open spec fn lookup(s: Entries, k: Seq<char>) -> Option<Seq<char>> {
    if has_key(s, k) {
        Some(s[index_of(s, k)].1)
    } else {
        None
    }
}

/// The entries after storing `v` under `k`: an existing entry keeps its place
/// and takes the new value, a new key goes to the end.
pub open spec fn insert_entry(s: Entries, k: Seq<char>, v: Seq<char>) -> Entries {
    if has_key(s, k) {
        s.update(index_of(s, k), (k, v))
    } else {
        s.push((k, v))
    }
}

/// The entries without the one under `k`.
pub open spec fn remove_entry(s: Entries, k: Seq<char>) -> Entries {
    if has_key(s, k) {
        s.remove(index_of(s, k))
    } else {
        s
    }
}

/// With distinct keys, the entry found for a key is the one at any index that holds it.
pub proof fn lemma_index_of(s: Entries, k: Seq<char>, i: int)
    requires
        keys_distinct(s),
        0 <= i < s.len(),
        s[i].0 == k,
    ensures
        has_key(s, k),
        index_of(s, k) == i,
        lookup(s, k) == Some(s[i].1),
{
}

/// Inserting keeps the keys distinct.
pub proof fn lemma_insert_distinct(s: Entries, k: Seq<char>, v: Seq<char>)
    requires
        keys_distinct(s),
    ensures
        keys_distinct(insert_entry(s, k, v)),
{
}

/// Removing keeps the keys distinct.
pub proof fn lemma_remove_distinct(s: Entries, k: Seq<char>)
    requires
        keys_distinct(s),
    ensures
        keys_distinct(remove_entry(s, k)),
{
    if has_key(s, k) {
        let i = index_of(s, k);
        let r = s.remove(i);
        assert forall|a: int, b: int| 0 <= a < b < r.len() implies r[a].0 != r[b].0 by {
            let a0 = if a < i { a } else { a + 1 };
            let b0 = if b < i { b } else { b + 1 };
            assert(r[a] == s[a0]);
            assert(r[b] == s[b0]);
        }
    }
}

/// A lookup right after storing `v` under `k` gives `v`; other keys keep their values.
pub proof fn lemma_lookup_insert(s: Entries, k: Seq<char>, v: Seq<char>, other: Seq<char>)
    requires
        keys_distinct(s),
    ensures
        lookup(insert_entry(s, k, v), k) == Some(v),
        other != k ==> lookup(insert_entry(s, k, v), other) == lookup(s, other),
{
    let t = insert_entry(s, k, v);
    lemma_insert_distinct(s, k, v);
    if has_key(s, k) {
        let i = index_of(s, k);
        lemma_index_of(t, k, i);
        if other != k && has_key(s, other) {
            let j = index_of(s, other);
            lemma_index_of(t, other, j);
        }
        if other != k && has_key(t, other) {
            let j = index_of(t, other);
            assert(s[j].0 == other);
        }
    } else {
        lemma_index_of(t, k, s.len() as int);
        if other != k && has_key(s, other) {
            let j = index_of(s, other);
            lemma_index_of(t, other, j);
        }
        if other != k && has_key(t, other) {
            let j = index_of(t, other);
            assert(s[j].0 == other);
        }
    }
}

/// A lookup right after removing `k` finds nothing; other keys keep their values.
pub proof fn lemma_lookup_remove(s: Entries, k: Seq<char>, other: Seq<char>)
    requires
        keys_distinct(s),
    ensures
        lookup(remove_entry(s, k), k) is None,
        other != k ==> lookup(remove_entry(s, k), other) == lookup(s, other),
{
    let t = remove_entry(s, k);
    lemma_remove_distinct(s, k);
    if has_key(s, k) {
        let i = index_of(s, k);
        if has_key(t, k) {
            let j = index_of(t, k);
            let j0 = if j < i { j } else { j + 1 };
            assert(t[j] == s[j0]);
        }
        if other != k && has_key(s, other) {
            let j = index_of(s, other);
            let j1 = if j < i { j } else { j - 1 };
            assert(t[j1] == s[j]);
            lemma_index_of(t, other, j1);
        }
        if other != k && has_key(t, other) {
            let j = index_of(t, other);
            let j0 = if j < i { j } else { j + 1 };
            assert(t[j] == s[j0]);
        }
    }
}

/// A map from strings to strings; each key occurs once, entries stay in the
/// order in which their keys were first inserted.
#[derive(Debug)]
pub struct StrMap {
    entries: Vec<(String, String)>,
}

/// The entries of a vector of string pairs, as character sequences.
spec fn view_of(v: Seq<(String, String)>) -> Entries {
    v.map_values(|e: (String, String)| (e.0@, e.1@))
}

impl View for StrMap {
    type V = Entries;

    closed spec fn view(&self) -> Entries {
        view_of(self.entries@)
    }
}

impl StrMap {
    #[verifier::type_invariant]
    closed spec fn inv(self) -> bool {
        keys_distinct(self@)
    }

    /// An empty map.
    pub fn new() -> (m: Self)
        ensures
            m@ == Seq::<(Seq<char>, Seq<char>)>::empty(),
    {
        let m = StrMap { entries: Vec::new() };
        assert(m@ =~= Seq::<(Seq<char>, Seq<char>)>::empty());
        m
    }

    /// Number of entries.
    pub fn len(&self) -> (n: usize)
        ensures
            n == self@.len(),
            keys_distinct(self@),
    {
        proof {
            use_type_invariant(self);
        }
        self.entries.len()
    }

    /// Key of the entry at position `i`.
    pub fn key_at(&self, i: usize) -> (k: &str)
        requires
            i < self@.len(),
        ensures
            k@ == self@[i as int].0,
    {
        self.entries[i].0.as_str()
    }

    /// Value of the entry at position `i`.
    pub fn value_at(&self, i: usize) -> (v: &str)
        requires
            i < self@.len(),
        ensures
            v@ == self@[i as int].1,
    {
        self.entries[i].1.as_str()
    }

    /// Position of the entry with key `k`.
    fn position(&self, k: &String) -> (r: Option<usize>)
        ensures
            match r {
                Some(i) => i < self@.len() && self@[i as int].0 == k@ && index_of(self@, k@) == i
                    && has_key(self@, k@),
                None => !has_key(self@, k@),
            },
    {
        proof {
            use_type_invariant(self);
        }
        let mut i: usize = 0;
        while i < self.entries.len()
            invariant
                i <= self@.len(),
                self@.len() == self.entries@.len(),
                forall|j: int| 0 <= j < i ==> self@[j].0 != k@,
                keys_distinct(self@),
            decreases self.entries.len() - i,
        {
            if self.entries[i].0 == *k {
                proof {
                    lemma_index_of(self@, k@, i as int);
                }
                return Some(i);
            }
            i = i + 1;
        }
        None
    }

    /// The value stored under `k`.
    pub fn get(&self, k: &str) -> (r: Option<&str>)
        ensures
            match r {
                Some(v) => lookup(self@, k@) == Some(v@),
                None => lookup(self@, k@) is None,
            },
    {
        let key = k.to_owned();
        match self.position(&key) {
            Some(i) => Some(self.entries[i].1.as_str()),
            None => None,
        }
    }

    /// Whether some entry has key `k`.
    pub fn contains_key(&self, k: &str) -> (b: bool)
        ensures
            b == has_key(self@, k@),
    {
        let key = k.to_owned();
        self.position(&key).is_some()
    }

    /// Stores `v` under `k`, replacing an earlier value.
    pub fn insert(&mut self, k: String, v: String)
        ensures
            final(self)@ == insert_entry(old(self)@, k@, v@),
            keys_distinct(final(self)@),
    {
        proof {
            use_type_invariant(&*self);
        }
        let ghost old_view = self@;
        match self.position(&k) {
            Some(i) => {
                let mut entries: Vec<(String, String)> = Vec::new();
                std::mem::swap(&mut entries, &mut self.entries);
                entries.set(i, (k, v));
                assert(view_of(entries@) =~= insert_entry(old_view, k@, v@));
                proof {
                    lemma_insert_distinct(old_view, k@, v@);
                }
                self.entries = entries;
            },
            None => {
                let mut entries: Vec<(String, String)> = Vec::new();
                std::mem::swap(&mut entries, &mut self.entries);
                entries.push((k, v));
                assert(view_of(entries@) =~= insert_entry(old_view, k@, v@));
                proof {
                    lemma_insert_distinct(old_view, k@, v@);
                }
                self.entries = entries;
            },
        }
    }

    /// Removes the entry under `k`, if there is one.
    pub fn remove(&mut self, k: &str)
        ensures
            final(self)@ == remove_entry(old(self)@, k@),
            keys_distinct(final(self)@),
    {
        proof {
            use_type_invariant(&*self);
        }
        let ghost old_view = self@;
        let key = k.to_owned();
        match self.position(&key) {
            Some(i) => {
                let mut entries: Vec<(String, String)> = Vec::new();
                std::mem::swap(&mut entries, &mut self.entries);
                entries.remove(i);
                assert(view_of(entries@) =~= remove_entry(old_view, k@));
                proof {
                    lemma_remove_distinct(old_view, k@);
                }
                self.entries = entries;
            },
            None => {},
        }
    }

    /// Stores `v` under `k` unless `k` already has a value.
    pub fn insert_if_absent(&mut self, k: String, v: String)
        ensures
            final(self)@ == if has_key(old(self)@, k@) {
                old(self)@
            } else {
                insert_entry(old(self)@, k@, v@)
            },
    {
        if !self.contains_key(k.as_str()) {
            self.insert(k, v);
        }
    }

    /// Moves all entries out, leaving the map empty.
    pub fn take_all(&mut self) -> (m: StrMap)
        ensures
            m@ == old(self)@,
            final(self)@ == Seq::<(Seq<char>, Seq<char>)>::empty(),
    {
        proof {
            use_type_invariant(&*self);
        }
        let mut entries: Vec<(String, String)> = Vec::new();
        std::mem::swap(&mut entries, &mut self.entries);
        let m = StrMap { entries };
        assert(self@ =~= Seq::<(Seq<char>, Seq<char>)>::empty());
        m
    }
}

impl Clone for StrMap {
    fn clone(&self) -> (m: Self)
        ensures
            m@ == self@,
    {
        proof {
            use_type_invariant(self);
        }
        let mut entries: Vec<(String, String)> = Vec::new();
        let mut i: usize = 0;
        while i < self.entries.len()
            invariant
                i <= self.entries@.len(),
                view_of(entries@) =~= self@.take(i as int),
                self@.len() == self.entries@.len(),
            decreases self.entries.len() - i,
        {
            let k = self.entries[i].0.clone();
            let v = self.entries[i].1.clone();
            let ghost prev = entries@;
            entries.push((k, v));
            i = i + 1;
            assert(entries@ == prev.push((k, v)));
            assert(k@ == self.entries@[i - 1].0@);
            assert(v@ == self.entries@[i - 1].1@);
            assert(view_of(entries@) =~= view_of(prev).push((k@, v@)));
            assert(self@[i - 1] == (k@, v@));
            assert(self@.take(i as int) =~= self@.take(i - 1).push(self@[i - 1]));
            assert(view_of(entries@) =~= self@.take(i as int));
        }
        let m = StrMap { entries };
        assert(m@ =~= self@);
        m
    }
}

} // verus!
