//! A map keyed by identifiers, kept in a vector that holds no key twice.

use vstd::prelude::*;
use crate::ident::Ident;
use crate::id_set::values;

verus! {

/// The keys of a sequence of entries, in order.
spec fn entry_keys<K: View, V>(e: Seq<(K, V)>) -> Seq<K::V> {
    Seq::new(e.len(), |i: int| e[i].0@)
}

/// The map that a sequence of entries stands for.
spec fn map_of<K: View, V>(e: Seq<(K, V)>) -> Map<K::V, V> {
    Map::new(
        |k: K::V| entry_keys(e).contains(k),
        |k: K::V| e[choose|i: int| 0 <= i < e.len() && e[i].0@ == k].1,
    )
}

/// The entry at a position is what the map holds for its key.
proof fn lemma_lookup<K: View, V>(e: Seq<(K, V)>, i: int)
    requires
        entry_keys(e).no_duplicates(),
        0 <= i < e.len(),
    ensures
        map_of(e).contains_key(e[i].0@),
        map_of(e)[e[i].0@] == e[i].1,
{
    let k = e[i].0@;
    assert(entry_keys(e)[i] == k);
    let j = choose|j: int| 0 <= j < e.len() && e[j].0@ == k;
    assert(entry_keys(e)[j] == k);
}

/// A key that no entry has is not in the map.
proof fn lemma_absent<K: View, V>(e: Seq<(K, V)>, k: K::V)
    requires
        forall|j: int| 0 <= j < e.len() ==> e[j].0@ != k,
    ensures
        !map_of(e).contains_key(k),
{
    if entry_keys(e).contains(k) {
        let j = choose|j: int| 0 <= j < entry_keys(e).len() && entry_keys(e)[j] == k;
        assert(e[j].0@ == k);
    }
}

/// Appending an entry with a new key inserts it into the map.
proof fn lemma_push<K: View, V>(e: Seq<(K, V)>, k: K, v: V)
    requires
        entry_keys(e).no_duplicates(),
        forall|j: int| 0 <= j < e.len() ==> e[j].0@ != k@,
    ensures
        entry_keys(e.push((k, v))).no_duplicates(),
        map_of(e.push((k, v))) == map_of(e).insert(k@, v),
{
    let f = e.push((k, v));
    assert(entry_keys(f) =~= entry_keys(e).push(k@));
    assert forall|x: K::V| map_of(f).contains_key(x) <==> map_of(e).insert(k@, v).contains_key(
        x,
    ) by {
        if entry_keys(f).contains(x) {
            let i = choose|i: int| 0 <= i < f.len() && entry_keys(f)[i] == x;
            if i < e.len() {
                assert(entry_keys(e)[i] == x);
            }
        }
        if entry_keys(e).contains(x) {
            let i = choose|i: int| 0 <= i < e.len() && entry_keys(e)[i] == x;
            assert(entry_keys(f)[i] == x);
        }
        if x == k@ {
            assert(entry_keys(f)[e.len() as int] == x);
        }
    }
    assert forall|x: K::V| map_of(f).contains_key(x) implies map_of(f)[x] == map_of(e).insert(
        k@,
        v,
    )[x] by {
        let i = choose|i: int| 0 <= i < f.len() && entry_keys(f)[i] == x;
        lemma_lookup(f, i);
        if i < e.len() {
            lemma_lookup(e, i);
        }
    }
}

/// Taking an entry out of the sequence removes its key from the map.
proof fn lemma_remove<K: View, V>(e: Seq<(K, V)>, i: int)
    requires
        entry_keys(e).no_duplicates(),
        0 <= i < e.len(),
    ensures
        entry_keys(e.remove(i)).no_duplicates(),
        map_of(e.remove(i)) == map_of(e).remove(e[i].0@),
{
    let f = e.remove(i);
    let k = e[i].0@;
    assert(entry_keys(f) =~= entry_keys(e).remove(i));
    assert forall|a: int, b: int| 0 <= a < f.len() && 0 <= b < f.len() && a != b implies entry_keys(
        f,
    )[a] != entry_keys(f)[b] by {
        let a0 = if a < i { a } else { a + 1 };
        let b0 = if b < i { b } else { b + 1 };
        assert(entry_keys(f)[a] == entry_keys(e)[a0]);
        assert(entry_keys(f)[b] == entry_keys(e)[b0]);
    }
    assert forall|x: K::V| map_of(f).contains_key(x) <==> map_of(e).remove(k).contains_key(x) by {
        if entry_keys(f).contains(x) {
            let a = choose|a: int| 0 <= a < f.len() && entry_keys(f)[a] == x;
            let a0 = if a < i { a } else { a + 1 };
            assert(entry_keys(e)[a0] == x);
            assert(entry_keys(e)[i] == k);
        }
        if entry_keys(e).contains(x) && x != k {
            let a0 = choose|a0: int| 0 <= a0 < e.len() && entry_keys(e)[a0] == x;
            let a = if a0 < i { a0 } else { a0 - 1 };
            assert(entry_keys(f)[a] == x);
        }
    }
    assert forall|x: K::V| map_of(f).contains_key(x) implies map_of(f)[x] == map_of(e).remove(
        k,
    )[x] by {
        let a = choose|a: int| 0 <= a < f.len() && entry_keys(f)[a] == x;
        let a0 = if a < i { a } else { a + 1 };
        lemma_lookup(f, a);
        lemma_lookup(e, a0);
    }
}

/// A finite map from identifiers to values of any kind.
pub struct IdMap<K: Ident, V> {
    entries: Vec<(K, V)>,
}

impl<K: Ident, V> View for IdMap<K, V> {
    type V = Map<K::V, V>;

    closed spec fn view(&self) -> Map<K::V, V> {
        map_of(self.entries@)
    }
}

impl<K: Ident, V> IdMap<K, V> {
    #[verifier::type_invariant]
    spec fn distinct(self) -> bool {
        entry_keys(self.entries@).no_duplicates()
    }

    /// The empty map.
    pub fn new() -> (r: Self)
        ensures
            r@ == Map::<K::V, V>::empty(),
    {
        IdMap { entries: Vec::new() }
    }

    /// Where in the vector the key `k` is held, if anywhere.
    fn position(&self, k: &K) -> (r: Option<usize>)
        ensures
            match r {
                Some(i) => i < self.entries.len() && self.entries[i as int].0@ == k@,
                None => forall|j: int| 0 <= j < self.entries.len() ==> self.entries[j].0@ != k@,
            },
    {
        let mut i: usize = 0;
        while i < self.entries.len()
            invariant
                i <= self.entries.len(),
                forall|j: int| 0 <= j < i ==> self.entries[j].0@ != k@,
            decreases self.entries.len() - i,
        {
            if self.entries[i].0.same(k) {
                return Some(i);
            }
            i += 1;
        }
        None
    }

    /// The number of keys.
    pub fn len(&self) -> (n: usize)
        ensures
            self@.dom().finite(),
            n == self@.dom().len(),
    {
        proof {
            use_type_invariant(self);
            entry_keys(self.entries@).unique_seq_to_set();
        }
        self.entries.len()
    }

    /// Whether the map has an entry for `k`.
    pub fn contains_key(&self, k: &K) -> (r: bool)
        ensures
            r == self@.contains_key(k@),
    {
        proof {
            use_type_invariant(self);
        }
        match self.position(k) {
            Some(i) => {
                proof {
                    lemma_lookup(self.entries@, i as int);
                }
                true
            },
            None => {
                proof {
                    lemma_absent(self.entries@, k@);
                }
                false
            },
        }
    }

    /// The value held for `k`, if any.
    pub fn get(&self, k: &K) -> (r: Option<&V>)
        ensures
            match r {
                Some(v) => self@.contains_key(k@) && *v == self@[k@],
                None => !self@.contains_key(k@),
            },
    {
        proof {
            use_type_invariant(self);
        }
        match self.position(k) {
            Some(i) => {
                proof {
                    lemma_lookup(self.entries@, i as int);
                }
                Some(&self.entries[i].1)
            },
            None => {
                proof {
                    lemma_absent(self.entries@, k@);
                }
                None
            },
        }
    }

    /// Sets the value for `k` to `v`. Returns the value held before, if any.
    pub fn insert(&mut self, k: K, v: V) -> (prev: Option<V>)
        ensures
            final(self)@ == old(self)@.insert(k@, v),
            prev == (if old(self)@.contains_key(k@) {
                Some(old(self)@[k@])
            } else {
                None
            }),
    {
        proof {
            use_type_invariant(&*self);
        }
        let found = self.position(&k);
        let mut entries: Vec<(K, V)> = Vec::new();
        std::mem::swap(&mut entries, &mut self.entries);
        let ghost before = entries@;
        let prev = match found {
            Some(i) => {
                proof {
                    lemma_lookup(before, i as int);
                    lemma_remove(before, i as int);
                }
                let (_, held) = entries.remove(i);
                proof {
                    if exists|j: int| 0 <= j < entries.len() && entries[j].0@ == k@ {
                        let j = choose|j: int| 0 <= j < entries.len() && entries[j].0@ == k@;
                        lemma_lookup(entries@, j);
                    }
                }
                Some(held)
            },
            None => {
                proof {
                    lemma_absent(before, k@);
                }
                None
            },
        };
        proof {
            lemma_push(entries@, k, v);
        }
        entries.push((k, v));
        self.entries = entries;
        prev
    }

    /// Takes the entry for `k` out of the map. Returns its value, if there
    /// was one.
    pub fn remove(&mut self, k: &K) -> (prev: Option<V>)
        ensures
            final(self)@ == old(self)@.remove(k@),
            prev == (if old(self)@.contains_key(k@) {
                Some(old(self)@[k@])
            } else {
                None
            }),
    {
        proof {
            use_type_invariant(&*self);
        }
        match self.position(k) {
            Some(i) => {
                let mut entries: Vec<(K, V)> = Vec::new();
                std::mem::swap(&mut entries, &mut self.entries);
                proof {
                    lemma_lookup(entries@, i as int);
                    lemma_remove(entries@, i as int);
                }
                let (_, held) = entries.remove(i);
                self.entries = entries;
                Some(held)
            },
            None => {
                proof {
                    lemma_absent(self.entries@, k@);
                }
                None
            },
        }
    }

    /// A copy of each key, each once, in no particular order.
    pub fn keys(&self) -> (r: Vec<K>)
        ensures
            values(r@).no_duplicates(),
            values(r@).to_set() == self@.dom(),
    {
        proof {
            use_type_invariant(self);
        }
        let mut r: Vec<K> = Vec::new();
        let mut i: usize = 0;
        while i < self.entries.len()
            invariant
                i <= self.entries.len(),
                values(r@) == entry_keys(self.entries@).take(i as int),
            decreases self.entries.len() - i,
        {
            let ghost before = r@;
            let k = self.entries[i].0.duplicate();
            r.push(k);
            proof {
                let keys = entry_keys(self.entries@);
                assert(values(before).len() == i);
                assert forall|j: int| 0 <= j < i + 1 implies values(r@)[j] == keys.take(i + 1)[j] by {
                    if j < i {
                        assert(values(before)[j] == keys.take(i as int)[j]);
                    }
                }
            }
            i += 1;
        }
        proof {
            assert(entry_keys(self.entries@).take(self.entries.len() as int) =~= entry_keys(
                self.entries@,
            ));
        }
        r
    }
}

} // verus!
