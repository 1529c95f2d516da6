//! A set of identifiers, kept in a vector that holds no value twice.

use vstd::prelude::*;
use crate::ident::Ident;

verus! {

/// The values that a sequence of identifiers stands for, in order.
pub open spec fn values<T: View>(s: Seq<T>) -> Seq<T::V> {
    Seq::new(s.len(), |i: int| s[i]@)
}

/// The values of the first `n + 1` identifiers are those of the first `n`
/// together with the value of the next one.
pub proof fn lemma_values_step<T: View>(s: Seq<T>, n: int)
    requires
        0 <= n < s.len(),
    ensures
        values(s.take(n + 1)).to_set() == values(s.take(n)).to_set().insert(s[n]@),
{
    let a = values(s.take(n + 1));
    let b = values(s.take(n));
    assert forall|v: T::V| a.to_set().contains(v) <==> b.to_set().insert(s[n]@).contains(v) by {
        if a.contains(v) {
            let i = choose|i: int| 0 <= i < a.len() && a[i] == v;
            if i < n {
                assert(b[i] == v);
            }
        }
        if b.contains(v) {
            let i = choose|i: int| 0 <= i < b.len() && b[i] == v;
            assert(a[i] == v);
        }
        if v == s[n]@ {
            assert(a[n] == v);
        }
    }
}

/// No identifier taken gives no value, and all of them taken give every value.
pub proof fn lemma_values_ends<T: View>(s: Seq<T>)
    ensures
        values(s.take(0)).to_set() == Set::<T::V>::empty(),
        values(s.take(s.len() as int)) == values(s),
{
    assert(values(s.take(0)).to_set() =~= Set::<T::V>::empty());
}

/// A finite set of identifiers.
pub struct IdSet<T: Ident> {
    items: Vec<T>,
}

impl<T: Ident> View for IdSet<T> {
    type V = Set<T::V>;

    closed spec fn view(&self) -> Set<T::V> {
        values(self.items@).to_set()
    }
}

impl<T: Ident> IdSet<T> {
    #[verifier::type_invariant]
    spec fn distinct(self) -> bool {
        values(self.items@).no_duplicates()
    }

    /// The empty set.
    pub fn new() -> (r: Self)
        ensures
            r@ == Set::<T::V>::empty(),
    {
        IdSet { items: Vec::new() }
    }

    /// Where in the vector the value of `x` is held, if anywhere.
    fn position(&self, x: &T) -> (r: Option<usize>)
        ensures
            match r {
                Some(i) => i < self.items.len() && self.items[i as int]@ == x@,
                None => forall|j: int| 0 <= j < self.items.len() ==> self.items[j]@ != x@,
            },
    {
        let mut i: usize = 0;
        while i < self.items.len()
            invariant
                i <= self.items.len(),
                forall|j: int| 0 <= j < i ==> self.items[j]@ != x@,
            decreases self.items.len() - i,
        {
            if self.items[i].same(x) {
                return Some(i);
            }
            i += 1;
        }
        None
    }

    /// The number of elements.
    pub fn len(&self) -> (n: usize)
        ensures
            self@.finite(),
            n == self@.len(),
    {
        proof {
            use_type_invariant(self);
            values(self.items@).unique_seq_to_set();
        }
        self.items.len()
    }

    /// Whether the set has no element.
    pub fn is_empty(&self) -> (r: bool)
        ensures
            r == self@.is_empty(),
    {
        proof {
            if self.items.len() > 0 {
                assert(values(self.items@)[0] == self.items[0]@);
                assert(self@.contains(self.items[0]@));
            }
        }
        self.items.len() == 0
    }

    /// Whether the set holds the value of `x`.
    pub fn contains(&self, x: &T) -> (r: bool)
        ensures
            r == self@.contains(x@),
    {
        match self.position(x) {
            Some(i) => {
                assert(values(self.items@)[i as int] == x@);
                true
            },
            None => false,
        }
    }

    /// Adds `x` to the set. Returns whether its value was new to the set.
    pub fn insert(&mut self, x: T) -> (fresh: bool)
        ensures
            final(self)@ == old(self)@.insert(x@),
            fresh == !old(self)@.contains(x@),
    {
        proof {
            use_type_invariant(&*self);
        }
        match self.position(&x) {
            Some(i) => {
                assert(values(self.items@)[i as int] == x@);
                false
            },
            None => {
                proof {
                    let before = values(self.items@);
                    let after = values(self.items@.push(x));
                    assert(after =~= before.push(x@));
                    assert forall|v: T::V| after.to_set().contains(v) <==> before.to_set().insert(
                        x@,
                    ).contains(v) by {
                        if after.contains(v) {
                            let i = choose|i: int| 0 <= i < after.len() && after[i] == v;
                            if i < before.len() {
                                assert(before[i] == v);
                            }
                        }
                        if before.contains(v) {
                            let i = choose|i: int| 0 <= i < before.len() && before[i] == v;
                            assert(after[i] == v);
                        }
                        if v == x@ {
                            assert(after[before.len() as int] == v);
                        }
                    }
                }
                let mut items: Vec<T> = Vec::new();
                std::mem::swap(&mut items, &mut self.items);
                items.push(x);
                self.items = items;
                true
            },
        }
    }

    /// Takes the value of `x` out of the set. Returns whether it was there.
    pub fn remove(&mut self, x: &T) -> (found: bool)
        ensures
            final(self)@ == old(self)@.remove(x@),
            found == old(self)@.contains(x@),
    {
        proof {
            use_type_invariant(&*self);
        }
        match self.position(x) {
            Some(i) => {
                proof {
                    let before = values(self.items@);
                    let after = values(self.items@.remove(i as int));
                    assert(before[i as int] == x@);
                    assert(after =~= before.remove(i as int));
                    assert forall|a: int, b: int|
                        0 <= a < after.len() && 0 <= b < after.len() && a != b implies after[a]
                        != after[b] by {
                        let a0 = if a < i { a } else { a + 1 };
                        let b0 = if b < i { b } else { b + 1 };
                        assert(after[a] == before[a0]);
                        assert(after[b] == before[b0]);
                    }
                    assert forall|v: T::V| after.to_set().contains(v) <==> before.to_set().remove(
                        x@,
                    ).contains(v) by {
                        if after.contains(v) {
                            let a = choose|a: int| 0 <= a < after.len() && after[a] == v;
                            let a0 = if a < i { a } else { a + 1 };
                            assert(before[a0] == v);
                        }
                        if before.contains(v) && v != x@ {
                            let a0 = choose|a0: int| 0 <= a0 < before.len() && before[a0] == v;
                            let a = if a0 < i { a0 } else { a0 - 1 };
                            assert(after[a] == v);
                        }
                    }
                }
                let mut items: Vec<T> = Vec::new();
                std::mem::swap(&mut items, &mut self.items);
                items.remove(i);
                self.items = items;
                true
            },
            None => false,
        }
    }

    /// The set of the values in `v`, each held once however often it occurs.
    pub fn from_vec(v: Vec<T>) -> (r: Self)
        ensures
            r@ == values(v@).to_set(),
    {
        let ghost all = values(v@).to_set();
        let mut rest = v;
        let mut r: IdSet<T> = IdSet::new();
        while rest.len() > 0
            invariant
                r@.union(values(rest@).to_set()) == all,
            decreases rest.len(),
        {
            let ghost before = rest@;
            let x = rest.pop().unwrap();
            proof {
                lemma_values_step(before, before.len() - 1);
                lemma_values_ends(before);
            }
            r.insert(x);
        }
        proof {
            assert(values(rest@).to_set() =~= Set::<T::V>::empty());
        }
        r
    }

    /// The set of the values in `items`, each held once however often it
    /// occurs.
    pub fn from_slice(items: &[T]) -> (r: Self)
        ensures
            r@ == values(items@).to_set(),
    {
        let mut r: IdSet<T> = IdSet::new();
        let mut i: usize = 0;
        proof {
            lemma_values_ends(items@);
        }
        while i < items.len()
            invariant
                i <= items.len(),
                r@ == values(items@.take(i as int)).to_set(),
            decreases items.len() - i,
        {
            proof {
                lemma_values_step(items@, i as int);
            }
            r.insert(items[i].duplicate());
            i += 1;
        }
        proof {
            lemma_values_ends(items@);
        }
        r
    }

    /// The elements of this set that `other` does not hold.
    pub fn difference(&self, other: &Self) -> (r: Self)
        ensures
            r@ == self@.difference(other@),
    {
        let mut r: IdSet<T> = IdSet::new();
        let mut i: usize = 0;
        proof {
            lemma_values_ends(self.items@);
        }
        while i < self.items.len()
            invariant
                i <= self.items.len(),
                r@ == values(self.items@.take(i as int)).to_set().difference(other@),
            decreases self.items.len() - i,
        {
            proof {
                lemma_values_step(self.items@, i as int);
            }
            if !other.contains(&self.items[i]) {
                r.insert(self.items[i].duplicate());
            } else {
                assert(r@ =~= values(self.items@.take(i + 1)).to_set().difference(other@));
            }
            i += 1;
        }
        proof {
            lemma_values_ends(self.items@);
        }
        r
    }

    /// A second set with the same elements.
    pub fn duplicate(&self) -> (r: Self)
        ensures
            r@ == self@,
    {
        let empty: IdSet<T> = IdSet::new();
        self.difference(&empty)
    }

    /// The elements, each once, in no particular order.
    pub fn as_slice(&self) -> (r: &[T])
        ensures
            values(r@).no_duplicates(),
            values(r@).to_set() == self@,
    {
        proof {
            use_type_invariant(self);
        }
        self.items.as_slice()
    }
}

} // verus!
