//! The identifiers the index is keyed by, held as plain bytes.

use vstd::prelude::*;

verus! {

/// An identifier that is compared and copied by the value it stands for.
pub trait Ident: View + Sized {
    /// Whether both identifiers stand for the same value.
    fn same(&self, other: &Self) -> (r: bool)
        ensures
            r == (self@ == other@),
    ;

    /// A second identifier for the same value.
    fn duplicate(&self) -> (r: Self)
        ensures
            r@ == self@,
    ;
}

/// Whether two byte strings are equal.
pub fn bytes_same(a: &Vec<u8>, b: &Vec<u8>) -> (r: bool)
    ensures
        r == (a@ == b@),
{
    if a.len() != b.len() {
        return false;
    }
    let mut i: usize = 0;
    while i < a.len()
        invariant
            a.len() == b.len(),
            i <= a.len(),
            forall|j: int| 0 <= j < i ==> a@[j] == b@[j],
        decreases a.len() - i,
    {
        if a[i] != b[i] {
            return false;
        }
        i += 1;
    }
    assert(a@ =~= b@);
    true
}

/// A copy of a byte string.
pub fn bytes_duplicate(a: &Vec<u8>) -> (r: Vec<u8>)
    ensures
        r@ == a@,
{
    let mut r: Vec<u8> = Vec::new();
    let mut i: usize = 0;
    while i < a.len()
        invariant
            i <= a.len(),
            r@ == a@.take(i as int),
        decreases a.len() - i,
    {
        r.push(a[i]);
        i += 1;
    }
    r
}

/// The identity of an authority: the bytes of its public key.
#[derive(Clone, Debug, PartialEq, Eq, Hash)]
pub struct AuthorityId {
    key: Vec<u8>,
}

impl View for AuthorityId {
    type V = Seq<u8>;

    closed spec fn view(&self) -> Seq<u8> {
        self.key@
    }
}

impl AuthorityId {
    /// The authority with the given public key.
    pub fn new(key: Vec<u8>) -> (r: Self)
        ensures
            r@ == key@,
    {
        AuthorityId { key }
    }

    /// The bytes of the public key.
    pub fn as_bytes(&self) -> (r: &Vec<u8>)
        ensures
            r@ == self@,
    {
        &self.key
    }
}

impl Ident for AuthorityId {
    fn same(&self, other: &Self) -> (r: bool) {
        bytes_same(&self.key, &other.key)
    }

    fn duplicate(&self) -> (r: Self) {
        AuthorityId { key: bytes_duplicate(&self.key) }
    }
}

} // verus!
