//! Database keys and values: owned byte strings.
use crate::common::order::{bytes_eq, bytes_lt, lemma_lex_asymmetric, lemma_lex_total, lex_lt, lex_split};
use core::cmp::Ordering;
use vstd::std_specs::cmp::PartialOrdSpec;
use vstd::prelude::*;

verus! {

/// A database key: an owned byte string, ordered byte-wise.
#[derive(Debug, PartialEq, Eq, Ord, Hash)]
pub struct Key(Vec<u8>);

impl View for Key {
    type V = Seq<u8>;

    closed spec fn view(&self) -> Seq<u8> {
        self.0@
    }
}

impl Key {
    /// Creates a new Key holding a copy of the given bytes.
    pub fn new(bytes: &[u8]) -> (r: Self)
        ensures
            r@ == bytes@,
    {
        Key(vstd::slice::slice_to_vec(bytes))
    }

    /// Returns a reference to the underlying bytes.
    pub fn as_slice(&self) -> (r: &[u8])
        ensures
            r@ == self@,
    {
        self.0.as_slice()
    }

    /// The number of bytes in the key.
    pub fn len(&self) -> (r: usize)
        ensures
            r == self@.len(),
    {
        self.0.len()
    }
}

impl Clone for Key {
    fn clone(&self) -> (r: Self)
        ensures
            r@ == self@,
    {
        let v = self.0.clone();
        assert(v@ =~= self.0@);
        Key(v)
    }
}

/// Keys compare as their bytes do, lexicographically.
impl PartialOrd for Key {
    fn partial_cmp(&self, other: &Key) -> (r: Option<Ordering>) {
        if bytes_lt(self.0.as_slice(), other.0.as_slice()) {
            Some(Ordering::Less)
        } else if bytes_eq(self.0.as_slice(), other.0.as_slice()) {
            Some(Ordering::Equal)
        } else {
            Some(Ordering::Greater)
        }
    }
}

impl vstd::std_specs::cmp::PartialOrdSpecImpl for Key {
    open spec fn obeys_partial_cmp_spec() -> bool {
        true
    }

    open spec fn partial_cmp_spec(&self, other: &Key) -> Option<Ordering> {
        if lex_lt(self@, other@) {
            Some(Ordering::Less)
        } else if self@ == other@ {
            Some(Ordering::Equal)
        } else {
            Some(Ordering::Greater)
        }
    }
}

/// Keys order byte-wise: `a` comes before `b` exactly where there is a
/// place at which they first part with `a` ending there while `b` goes on,
/// or with `a` holding the smaller byte there; they are equal exactly where
/// their bytes are; and `a` comes after `b` exactly where `b` comes before
/// `a`. The comparison is total, and `partial_cmp` follows it.
pub proof fn lemma_key_order(a: Key, b: Key)
    ensures
        a.partial_cmp_spec(&b) is Some,
        a.partial_cmp_spec(&b) == Some(Ordering::Less) <==> exists|k: int|
            0 <= k <= a@.len() && k <= b@.len() && (forall|j: int| 0 <= j < k ==> a@[j] == b@[j]) && ((k
                == a@.len() && k < b@.len()) || (k < a@.len() && k < b@.len() && a@[k] < b@[k])),
        a.partial_cmp_spec(&b) == Some(Ordering::Equal) <==> a@ == b@,
        a.partial_cmp_spec(&b) == Some(Ordering::Greater) <==> b.partial_cmp_spec(&a) == Some(
            Ordering::Less,
        ),
{
    lemma_lex_asymmetric(a@, b@);
    lemma_lex_asymmetric(a@, a@);
    if a@ != b@ {
        lemma_lex_total(a@, b@);
    }
    assert(lex_lt(a@, b@) <==> exists|k: int| lex_split(a@, b@, k));
    if exists|k: int|
        0 <= k <= a@.len() && k <= b@.len() && (forall|j: int| 0 <= j < k ==> a@[j] == b@[j]) && ((k
            == a@.len() && k < b@.len()) || (k < a@.len() && k < b@.len() && a@[k] < b@[k])) {
        let k = choose|k: int|
            0 <= k <= a@.len() && k <= b@.len() && (forall|j: int| 0 <= j < k ==> a@[j] == b@[j]) && ((k
                == a@.len() && k < b@.len()) || (k < a@.len() && k < b@.len() && a@[k] < b@[k]));
        assert(lex_split(a@, b@, k));
    }
}

impl core::ops::Deref for Key {
    type Target = [u8];

    fn deref(&self) -> (r: &[u8])
        ensures
            r@ == self@,
    {
        self.0.as_slice()
    }
}

impl From<Vec<u8>> for Key {
    fn from(v: Vec<u8>) -> (r: Self)
        ensures
            r@ == v@,
    {
        Key(v)
    }
}

impl vstd::std_specs::convert::FromSpecImpl<Vec<u8>> for Key {
    open spec fn obeys_from_spec() -> bool {
        true
    }

    closed spec fn from_spec(v: Vec<u8>) -> Key {
        Key(v)
    }
}

/// A database value: an owned byte string.
#[derive(Debug, PartialEq, Eq, Hash)]
pub struct Value(Vec<u8>);

impl View for Value {
    type V = Seq<u8>;

    closed spec fn view(&self) -> Seq<u8> {
        self.0@
    }
}

impl Value {
    /// Creates a new Value holding a copy of the given bytes.
    pub fn new(bytes: &[u8]) -> (r: Self)
        ensures
            r@ == bytes@,
    {
        Value(vstd::slice::slice_to_vec(bytes))
    }

    /// Returns a reference to the underlying bytes.
    pub fn as_slice(&self) -> (r: &[u8])
        ensures
            r@ == self@,
    {
        self.0.as_slice()
    }

    /// The number of bytes in the value.
    pub fn len(&self) -> (r: usize)
        ensures
            r == self@.len(),
    {
        self.0.len()
    }
}

impl Clone for Value {
    fn clone(&self) -> (r: Self)
        ensures
            r@ == self@,
    {
        let v = self.0.clone();
        assert(v@ =~= self.0@);
        Value(v)
    }
}

impl core::ops::Deref for Value {
    type Target = [u8];

    fn deref(&self) -> (r: &[u8])
        ensures
            r@ == self@,
    {
        self.0.as_slice()
    }
}

/// The bytes of an optional value.
pub open spec fn opt_value_view(v: Option<Value>) -> Option<Seq<u8>> {
    match v {
        Some(x) => Some(x@),
        None => None,
    }
}

/// Copies an optional value.
pub fn clone_opt_value(v: &Option<Value>) -> (r: Option<Value>)
    ensures
        opt_value_view(r) == opt_value_view(*v),
{
    match v {
        Some(x) => Some(x.clone()),
        None => None,
    }
}

} // verus!
