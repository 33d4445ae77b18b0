use std::hash::DefaultHasher;
use vstd::prelude::*;
use vstd::std_specs::hash::DefaultHasherAdditionalSpecFns;
use vstd::string::StringSliceAdditionalSpecFns;

verus! {

/// What the table needs of a key: a byte encoding that identifies it and a
/// way to copy it.
///
/// Two keys are the same key exactly when their encodings agree; the slot
/// of a key is computed from its encoding alone.
pub trait TableKey: Sized {
    /// The encoding that identifies the key.
    spec fn key_id(&self) -> Seq<u8>;

    fn key_bytes(&self) -> (r: &[u8])
        ensures
            r@ == self.key_id(),
    ;

    fn duplicate(&self) -> (r: Self)
        ensures
            r.key_id() == self.key_id(),
    ;
}

impl<'a> TableKey for &'a str {
    open spec fn key_id(&self) -> Seq<u8> {
        (**self).spec_bytes()
    }

    fn key_bytes(&self) -> (r: &[u8]) {
        (**self).as_bytes()
    }

    fn duplicate(&self) -> (r: Self) {
        *self
    }
}

impl TableKey for String {
    open spec fn key_id(&self) -> Seq<u8> {
        vstd::utf8::encode_utf8(self@)
    }

    fn key_bytes(&self) -> (r: &[u8]) {
        self.as_str().as_bytes()
    }

    fn duplicate(&self) -> (r: Self) {
        self.clone()
    }
}

/// The 64-bit digest of a key encoding: the standard library's default
/// hasher, fed the encoding in a single write.
pub open spec fn hash_of(id: Seq<u8>) -> u64 {
    DefaultHasher::spec_finish(seq![id])
}

/// The slot that a key with encoding `id` occupies in a table of `cap` slots.
pub open spec fn slot_of(id: Seq<u8>, cap: nat) -> nat
    recommends
        cap > 0,
{
    (hash_of(id) as nat) % cap
}

/// Two key encodings compared byte by byte.
pub(crate) fn same_bytes(a: &[u8], b: &[u8]) -> (r: bool)
    ensures
        r == (a@ == b@),
{
    if a.len() != b.len() {
        return false;
    }
    let mut i: usize = 0;
    while i < a.len()
        invariant
            a@.len() == b@.len(),
            0 <= i <= a@.len(),
            forall|j: int| 0 <= j < i ==> a@[j] == b@[j],
        decreases a@.len() - i,
    {
        if a[i] != b[i] {
            return false;
        }
        i += 1;
    }
    assert(a@ =~= b@);
    true
}

} // verus!
