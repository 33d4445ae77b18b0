use crate::key::{same_bytes, TableKey};
use vstd::prelude::*;

verus! {

/// Holds of an entry whose key has encoding `id`.
pub open spec fn keyed<K: TableKey, V>(id: Seq<u8>) -> spec_fn((K, V)) -> bool {
    |e: (K, V)| e.0.key_id() == id
}

/// Holds of an entry whose key does not have encoding `id`.
pub open spec fn not_keyed<K: TableKey, V>(id: Seq<u8>) -> spec_fn((K, V)) -> bool {
    |e: (K, V)| e.0.key_id() != id
}

/// `b` is what copying the entry `a` may give: the same key, a clone of the value.
pub open spec fn copied_entry<K: TableKey, V: Clone>(a: (K, V), b: (K, V)) -> bool {
    b.0.key_id() == a.0.key_id() && cloned(a.1, b.1)
}

/// A filter that no element passes is empty.
pub proof fn lemma_filter_none<A>(s: Seq<A>, p: spec_fn(A) -> bool)
    requires
        forall|j: int| 0 <= j < s.len() ==> !p(#[trigger] s[j]),
    ensures
        s.filter(p).len() == 0,
    decreases s.len(),
{
    reveal(Seq::filter);
    if s.len() > 0 {
        lemma_filter_none(s.drop_last(), p);
    }
}

/// The first element that passes a filter heads the filtered sequence.
pub proof fn lemma_filter_first<A>(s: Seq<A>, p: spec_fn(A) -> bool, i: int)
    requires
        0 <= i < s.len(),
        p(s[i]),
        forall|j: int| 0 <= j < i ==> !p(#[trigger] s[j]),
    ensures
        s.filter(p).len() > 0,
        s.filter(p)[0] == s[i],
    decreases s.len(),
{
    reveal(Seq::filter);
    if i == s.len() - 1 {
        lemma_filter_none(s.drop_last(), p);
    } else {
        lemma_filter_first(s.drop_last(), p, i);
    }
}

/// A property of every element holds of every element that a filter keeps.
pub proof fn lemma_filter_keeps<A>(s: Seq<A>, p: spec_fn(A) -> bool, q: spec_fn(A) -> bool)
    requires
        forall|i: int| 0 <= i < s.len() ==> q(#[trigger] s[i]),
    ensures
        forall|j: int| 0 <= j < s.filter(p).len() ==> q(#[trigger] s.filter(p)[j]),
    decreases s.len(),
{
    reveal(Seq::filter);
    if s.len() > 0 {
        let d = s.drop_last();
        assert forall|i: int| 0 <= i < d.len() implies q(#[trigger] d[i]) by {
            assert(d[i] == s[i]);
        }
        lemma_filter_keeps(d, p, q);
        assert(q(s[s.len() - 1]));
        assert forall|j: int| 0 <= j < s.filter(p).len() implies q(#[trigger] s.filter(p)[j]) by {
            if j < d.filter(p).len() {
                assert(s.filter(p)[j] == d.filter(p)[j]);
            }
        }
    }
}

/// Filtering after pushing an element.
pub proof fn lemma_filter_push<A>(s: Seq<A>, x: A, p: spec_fn(A) -> bool)
    ensures
        s.push(x).filter(p) == (if p(x) { s.filter(p).push(x) } else { s.filter(p) }),
{
    reveal(Seq::filter);
    assert(s.push(x).drop_last() =~= s);
}

/// One chain of the table: the entries of one slot, in the order they came.
pub struct Bucket<K, V> {
    kv_list: Vec<(K, V)>,
}

impl<K: TableKey, V: Clone> View for Bucket<K, V> {
    type V = Seq<(K, V)>;

    closed spec fn view(&self) -> Seq<(K, V)> {
        self.kv_list@
    }
}

impl<K: TableKey, V: Clone> Bucket<K, V> {
    pub fn new() -> (r: Self)
        ensures
            r@ == Seq::<(K, V)>::empty(),
    {
        let kv_list: Vec<(K, V)> = Vec::new();
        Bucket { kv_list }
    }

    /// Appends an entry, whether or not its key is already present.
    pub fn add(&mut self, key: K, value: V)
        ensures
            final(self)@ == old(self)@.push((key, value)),
    {
        self.kv_list.push((key, value));
    }

    /// Puts an entry before all the others.
    pub fn add_front(&mut self, entry: (K, V))
        ensures
            final(self)@ == seq![entry] + old(self)@,
    {
        self.kv_list.insert(0, entry);
        proof {
            assert(final(self)@ =~= seq![entry] + old(self)@);
        }
    }

    /// Takes the last entry out of the chain.
    pub fn take_last(&mut self) -> (r: Option<(K, V)>)
        ensures
            old(self)@.len() == 0 ==> r is None && final(self)@ == old(self)@,
            old(self)@.len() > 0 ==> r == Some(old(self)@.last()) && final(self)@
                == old(self)@.drop_last(),
    {
        self.kv_list.pop()
    }

    pub fn len(&self) -> (r: usize)
        ensures
            r == self@.len(),
    {
        self.kv_list.len()
    }

    /// The value of the first entry with the key of `key`.
    pub fn get(&self, key: &K) -> (r: Option<&V>)
        ensures
            ({
                let found = self@.filter(keyed(key.key_id()));
                match r {
                    None => found.len() == 0,
                    Some(v) => found.len() > 0 && *v == found[0].1,
                }
            }),
    {
        let wanted = key.key_bytes();
        let mut i: usize = 0;
        while i < self.kv_list.len()
            invariant
                0 <= i <= self@.len(),
                wanted@ == key.key_id(),
                forall|j: int| 0 <= j < i ==> !keyed::<K, V>(key.key_id())(#[trigger] self@[j]),
            decreases self@.len() - i,
        {
            let entry = &self.kv_list[i];
            assert(self@[i as int] == *entry);
            assert(keyed::<K, V>(key.key_id())(*entry) == (entry.0.key_id() == key.key_id()));
            if same_bytes(entry.0.key_bytes(), wanted) {
                proof {
                    lemma_filter_first(self@, keyed::<K, V>(key.key_id()), i as int);
                }
                return Some(&entry.1);
            }
            i += 1;
        }
        proof {
            lemma_filter_none(self@, keyed::<K, V>(key.key_id()));
        }
        None
    }

    /// Drops every entry with the key of `key`, keeping the others in order.
    pub fn remove(&mut self, key: &K)
        ensures
            final(self)@ == old(self)@.filter(not_keyed(key.key_id())),
    {
        let ghost orig = self@;
        let wanted = key.key_bytes();
        let mut rest: Vec<(K, V)> = Vec::new();
        std::mem::swap(&mut rest, &mut self.kv_list);
        proof {
            assert(orig.skip(orig.len() as int) =~= Seq::<(K, V)>::empty());
            reveal(Seq::filter);
        }
        while rest.len() > 0
            invariant
                wanted@ == key.key_id(),
                rest@ == orig.take(rest@.len() as int),
                rest@.len() <= orig.len(),
                self@ == orig.skip(rest@.len() as int).filter(not_keyed::<K, V>(key.key_id())),
            decreases rest@.len(),
        {
            let ghost n = rest@.len() as int;
            let entry = rest.pop().unwrap();
            proof {
                assert(orig.skip(n - 1) =~= seq![entry] + orig.skip(n));
                orig.skip(n).lemma_filter_prepend(entry, not_keyed::<K, V>(key.key_id()));
                assert(rest@ =~= orig.take(n - 1));
            }
            assert(not_keyed::<K, V>(key.key_id())(entry) == (entry.0.key_id() != key.key_id()));
            if !same_bytes(entry.0.key_bytes(), wanted) {
                self.add_front(entry);
            } else {
                proof {
                    assert(Seq::<(K, V)>::empty() + self@ =~= self@);
                }
            }
        }
        proof {
            assert(orig.skip(0) =~= orig);
        }
    }

    /// A copy of every entry, in chain order.
    pub fn get_all_elements(&self) -> (r: Vec<(K, V)>)
        ensures
            r@.len() == self@.len(),
            forall|i: int| 0 <= i < r@.len() ==> copied_entry(self@[i], #[trigger] r@[i]),
    {
        let mut res: Vec<(K, V)> = Vec::new();
        let mut i: usize = 0;
        while i < self.kv_list.len()
            invariant
                0 <= i <= self@.len(),
                res@.len() == i,
                forall|j: int| 0 <= j < i ==> copied_entry(self@[j], #[trigger] res@[j]),
            decreases self@.len() - i,
        {
            let entry = &self.kv_list[i];
            res.push((entry.0.duplicate(), entry.1.clone()));
            i += 1;
        }
        res
    }
}

} // verus!
