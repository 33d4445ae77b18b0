use crate::bucket::{copied_entry, keyed, lemma_filter_keeps, lemma_filter_none, lemma_filter_push, not_keyed, Bucket};
use crate::key::{slot_of, TableKey};
use std::hash::{DefaultHasher, Hasher};
use vstd::prelude::*;

verus! {

/// The chains laid end to end, in slot order.
pub open spec fn concat<A>(chains: Seq<Seq<A>>) -> Seq<A>
    decreases chains.len(),
{
    if chains.len() == 0 {
        Seq::empty()
    } else {
        concat(chains.drop_last()) + chains.last()
    }
}

/// Holds of an entry whose key falls in slot `b` of a table of `cap` slots.
pub open spec fn in_slot<K: TableKey, V>(b: int, cap: nat) -> spec_fn((K, V)) -> bool {
    |e: (K, V)| slot_of(e.0.key_id(), cap) == b
}

/// The chains of a table of `cap` slots that received `entries` in order.
pub open spec fn spread<K: TableKey, V>(entries: Seq<(K, V)>, cap: nat) -> Seq<Seq<(K, V)>> {
    Seq::new(cap, |b: int| entries.filter(in_slot(b, cap)))
}

/// Every entry of chain `b` has its key in slot `b`.
pub open spec fn slotted<K: TableKey, V>(chains: Seq<Seq<(K, V)>>, cap: nat) -> bool {
    forall|b: int, j: int|
        0 <= b < chains.len() && 0 <= j < chains[b].len() ==> slot_of(
            #[trigger] chains[b][j].0.key_id(),
            cap,
        ) == b
}

/// Whether a table holding `len` entries in `cap` slots is loaded past three quarters.
pub open spec fn over_loaded(len: nat, cap: nat) -> bool {
    4 * len > 3 * cap
}

/// The chains that a sequence of buckets holds.
spec fn chain_views<K: TableKey, V: Clone>(bs: Seq<Bucket<K, V>>) -> Seq<Seq<(K, V)>> {
    bs.map_values(|b: Bucket<K, V>| b@)
}

proof fn lemma_concat_update_len<A>(cs: Seq<Seq<A>>, i: int, x: Seq<A>)
    requires
        0 <= i < cs.len(),
    ensures
        concat(cs.update(i, x)).len() == concat(cs).len() - cs[i].len() + x.len(),
    decreases cs.len(),
{
    let n = cs.len() - 1;
    if i == n {
        assert(cs.update(i, x).drop_last() =~= cs.drop_last());
    } else {
        assert(cs.update(i, x).drop_last() =~= cs.drop_last().update(i, x));
        lemma_concat_update_len(cs.drop_last(), i, x);
    }
}

proof fn lemma_concat_empty<A>(cs: Seq<Seq<A>>)
    requires
        forall|i: int| 0 <= i < cs.len() ==> (#[trigger] cs[i]).len() == 0,
    ensures
        concat(cs).len() == 0,
    decreases cs.len(),
{
    if cs.len() > 0 {
        lemma_concat_empty(cs.drop_last());
    }
}

proof fn lemma_concat_take<A>(cs: Seq<Seq<A>>, i: int)
    requires
        0 <= i < cs.len(),
    ensures
        concat(cs.take(i + 1)) == concat(cs.take(i)) + cs[i],
{
    assert(cs.take(i + 1).drop_last() =~= cs.take(i));
}

/// In slotted chains, the entries of a key all lie in the chain of its slot.
proof fn lemma_concat_filter<K: TableKey, V>(cs: Seq<Seq<(K, V)>>, cap: nat, id: Seq<u8>)
    requires
        cap > 0,
        slotted(cs, cap),
    ensures
        concat(cs).filter(keyed(id)) == (if slot_of(id, cap) < cs.len() {
            cs[slot_of(id, cap) as int].filter(keyed(id))
        } else {
            Seq::empty()
        }),
    decreases cs.len(),
{
    let p = keyed::<K, V>(id);
    if cs.len() == 0 {
        reveal(Seq::filter);
    } else {
        let d = cs.drop_last();
        let n = cs.len() - 1;
        assert forall|b: int, j: int| 0 <= b < d.len() && 0 <= j < d[b].len() implies slot_of(
            #[trigger] d[b][j].0.key_id(),
            cap,
        ) == b by {
            assert(d[b] == cs[b]);
        }
        lemma_concat_filter(d, cap, id);
        Seq::filter_distributes_over_add(concat(d), cs.last(), p);
        if slot_of(id, cap) == n {
            assert(concat(cs).filter(p) =~= cs[n].filter(p));
        } else {
            assert forall|j: int| 0 <= j < cs.last().len() implies !p(#[trigger] cs.last()[j]) by {
                assert(slot_of(cs[n][j].0.key_id(), cap) == n);
            }
            lemma_filter_none(cs.last(), p);
            assert(concat(cs).filter(p) =~= concat(d).filter(p));
        }
    }
}

proof fn lemma_spread_push<K: TableKey, V>(entries: Seq<(K, V)>, x: (K, V), cap: nat)
    requires
        cap > 0,
    ensures
        ({
            let s = slot_of(x.0.key_id(), cap) as int;
            spread(entries.push(x), cap) == spread(entries, cap).update(
                s,
                spread(entries, cap)[s].push(x),
            )
        }),
{
    let s = slot_of(x.0.key_id(), cap) as int;
    assert forall|b: int| 0 <= b < cap implies #[trigger] spread(entries.push(x), cap)[b]
        == spread(entries, cap).update(s, spread(entries, cap)[s].push(x))[b] by {
        lemma_filter_push(entries, x, in_slot(b, cap));
    }
    assert(spread(entries.push(x), cap) =~= spread(entries, cap).update(
        s,
        spread(entries, cap)[s].push(x),
    ));
}

proof fn lemma_spread_prepend<K: TableKey, V>(x: (K, V), entries: Seq<(K, V)>, cap: nat)
    requires
        cap > 0,
    ensures
        ({
            let s = slot_of(x.0.key_id(), cap) as int;
            spread(seq![x] + entries, cap) == spread(entries, cap).update(
                s,
                seq![x] + spread(entries, cap)[s],
            )
        }),
{
    let s = slot_of(x.0.key_id(), cap) as int;
    assert forall|b: int| 0 <= b < cap implies #[trigger] spread(seq![x] + entries, cap)[b]
        == spread(entries, cap).update(s, seq![x] + spread(entries, cap)[s])[b] by {
        entries.lemma_filter_prepend(x, in_slot(b, cap));
        assert(Seq::<(K, V)>::empty() + entries.filter(in_slot(b, cap)) =~= entries.filter(
            in_slot(b, cap),
        ));
    }
    assert(spread(seq![x] + entries, cap) =~= spread(entries, cap).update(
        s,
        seq![x] + spread(entries, cap)[s],
    ));
}

proof fn lemma_spread_slotted<K: TableKey, V>(entries: Seq<(K, V)>, cap: nat)
    ensures
        slotted(spread(entries, cap), cap),
{
    assert forall|b: int, j: int|
        0 <= b < spread(entries, cap).len() && 0 <= j < spread(entries, cap)[b].len() implies slot_of(
        #[trigger] spread(entries, cap)[b][j].0.key_id(),
        cap,
    ) == b by {
        entries.lemma_filter_pred(in_slot(b, cap), j);
    }
}

/// Spreading entries over the slots keeps the entries of each key together and in order.
proof fn lemma_spread_keyed<K: TableKey, V>(entries: Seq<(K, V)>, cap: nat, id: Seq<u8>)
    requires
        cap > 0,
    ensures
        spread(entries, cap)[slot_of(id, cap) as int].filter(keyed(id)) == entries.filter(keyed(id)),
    decreases entries.len(),
{
    let s = slot_of(id, cap) as int;
    let p = keyed::<K, V>(id);
    if entries.len() == 0 {
        reveal(Seq::filter);
    } else {
        let rest = entries.drop_last();
        let x = entries.last();
        assert(rest.push(x) =~= entries);
        lemma_spread_keyed(rest, cap, id);
        lemma_spread_push(rest, x, cap);
        lemma_filter_push(rest, x, p);
        lemma_filter_push(spread(rest, cap)[s], x, p);
    }
}

proof fn lemma_filter_split<K: TableKey, V>(s: Seq<(K, V)>, id: Seq<u8>)
    ensures
        s.filter(keyed(id)).len() + s.filter(not_keyed(id)).len() == s.len(),
    decreases s.len(),
{
    reveal(Seq::filter);
    if s.len() > 0 {
        lemma_filter_split(s.drop_last(), id);
    }
}

proof fn lemma_filter_filter<K: TableKey, V>(s: Seq<(K, V)>, gone: Seq<u8>, id: Seq<u8>)
    ensures
        s.filter(not_keyed(gone)).filter(keyed(id)) == (if id == gone {
            Seq::empty()
        } else {
            s.filter(keyed(id))
        }),
    decreases s.len(),
{
    if s.len() > 0 {
        let rest = s.drop_last();
        let x = s.last();
        assert(rest.push(x) =~= s);
        lemma_filter_filter(rest, gone, id);
        lemma_filter_push(rest, x, not_keyed(gone));
        lemma_filter_push(rest, x, keyed(id));
        lemma_filter_push(rest.filter(not_keyed(gone)), x, keyed(id));
    } else {
        reveal(Seq::filter);
    }
}

/// A hash table that keeps its entries in chains, one per slot.
///
/// A key may be present more than once: insertion always appends, and a
/// lookup sees the earliest entry of the key that is still present.
pub struct SimpleHashMap<K, V> {
    buckets: Vec<Bucket<K, V>>,
    cap: usize,
    len: usize,
}

impl<K: TableKey, V: Clone> SimpleHashMap<K, V> {
    /// The chains, slot by slot.
    pub closed spec fn chains(&self) -> Seq<Seq<(K, V)>> {
        chain_views(self.buckets@)
    }

    /// The number of slots.
    pub closed spec fn spec_capacity(&self) -> nat {
        self.cap as nat
    }

    /// The number of entries held.
    pub closed spec fn spec_len(&self) -> nat {
        self.len as nat
    }

    /// The table is well formed: one chain per slot, each entry in the chain
    /// of its key's slot, and the count equal to the number of entries.
    pub closed spec fn wf(&self) -> bool {
        &&& self.cap > 0
        &&& self.buckets@.len() == self.cap
        &&& slotted(self.chains(), self.cap as nat)
        &&& self.len == concat(self.chains()).len()
    }

    /// Every entry, slot by slot and in chain order.
    pub open spec fn entries(&self) -> Seq<(K, V)> {
        concat(self.chains())
    }

    /// The entries whose key has encoding `id`, in the order they were inserted.
    pub open spec fn entries_of(&self, id: Seq<u8>) -> Seq<(K, V)> {
        self.entries().filter(keyed(id))
    }

    /// The value that a lookup of a key with encoding `id` finds.
    pub open spec fn lookup(&self, id: Seq<u8>) -> Option<V> {
        if self.entries_of(id).len() > 0 {
            Some(self.entries_of(id)[0].1)
        } else {
            None
        }
    }

    /// The pairs of key encoding and value that the table holds.
    pub open spec fn pairs(&self) -> Set<(Seq<u8>, V)> {
        Set::new(
            |pair: (Seq<u8>, V)|
                exists|i: int|
                    0 <= i < self.entries_of(pair.0).len() && #[trigger] self.entries_of(
                        pair.0,
                    )[i].1 == pair.1,
        )
    }

    /// `after` is this table with `(key, value)` inserted: first doubled and
    /// rehashed if it was loaded past three quarters, then the entry appended
    /// to the chain of its slot.
    pub open spec fn inserted(self, after: Self, key: K, value: V) -> bool {
        let cap = self.spec_capacity();
        let s = slot_of(key.key_id(), cap) as int;
        &&& after.spec_len() == self.spec_len() + 1
        &&& if over_loaded(self.spec_len(), cap) {
            &&& after.spec_capacity() == 2 * cap
            &&& after.chains() == spread(self.entries().push((key, value)), 2 * cap)
        } else {
            &&& after.spec_capacity() == cap
            &&& after.chains() == self.chains().update(s, self.chains()[s].push((key, value)))
        }
    }

    /// `after` is this table with every entry of the key of `key` removed
    /// from the chain of its slot.
    pub open spec fn deleted(self, after: Self, key: K) -> bool {
        let cap = self.spec_capacity();
        let s = slot_of(key.key_id(), cap) as int;
        &&& after.spec_capacity() == cap
        &&& after.chains() == self.chains().update(
            s,
            self.chains()[s].filter(not_keyed(key.key_id())),
        )
        &&& after.spec_len() == self.spec_len() - self.entries_of(key.key_id()).len()
    }

    /// What insertion does to the entries of each key.
    proof fn lemma_inserted_entries_of(self, after: Self, key: K, value: V, id: Seq<u8>)
        requires
            self.wf(),
            after.wf(),
            self.inserted(after, key, value),
        ensures
            after.entries_of(id) == (if id == key.key_id() {
                self.entries_of(id).push((key, value))
            } else {
                self.entries_of(id)
            }),
    {
        let cap = self.spec_capacity();
        let p = keyed::<K, V>(id);
        let x = (key, value);
        lemma_concat_filter(after.chains(), after.spec_capacity(), id);
        lemma_concat_filter(self.chains(), cap, id);
        lemma_filter_push(self.entries(), x, p);
        if over_loaded(self.spec_len(), cap) {
            lemma_spread_keyed(self.entries().push(x), 2 * cap, id);
        } else {
            let s = slot_of(key.key_id(), cap) as int;
            lemma_filter_push(self.chains()[s], x, p);
        }
    }

    /// What deletion does to the entries of each key.
    proof fn lemma_deleted_entries_of(self, after: Self, key: K, id: Seq<u8>)
        requires
            self.wf(),
            after.wf(),
            self.deleted(after, key),
        ensures
            after.entries_of(id) == (if id == key.key_id() {
                Seq::empty()
            } else {
                self.entries_of(id)
            }),
    {
        let cap = self.spec_capacity();
        let s = slot_of(key.key_id(), cap) as int;
        lemma_concat_filter(after.chains(), cap, id);
        lemma_concat_filter(self.chains(), cap, id);
        lemma_filter_filter(self.chains()[s], key.key_id(), id);
    }

    /// The slot of `key` in a table of `length` slots.
    fn position(key: &K, length: usize) -> (r: usize)
        requires
            length > 0,
        ensures
            r as nat == slot_of(key.key_id(), length as nat),
            r < length,
    {
        let mut hasher = DefaultHasher::new();
        hasher.write(key.key_bytes());
        let h = hasher.finish();
        (h % (length as u64)) as usize
    }

    /// A table of `cap` empty slots.
    pub fn new(cap: usize) -> (r: Self)
        requires
            cap >= 1,
        ensures
            r.wf(),
            r.spec_capacity() == cap,
            r.spec_len() == 0,
            r.entries() == Seq::<(K, V)>::empty(),
    {
        let buckets = Self::empty_buckets(cap);
        let r = SimpleHashMap { buckets, cap, len: 0 };
        proof {
            lemma_concat_empty(r.chains());
        }
        r
    }

    fn empty_buckets(n: usize) -> (r: Vec<Bucket<K, V>>)
        ensures
            r@.len() == n,
            forall|i: int| 0 <= i < n ==> (#[trigger] chain_views(r@)[i]).len() == 0,
            slotted(chain_views(r@), n as nat),
            chain_views(r@) == spread(Seq::<(K, V)>::empty(), n as nat),
    {
        let mut buckets: Vec<Bucket<K, V>> = Vec::with_capacity(n);
        let mut i: usize = 0;
        while i < n
            invariant
                0 <= i <= n,
                buckets@.len() == i,
                forall|j: int| 0 <= j < i ==> (#[trigger] buckets@[j])@ == Seq::<(K, V)>::empty(),
            decreases n - i,
        {
            buckets.push(Bucket::new());
            i += 1;
        }
        proof {
            reveal(Seq::filter);
            assert(chain_views(buckets@) =~= spread(Seq::<(K, V)>::empty(), n as nat));
        }
        buckets
    }

    /// The number of entries held.
    pub fn len(&self) -> (r: usize)
        ensures
            r == self.spec_len(),
    {
        self.len
    }

    /// The number of slots.
    pub fn capacity(&self) -> (r: usize)
        ensures
            r == self.spec_capacity(),
    {
        self.cap
    }

    /// Looks `key` up: the earliest entry of the key that is still present,
    /// as `key` itself and a clone of that entry's value.
    pub fn get(&self, key: K) -> (r: Option<(K, V)>)
        requires
            self.wf(),
        ensures
            match r {
                None => self.lookup(key.key_id()) is None,
                Some(found) => {
                    &&& found.0 == key
                    &&& self.lookup(key.key_id()) is Some
                    &&& cloned(self.lookup(key.key_id())->0, found.1)
                },
            },
    {
        let pos = Self::position(&key, self.buckets.len());
        proof {
            lemma_concat_filter(self.chains(), self.spec_capacity(), key.key_id());
        }
        match self.buckets[pos].get(&key) {
            Some(v) => Some((key, v.clone())),
            None => None,
        }
    }

    /// A copy of every entry, slot by slot and in chain order.
    pub fn all_key_values(&self) -> (r: Vec<(K, V)>)
        requires
            self.wf(),
        ensures
            r@.len() == self.entries().len(),
            forall|i: int|
                0 <= i < r@.len() ==> copied_entry(self.entries()[i], #[trigger] r@[i]),
    {
        let ghost cs = self.chains();
        let mut res: Vec<(K, V)> = Vec::new();
        let mut i: usize = 0;
        while i < self.buckets.len()
            invariant
                0 <= i <= cs.len(),
                cs == self.chains(),
                cs.len() == self.buckets@.len(),
                res@.len() == concat(cs.take(i as int)).len(),
                forall|j: int|
                    0 <= j < res@.len() ==> copied_entry(
                        concat(cs.take(i as int))[j],
                        #[trigger] res@[j],
                    ),
            decreases cs.len() - i,
        {
            let mut part = self.buckets[i].get_all_elements();
            proof {
                lemma_concat_take(cs, i as int);
                assert(cs[i as int] == self.buckets@[i as int]@);
            }
            let ghost before = res@;
            let ghost added = part@;
            res.append(&mut part);
            proof {
                let done = concat(cs.take(i as int + 1));
                assert forall|j: int| 0 <= j < res@.len() implies copied_entry(
                    done[j],
                    #[trigger] res@[j],
                ) by {
                    if j >= before.len() {
                        assert(res@[j] == added[j - before.len()]);
                    } else {
                        assert(res@[j] == before[j]);
                    }
                }
            }
            i += 1;
        }
        proof {
            assert(cs.take(cs.len() as int) =~= cs);
        }
        res
    }

    /// Doubles the number of slots and moves every entry to its slot under
    /// the new count, keeping the order of the entries of each chain.
    fn resize(&mut self)
        requires
            old(self).wf(),
            2 * old(self).spec_capacity() <= usize::MAX,
        ensures
            final(self).wf(),
            final(self).spec_capacity() == 2 * old(self).spec_capacity(),
            final(self).spec_len() == old(self).spec_len(),
            final(self).chains() == spread(old(self).entries(), 2 * old(self).spec_capacity()),
    {
        let ghost all = self.entries();
        let new_cap = self.cap * 2;
        let ghost cap = new_cap as nat;
        let mut grown = Self::empty_buckets(new_cap);
        let mut pending: Vec<Bucket<K, V>> = Vec::new();
        std::mem::swap(&mut pending, &mut self.buckets);
        let ghost done: Seq<(K, V)> = Seq::empty();
        proof {
            lemma_concat_empty(chain_views(grown@));
            assert(concat(chain_views(pending@)) + done =~= all);
        }
        while pending.len() > 0
            invariant
                cap == new_cap,
                new_cap > 0,
                grown@.len() == new_cap,
                chain_views(grown@) == spread(done, cap),
                concat(chain_views(grown@)).len() == done.len(),
                concat(chain_views(pending@)) + done == all,
            decreases pending@.len(),
        {
            let ghost ps = pending@;
            let mut bucket = pending.pop().unwrap();
            proof {
                assert(chain_views(pending@) =~= chain_views(ps).drop_last());
                assert(concat(chain_views(pending@)) + bucket@ + done =~= all);
            }
            while bucket.len() > 0
                invariant
                    cap == new_cap,
                    new_cap > 0,
                    grown@.len() == new_cap,
                    chain_views(grown@) == spread(done, cap),
                    concat(chain_views(grown@)).len() == done.len(),
                    concat(chain_views(pending@)) + bucket@ + done == all,
                decreases bucket@.len(),
            {
                let ghost rest = bucket@;
                let entry = bucket.take_last().unwrap();
                let pos = Self::position(&entry.0, new_cap);
                let ghost gs = grown@;
                proof {
                    lemma_spread_prepend(entry, done, cap);
                    lemma_concat_update_len(chain_views(gs), pos as int, seq![entry] + gs[pos as int]@);
                    assert(rest =~= bucket@.push(entry));
                    assert(concat(chain_views(pending@)) + bucket@ + (seq![entry] + done) =~= all);
                }
                grown[pos].add_front(entry);
                proof {
                    assert(chain_views(grown@) =~= chain_views(gs).update(
                        pos as int,
                        seq![entry] + gs[pos as int]@,
                    ));
                    done = seq![entry] + done;
                }
            }
            proof {
                assert(concat(chain_views(pending@)) + bucket@ + done =~= concat(chain_views(pending@)) + done);
            }
        }
        proof {
            assert(concat(chain_views(pending@)) + done =~= done);
            lemma_spread_slotted(done, cap);
        }
        self.buckets = grown;
        self.cap = new_cap;
    }

    /// Appends `(key, value)` to the chain of its slot, after doubling the
    /// table if it was loaded past three quarters, and returns the new count.
    ///
    /// A key already present is not replaced: the new entry comes after it.
    pub fn insert(&mut self, key: K, value: V) -> (r: usize)
        requires
            old(self).wf(),
            old(self).spec_len() < usize::MAX,
            over_loaded(old(self).spec_len(), old(self).spec_capacity()) ==> 2
                * old(self).spec_capacity() <= usize::MAX,
        ensures
            final(self).wf(),
            old(self).inserted(*final(self), key, value),
            r == final(self).spec_len(),
            forall|id: Seq<u8>|
                #[trigger] final(self).entries_of(id) == if id == key.key_id() {
                    old(self).entries_of(id).push((key, value))
                } else {
                    old(self).entries_of(id)
                },
    {
        if (self.len as u128) * 4 > (self.cap as u128) * 3 {
            self.resize();
        }
        let ghost mid = *self;
        let pos = Self::position(&key, self.buckets.len());
        let ghost x = (key, value);
        proof {
            lemma_concat_update_len(mid.chains(), pos as int, mid.chains()[pos as int].push(x));
        }
        self.buckets[pos].add(key, value);
        self.len = self.len + 1;
        proof {
            let cs = mid.chains().update(pos as int, mid.chains()[pos as int].push(x));
            assert(self.chains() =~= cs);
            if over_loaded(old(self).spec_len(), old(self).spec_capacity()) {
                lemma_spread_push(old(self).entries(), x, self.spec_capacity());
            }
            assert forall|id: Seq<u8>|
                #[trigger] self.entries_of(id) == if id == key.key_id() {
                    old(self).entries_of(id).push((key, value))
                } else {
                    old(self).entries_of(id)
                } by {
                old(self).lemma_inserted_entries_of(*self, key, value, id);
            }
        }
        self.len
    }

    /// Removes every entry of the key of `key` and returns the new count.
    ///
    /// The count drops by the number of entries removed: not at all when the
    /// key was absent, by more than one when it was present several times.
    pub fn delete(&mut self, key: K) -> (r: usize)
        requires
            old(self).wf(),
        ensures
            final(self).wf(),
            old(self).deleted(*final(self), key),
            r == final(self).spec_len(),
            forall|id: Seq<u8>|
                #[trigger] final(self).entries_of(id) == if id == key.key_id() {
                    Seq::<(K, V)>::empty()
                } else {
                    old(self).entries_of(id)
                },
    {
        let pos = Self::position(&key, self.buckets.len());
        let ghost cs = self.chains();
        let ghost id = key.key_id();
        let ghost kept = cs[pos as int].filter(not_keyed(id));
        let before = self.buckets[pos].len();
        self.buckets[pos].remove(&key);
        let after = self.buckets[pos].len();
        proof {
            assert(self.chains() =~= cs.update(pos as int, kept));
            lemma_concat_update_len(cs, pos as int, kept);
            lemma_concat_update_len(cs, pos as int, Seq::empty());
            lemma_filter_split(cs[pos as int], id);
            lemma_concat_filter(cs, old(self).spec_capacity(), id);
            assert forall|b: int, j: int|
                0 <= b < self.chains().len() && 0 <= j < self.chains()[b].len() implies slot_of(
                #[trigger] self.chains()[b][j].0.key_id(),
                self.cap as nat,
            ) == b by {
                if b == pos {
                    lemma_filter_keeps(cs[b], not_keyed(id), in_slot(b, self.cap as nat));
                }
            }
        }
        self.len = self.len - (before - after);
        proof {
            assert forall|i: Seq<u8>|
                #[trigger] self.entries_of(i) == if i == id {
                    Seq::<(K, V)>::empty()
                } else {
                    old(self).entries_of(i)
                } by {
                old(self).lemma_deleted_entries_of(*self, key, i);
            }
        }
        self.len
    }

    /// Looking a key up right after inserting it finds the inserted value
    /// when the key was absent, and the earlier value when it was present.
    pub proof fn lemma_insert_then_get(self, after: Self, key: K, value: V)
        requires
            self.wf(),
            after.wf(),
            self.inserted(after, key, value),
        ensures
            self.lookup(key.key_id()) is None ==> after.lookup(key.key_id()) == Some(value),
            self.lookup(key.key_id()) is Some ==> after.lookup(key.key_id()) == self.lookup(
                key.key_id(),
            ),
    {
        self.lemma_inserted_entries_of(after, key, value, key.key_id());
    }

    /// After inserting a key and then deleting it, a lookup of it finds nothing.
    pub proof fn lemma_insert_delete_then_get(self, mid: Self, after: Self, key: K, value: V)
        requires
            self.wf(),
            mid.wf(),
            after.wf(),
            self.inserted(mid, key, value),
            mid.deleted(after, key),
        ensures
            after.lookup(key.key_id()) is None,
    {
        mid.lemma_deleted_entries_of(after, key, key.key_id());
    }

    /// After `n` insertions into an empty table, it counts `n` entries and
    /// holds `n` entries.
    pub proof fn lemma_count_after_inserts(states: Seq<Self>, keys: Seq<K>, values: Seq<V>)
        requires
            states.len() == keys.len() + 1,
            values.len() == keys.len(),
            forall|i: int| 0 <= i < states.len() ==> (#[trigger] states[i]).wf(),
            states[0].spec_len() == 0,
            forall|i: int|
                0 <= i < keys.len() ==> (#[trigger] states[i]).inserted(
                    states[i + 1],
                    keys[i],
                    values[i],
                ),
        ensures
            states.last().spec_len() == keys.len(),
            states.last().entries().len() == keys.len(),
        decreases keys.len(),
    {
        let n = keys.len() as int;
        if n > 0 {
            let prefix = states.drop_last();
            assert forall|i: int| 0 <= i < n - 1 implies (#[trigger] prefix[i]).inserted(
                prefix[i + 1],
                keys.drop_last()[i],
                values.drop_last()[i],
            ) by {
                assert(states[i].inserted(states[i + 1], keys[i], values[i]));
            }
            assert(forall|i: int| 0 <= i < prefix.len() ==> prefix[i] == states[i]);
            Self::lemma_count_after_inserts(prefix, keys.drop_last(), values.drop_last());
            assert(states[n - 1].inserted(states[n], keys[n - 1], values[n - 1]));
        }
        assert(states.last().wf());
    }

    /// Inserting a key, and the doubling that may come with it, leaves the
    /// entries of every other key as they were.
    pub proof fn lemma_insert_keeps_other_keys(
        self,
        after: Self,
        key: K,
        value: V,
        id: Seq<u8>,
    )
        requires
            self.wf(),
            after.wf(),
            self.inserted(after, key, value),
            id != key.key_id(),
        ensures
            after.entries_of(id) == self.entries_of(id),
            after.lookup(id) == self.lookup(id),
    {
        self.lemma_inserted_entries_of(after, key, value, id);
    }

    /// Inserting adds exactly the inserted pair to the pairs held.
    pub proof fn lemma_pairs_after_insert(self, after: Self, key: K, value: V)
        requires
            self.wf(),
            after.wf(),
            self.inserted(after, key, value),
        ensures
            after.pairs() == self.pairs().insert((key.key_id(), value)),
    {
        assert forall|pair: (Seq<u8>, V)|
            after.pairs().contains(pair) == self.pairs().insert((key.key_id(), value)).contains(
                pair,
            ) by {
            self.lemma_inserted_entries_of(after, key, value, pair.0);
            let old_es = self.entries_of(pair.0);
            let new_es = after.entries_of(pair.0);
            if pair.0 == key.key_id() {
                if pair.1 == value {
                    assert(new_es[old_es.len() as int].1 == pair.1);
                }
                if self.pairs().contains(pair) {
                    let i = choose|i: int| 0 <= i < old_es.len() && #[trigger] old_es[i].1 == pair.1;
                    assert(new_es[i] == old_es[i]);
                }
                if after.pairs().contains(pair) {
                    let i = choose|i: int| 0 <= i < new_es.len() && #[trigger] new_es[i].1 == pair.1;
                    if i < old_es.len() {
                        assert(new_es[i] == old_es[i]);
                    }
                }
            }
        }
        assert(after.pairs() =~= self.pairs().insert((key.key_id(), value)));
    }

    /// Deleting a key removes exactly the pairs of that key.
    pub proof fn lemma_pairs_after_delete(self, after: Self, key: K)
        requires
            self.wf(),
            after.wf(),
            self.deleted(after, key),
        ensures
            after.pairs() == self.pairs().filter(|pair: (Seq<u8>, V)| pair.0 != key.key_id()),
    {
        assert forall|pair: (Seq<u8>, V)|
            after.pairs().contains(pair) == self.pairs().filter(
                |pair: (Seq<u8>, V)| pair.0 != key.key_id(),
            ).contains(pair) by {
            self.lemma_deleted_entries_of(after, key, pair.0);
        }
        assert(after.pairs() =~= self.pairs().filter(
            |pair: (Seq<u8>, V)| pair.0 != key.key_id(),
        ));
    }
}

} // verus!
