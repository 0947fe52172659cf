//! A map from string keys to values, kept as a vector of entries in strictly
//! ascending key order. The memtable and the sparse index are both such maps.
use vstd::prelude::*;
use vstd::utf8::encode_utf8;
use crate::bytes::{
    compare_bytes, lemma_lex_asymmetric, lemma_lex_irreflexive, lemma_lex_total,
    lemma_lex_transitive, lex_le, lex_lt, KeyOrder,
};

verus! {

/// Each key comes strictly before the next: sorted, and nothing twice.
pub open spec fn ascending(keys: Seq<Seq<u8>>) -> bool {
    forall|i: int, j: int| 0 <= i < j < keys.len() ==> lex_lt(#[trigger] keys[i], #[trigger] keys[j])
}

/// Whether `key` is one of `keys`.
pub open spec fn has_key(keys: Seq<Seq<u8>>, key: Seq<u8>) -> bool {
    exists|i: int| 0 <= i < keys.len() && #[trigger] keys[i] == key
}

/// Where `key` stands in `keys`, if it is one of them.
pub open spec fn position_of(keys: Seq<Seq<u8>>, key: Seq<u8>) -> int {
    choose|i: int| 0 <= i < keys.len() && #[trigger] keys[i] == key
}

/// In an ascending sequence a key stands at one place only.
pub proof fn lemma_position_unique(keys: Seq<Seq<u8>>, i: int, j: int)
    requires
        ascending(keys),
        0 <= i < keys.len(),
        0 <= j < keys.len(),
        keys[i] == keys[j],
    ensures
        i == j,
{
    lemma_lex_irreflexive(keys[i]);
}

/// In an ascending sequence, the place of the key that stands at `i` is `i`.
pub proof fn lemma_position_of(keys: Seq<Seq<u8>>, i: int)
    requires
        ascending(keys),
        0 <= i < keys.len(),
    ensures
        has_key(keys, keys[i]),
        position_of(keys, keys[i]) == i,
{
    lemma_position_unique(keys, i, position_of(keys, keys[i]));
}

/// In an ascending sequence the order of two places is the order of their keys.
pub proof fn lemma_ascending_order(keys: Seq<Seq<u8>>, i: int, j: int)
    requires
        ascending(keys),
        0 <= i < keys.len(),
        0 <= j < keys.len(),
    ensures
        i < j <==> lex_lt(keys[i], keys[j]),
        i == j <==> keys[i] == keys[j],
{
    lemma_lex_irreflexive(keys[i]);
    if j < i {
        lemma_lex_asymmetric(keys[j], keys[i]);
    }
    if i < j {
        lemma_lex_asymmetric(keys[i], keys[j]);
    }
}

/// One key with what it maps to.
#[derive(Debug)]
pub struct Entry<V> {
    pub key: String,
    pub value: V,
}

/// A map from string keys to values in ascending key order.
#[derive(Debug)]
pub struct OrderedMap<V> {
    entries: Vec<Entry<V>>,
}

impl<V> OrderedMap<V> {
    /// The keys, as UTF-8 bytes, in the order in which they are kept.
    pub closed spec fn keys(&self) -> Seq<Seq<u8>> {
        Seq::new(self.entries@.len(), |i: int| encode_utf8(self.entries@[i].key@))
    }

    /// The values, each at the place of its key.
    pub closed spec fn values(&self) -> Seq<V> {
        Seq::new(self.entries@.len(), |i: int| self.entries@[i].value)
    }

    /// The map's invariant: the keys ascend strictly.
    pub open spec fn wf(&self) -> bool {
        &&& ascending(self.keys())
        &&& self.keys().len() == self.values().len()
    }

    /// The value under `key`, if the map has the key.
    pub open spec fn lookup(&self, key: Seq<u8>) -> Option<V> {
        if has_key(self.keys(), key) {
            Some(self.values()[position_of(self.keys(), key)])
        } else {
            None
        }
    }

    /// An empty map.
    pub fn new() -> (m: Self)
        ensures
            m.wf(),
            m.keys() == Seq::<Seq<u8>>::empty(),
            m.values() == Seq::<V>::empty(),
    {
        let m = OrderedMap { entries: Vec::new() };
        assert(m.keys() =~= Seq::<Seq<u8>>::empty());
        assert(m.values() =~= Seq::<V>::empty());
        m
    }

    /// Number of keys.
    pub fn len(&self) -> (n: usize)
        ensures
            n == self.keys().len(),
            n == self.values().len(),
    {
        self.entries.len()
    }

    /// Whether the map has no key.
    pub fn is_empty(&self) -> (b: bool)
        ensures
            b == (self.keys().len() == 0),
    {
        self.entries.len() == 0
    }

    /// The key at place `i`.
    pub fn key_at(&self, i: usize) -> (k: &str)
        requires
            i < self.keys().len(),
        ensures
            encode_utf8(k@) == self.keys()[i as int],
    {
        self.entries[i].key.as_str()
    }

    /// The value at place `i`.
    pub fn value_at(&self, i: usize) -> (v: &V)
        requires
            i < self.keys().len(),
        ensures
            *v == self.values()[i as int],
    {
        &self.entries[i].value
    }

    /// Finds the place of `key`: the number of keys that come before it.
    /// The flag tells whether the key itself stands there.
    pub fn search(&self, key: &[u8]) -> (r: (bool, usize))
        requires
            self.wf(),
        ensures
            r.1 <= self.keys().len(),
            forall|i: int| 0 <= i < r.1 ==> lex_lt(#[trigger] self.keys()[i], key@),
            forall|i: int| r.1 <= i < self.keys().len() ==> lex_le(key@, #[trigger] self.keys()[i]),
            r.0 <==> (r.1 < self.keys().len() && self.keys()[r.1 as int] == key@),
            r.0 == has_key(self.keys(), key@),
    {
        let ghost keys = self.keys();
        let mut lo: usize = 0;
        let mut hi: usize = self.entries.len();
        while lo < hi
            invariant
                self.wf(),
                keys == self.keys(),
                lo <= hi <= keys.len(),
                keys.len() == self.entries@.len(),
                forall|i: int| 0 <= i < lo ==> lex_lt(#[trigger] keys[i], key@),
                forall|i: int| hi <= i < keys.len() ==> lex_lt(key@, #[trigger] keys[i]),
            decreases hi - lo,
        {
            let mid = lo + (hi - lo) / 2;
            let probe = self.entries[mid].key.as_str().as_bytes();
            assert(probe@ == keys[mid as int]);
            match compare_bytes(probe, key) {
                KeyOrder::Equal => {
                    proof {
                        assert forall|i: int| 0 <= i < mid implies lex_lt(#[trigger] keys[i], key@) by {
                            assert(lex_lt(keys[i], keys[mid as int]));
                        }
                        assert forall|i: int| mid <= i < keys.len() implies lex_le(
                            key@,
                            #[trigger] keys[i],
                        ) by {
                            if i > mid {
                                assert(lex_lt(keys[mid as int], keys[i]));
                            }
                        }
                    }
                    return (true, mid);
                },
                KeyOrder::Less => {
                    proof {
                        assert forall|i: int| 0 <= i < mid + 1 implies lex_lt(
                            #[trigger] keys[i],
                            key@,
                        ) by {
                            if i < mid {
                                assert(lex_lt(keys[i], keys[mid as int]));
                                lemma_lex_transitive(keys[i], keys[mid as int], key@);
                            }
                        }
                    }
                    lo = mid + 1;
                },
                KeyOrder::Greater => {
                    proof {
                        lemma_lex_total(probe@, key@);
                        assert forall|i: int| mid <= i < keys.len() implies lex_lt(
                            key@,
                            #[trigger] keys[i],
                        ) by {
                            if i > mid {
                                assert(lex_lt(keys[mid as int], keys[i]));
                                lemma_lex_transitive(key@, keys[mid as int], keys[i]);
                            }
                        }
                    }
                    hi = mid;
                },
            }
        }
        proof {
            if has_key(keys, key@) {
                let p = position_of(keys, key@);
                lemma_lex_irreflexive(key@);
                assert(keys[p] == key@);
            }
        }
        (false, lo)
    }

    /// The value under `key`, if the map has the key.
    pub fn get(&self, key: &str) -> (r: Option<&V>)
        requires
            self.wf(),
        ensures
            match r {
                Some(v) => self.lookup(encode_utf8(key@)) == Some(*v),
                None => self.lookup(encode_utf8(key@)) is None,
            },
    {
        let (found, pos) = self.search(key.as_bytes());
        if found {
            proof {
                lemma_position_of(self.keys(), pos as int);
            }
            Some(&self.entries[pos].value)
        } else {
            None
        }
    }

    /// Puts `value` under `key` behind all entries. The key must come after
    /// every key of the map.
    pub fn append(&mut self, key: String, value: V)
        requires
            old(self).wf(),
            old(self).keys().len() > 0 ==> lex_lt(old(self).keys().last(), encode_utf8(key@)),
        ensures
            final(self).wf(),
            final(self).keys() == old(self).keys().push(encode_utf8(key@)),
            final(self).values() == old(self).values().push(value),
    {
        let ghost kb = encode_utf8(key@);
        let ghost old_keys = self.keys();
        self.entries.push(Entry { key, value });
        proof {
            assert(self.keys() =~= old_keys.push(kb));
            assert(self.values() =~= old(self).values().push(value));
            let new_keys = self.keys();
            let n = old_keys.len() as int;
            assert forall|i: int, j: int| 0 <= i < j < new_keys.len() implies lex_lt(
                #[trigger] new_keys[i],
                #[trigger] new_keys[j],
            ) by {
                if j == n {
                    assert(old_keys.last() == old_keys[n - 1]);
                    if i < n - 1 {
                        assert(lex_lt(old_keys[i], old_keys[n - 1]));
                        lemma_lex_transitive(old_keys[i], old_keys[n - 1], kb);
                    }
                } else {
                    assert(new_keys[i] == old_keys[i] && new_keys[j] == old_keys[j]);
                }
            }
        }
    }

    /// Puts `value` under `key`, in place of what the key mapped to before.
    /// Returns whether the key was there before.
    pub fn insert(&mut self, key: String, value: V) -> (replaced: bool)
        requires
            old(self).wf(),
        ensures
            final(self).wf(),
            replaced == has_key(old(self).keys(), encode_utf8(key@)),
            replaced ==> {
                let p = position_of(old(self).keys(), encode_utf8(key@));
                &&& final(self).keys() == old(self).keys()
                &&& final(self).values() == old(self).values().update(p, value)
            },
            !replaced ==> exists|p: int|
                {
                    &&& 0 <= p <= old(self).keys().len()
                    &&& final(self).keys() == #[trigger] old(self).keys().insert(
                        p,
                        encode_utf8(key@),
                    )
                    &&& final(self).values() == old(self).values().insert(p, value)
                },
            final(self).lookup(encode_utf8(key@)) == Some(value),
            forall|k: Seq<u8>|
                k != encode_utf8(key@) ==> #[trigger] final(self).lookup(k) == old(self).lookup(k),
    {
        let ghost kb = encode_utf8(key@);
        let ghost old_keys = self.keys();
        let ghost old_vals = self.values();
        let (found, pos) = self.search(key.as_str().as_bytes());
        if found {
            self.entries.set(pos, Entry { key, value });
            proof {
                assert(self.keys() =~= old_keys);
                assert(self.values() =~= old_vals.update(pos as int, value));
                lemma_position_of(old_keys, pos as int);
                assert forall|k: Seq<u8>| k != kb implies #[trigger] self.lookup(k) == old(
                    self,
                ).lookup(k) by {
                    if has_key(old_keys, k) {
                        let q = position_of(old_keys, k);
                        assert(q != pos);
                    }
                }
            }
            true
        } else {
            self.entries.insert(pos, Entry { key, value });
            proof {
                let p = pos as int;
                assert(self.keys() =~= old_keys.insert(p, kb));
                assert(self.values() =~= old_vals.insert(p, value));
                let new_keys = self.keys();
                assert forall|i: int, j: int| 0 <= i < j < new_keys.len() implies lex_lt(
                    #[trigger] new_keys[i],
                    #[trigger] new_keys[j],
                ) by {
                    lemma_insert_keeps_ascending(old_keys, p, kb, i, j);
                }
                lemma_position_of(new_keys, p);
                assert forall|k: Seq<u8>| k != kb implies #[trigger] self.lookup(k) == old(
                    self,
                ).lookup(k) by {
                    lemma_insert_lookup(old_keys, old_vals, p, kb, value, k);
                }
            }
            false
        }
    }

    /// Takes every entry out, in key order, and leaves the map empty.
    pub fn take_entries(&mut self) -> (entries: Vec<Entry<V>>)
        requires
            old(self).wf(),
        ensures
            final(self).wf(),
            final(self).keys().len() == 0,
            final(self).values().len() == 0,
            entries@.len() == old(self).keys().len(),
            forall|i: int|
                0 <= i < entries@.len() ==> encode_utf8(#[trigger] entries@[i].key@) == old(
                    self,
                ).keys()[i],
            forall|i: int|
                0 <= i < entries@.len() ==> (#[trigger] entries@[i]).value == old(self).values()[i],
    {
        let mut taken: Vec<Entry<V>> = Vec::new();
        std::mem::swap(&mut self.entries, &mut taken);
        taken
    }
}

/// Inserting a key at the place that `search` gives keeps the keys ascending.
proof fn lemma_insert_keeps_ascending(keys: Seq<Seq<u8>>, p: int, k: Seq<u8>, i: int, j: int)
    requires
        ascending(keys),
        0 <= p <= keys.len(),
        forall|x: int| 0 <= x < p ==> lex_lt(#[trigger] keys[x], k),
        forall|x: int| p <= x < keys.len() ==> lex_le(k, #[trigger] keys[x]),
        !has_key(keys, k),
        0 <= i < j < keys.len() + 1,
    ensures
        lex_lt(keys.insert(p, k)[i], keys.insert(p, k)[j]),
{
    let n = keys.insert(p, k);
    if i == p {
        assert(n[j] == keys[j - 1]);
        assert(lex_le(k, keys[j - 1]));
    } else if j == p {
        assert(n[i] == keys[i]);
    } else {
        let oi = if i < p { i } else { i - 1 };
        let oj = if j < p { j } else { j - 1 };
        assert(n[i] == keys[oi]);
        assert(n[j] == keys[oj]);
    }
}

/// Inserting a new key changes the lookup of no other key.
proof fn lemma_insert_lookup<V>(
    keys: Seq<Seq<u8>>,
    vals: Seq<V>,
    p: int,
    k: Seq<u8>,
    v: V,
    other: Seq<u8>,
)
    requires
        ascending(keys),
        ascending(keys.insert(p, k)),
        keys.len() == vals.len(),
        0 <= p <= keys.len(),
        other != k,
    ensures
        has_key(keys.insert(p, k), other) == has_key(keys, other),
        has_key(keys, other) ==> vals.insert(p, v)[position_of(keys.insert(p, k), other)]
            == vals[position_of(keys, other)],
{
    let nk = keys.insert(p, k);
    let nv = vals.insert(p, v);
    if has_key(keys, other) {
        let q = position_of(keys, other);
        let nq = if q < p { q } else { q + 1 };
        assert(nk[nq] == other);
        lemma_position_of(nk, nq);
    }
    if has_key(nk, other) {
        let nq = position_of(nk, other);
        let q = if nq < p { nq } else { nq - 1 };
        assert(keys[q] == other);
    }
}

} // verus!
