//! The sparse index of a table: some of the table's keys, in ascending
//! order, each with the byte offset at which its record starts.
//!
//! On disk an index is a run of entries `u16 key_len | key | u64 offset`,
//! all integers big-endian, up to the end of the file.
use vstd::prelude::*;
use vstd::slice::{slice_subrange, slice_to_vec};
use vstd::utf8::{encode_utf8, valid_utf8};
use crate::bytes::{
    lemma_lex_asymmetric, lemma_lex_irreflexive, lemma_lex_total, lemma_u16_be_roundtrip,
    lemma_u64_be_roundtrip, lex_le, lex_lt, push_u16_be, push_u64_be, read_u16_be, read_u64_be,
    string_from_utf8, u16_be, u16_from_be, u64_be, u64_from_be,
};
use crate::error::StoreError;
use crate::ordered::{ascending, has_key, position_of, OrderedMap};
use crate::record::{append_bytes, MAX_FIELD_LEN};

verus! {

/// Keys of a table with the offsets of their records.
pub type SparseIndex = OrderedMap<u64>;

/// The part of a data file in which a key has to be looked for.
#[derive(Clone, Copy, Debug, PartialEq, Eq, Structural)]
pub enum ScanRange {
    /// The key is indexed: its record starts at `offset`.
    Exact { offset: u64 },
    /// The key comes before every indexed key: scan from the start of the
    /// file up to the record at `end`.
    FromBegin { end: u64 },
    /// The key lies between two indexed keys: scan from the record at `start`
    /// up to the record at `end`.
    Range { start: u64, end: u64 },
    /// The key comes after every indexed key: scan from the record at `start`
    /// to the end of the file.
    ToEnd { start: u64 },
}

/// Number of keys that come strictly before `key`. In an ascending sequence
/// this is the place of the first key that is not before `key`.
pub open spec fn count_before(keys: Seq<Seq<u8>>, key: Seq<u8>) -> int
    decreases keys.len(),
{
    if keys.len() == 0 {
        0
    } else {
        count_before(keys.drop_last(), key) + if lex_lt(keys.last(), key) {
            1int
        } else {
            0int
        }
    }
}

/// The bracket that an index gives for a key. With `lower` the greatest
/// indexed key that is not after `key`, and `upper` the smallest that is not
/// before it: `Exact` where the two are one entry, `Range` where both exist
/// and differ, `FromBegin` where only `upper` exists, `ToEnd` where only
/// `lower` exists.
pub open spec fn bracket(keys: Seq<Seq<u8>>, offsets: Seq<u64>, key: Seq<u8>) -> ScanRange {
    let p = count_before(keys, key);
    if p < keys.len() && keys[p] == key {
        ScanRange::Exact { offset: offsets[p] }
    } else if p == 0 {
        ScanRange::FromBegin { end: offsets[0] }
    } else if p == keys.len() {
        ScanRange::ToEnd { start: offsets[p - 1] }
    } else {
        ScanRange::Range { start: offsets[p - 1], end: offsets[p] }
    }
}

/// In ascending keys, the place that splits the keys before `key` from the
/// others is the number of keys before `key`.
pub proof fn lemma_count_before(keys: Seq<Seq<u8>>, key: Seq<u8>, p: int)
    requires
        0 <= p <= keys.len(),
        forall|i: int| 0 <= i < p ==> lex_lt(#[trigger] keys[i], key),
        forall|i: int| p <= i < keys.len() ==> lex_le(key, #[trigger] keys[i]),
    ensures
        count_before(keys, key) == p,
    decreases keys.len(),
{
    if keys.len() > 0 {
        let front = keys.drop_last();
        let last = keys.len() - 1;
        assert(keys.last() == keys[last]);
        if p == keys.len() {
            assert forall|i: int| 0 <= i < p - 1 implies lex_lt(#[trigger] front[i], key) by {
                assert(front[i] == keys[i]);
            }
            lemma_count_before(front, key, p - 1);
        } else {
            assert(lex_le(key, keys[last]));
            if key == keys[last] {
                lemma_lex_irreflexive(key);
            } else {
                lemma_lex_asymmetric(key, keys[last]);
            }
            assert forall|i: int| 0 <= i < p implies lex_lt(#[trigger] front[i], key) by {
                assert(front[i] == keys[i]);
            }
            assert forall|i: int| p <= i < front.len() implies lex_le(key, #[trigger] front[i]) by {
                assert(front[i] == keys[i]);
            }
            lemma_count_before(front, key, p);
        }
    }
}

/// What the number of keys before `key` says of ascending keys: the keys up
/// to that place come before `key`, the others do not.
pub proof fn lemma_count_before_splits(keys: Seq<Seq<u8>>, key: Seq<u8>)
    requires
        ascending(keys),
    ensures
        0 <= count_before(keys, key) <= keys.len(),
        forall|i: int| 0 <= i < count_before(keys, key) ==> lex_lt(#[trigger] keys[i], key),
        forall|i: int|
            count_before(keys, key) <= i < keys.len() ==> lex_le(key, #[trigger] keys[i]),
    decreases keys.len(),
{
    if keys.len() > 0 {
        let front = keys.drop_last();
        let last = keys.len() - 1;
        assert(keys.last() == keys[last]);
        assert forall|i: int, j: int| 0 <= i < j < front.len() implies lex_lt(
            #[trigger] front[i],
            #[trigger] front[j],
        ) by {
            assert(front[i] == keys[i] && front[j] == keys[j]);
        }
        lemma_count_before_splits(front, key);
        let c = count_before(front, key);
        assert forall|i: int| 0 <= i < c implies lex_lt(#[trigger] keys[i], key) by {
            assert(front[i] == keys[i]);
        }
        if lex_lt(keys[last], key) {
            // every key of the front comes before the last one, so before `key`
            assert forall|i: int| 0 <= i < last implies lex_lt(#[trigger] keys[i], key) by {
                assert(lex_lt(keys[i], keys[last]));
                crate::bytes::lemma_lex_transitive(keys[i], keys[last], key);
            }
            lemma_count_before(front, key, last);
        } else {
            lemma_lex_total(keys[last], key);
            assert forall|i: int| c <= i < keys.len() implies lex_le(key, #[trigger] keys[i]) by {
                if i < last {
                    assert(front[i] == keys[i]);
                }
            }
        }
    }
}

/// Computes the part of the data file in which `key` has to be looked for.
/// The index must hold at least one entry, as the index of every table does.
pub fn bounds(index: &SparseIndex, key: &str) -> (r: ScanRange)
    requires
        index.wf(),
        index.keys().len() > 0,
    ensures
        r == bracket(index.keys(), index.values(), encode_utf8(key@)),
{
    let (found, pos) = index.search(key.as_bytes());
    proof {
        lemma_count_before(index.keys(), encode_utf8(key@), pos as int);
    }
    if found {
        ScanRange::Exact { offset: *index.value_at(pos) }
    } else if pos == 0 {
        ScanRange::FromBegin { end: *index.value_at(0) }
    } else if pos == index.len() {
        ScanRange::ToEnd { start: *index.value_at(pos - 1) }
    } else {
        ScanRange::Range { start: *index.value_at(pos - 1), end: *index.value_at(pos) }
    }
}

/// The binary form of one index entry.
pub open spec fn serialize_index_entry(key: Seq<u8>, offset: u64) -> Seq<u8> {
    u16_be(key.len() as u16) + key + u64_be(offset)
}

/// The binary form of an index: its entries in key order.
pub open spec fn serialize_index(keys: Seq<Seq<u8>>, offsets: Seq<u64>) -> Seq<u8>
    decreases keys.len(),
{
    if keys.len() == 0 {
        Seq::empty()
    } else {
        serialize_index(keys.drop_last(), offsets.drop_last()) + serialize_index_entry(
            keys.last(),
            offsets.last(),
        )
    }
}

/// Whether a whole index entry stands at `pos`.
pub open spec fn index_entry_at(data: Seq<u8>, pos: int) -> bool {
    &&& 0 <= pos
    &&& pos + 2 <= data.len()
    &&& pos + 2 + u16_from_be(data[pos], data[pos + 1]) + 8 <= data.len()
    &&& valid_utf8(index_entry_key(data, pos))
}

/// The key bytes of the index entry at `pos`.
pub open spec fn index_entry_key(data: Seq<u8>, pos: int) -> Seq<u8> {
    data.subrange(pos + 2, pos + 2 + u16_from_be(data[pos], data[pos + 1]))
}

/// The offset that the index entry at `pos` holds.
pub open spec fn index_entry_offset(data: Seq<u8>, pos: int) -> u64 {
    let at = pos + 2 + u16_from_be(data[pos], data[pos + 1]);
    u64_from_be(data.subrange(at, at + 8))
}

/// Where the index entry at `pos` ends.
pub open spec fn index_entry_end(data: Seq<u8>, pos: int) -> int {
    pos + 2 + u16_from_be(data[pos], data[pos + 1]) + 8
}

/// The entries that stand in `data` from `pos` to its end, in file order.
/// `None` where the data ends in the middle of an entry or a key is not
/// UTF-8. The end of the data at an entry boundary ends the index.
pub open spec fn parse_index(data: Seq<u8>, pos: int) -> Option<Seq<(Seq<u8>, u64)>>
    decreases data.len() - pos,
{
    if pos >= data.len() {
        Some(Seq::empty())
    } else if !index_entry_at(data, pos) {
        None
    } else {
        match parse_index(data, index_entry_end(data, pos)) {
            None => None,
            Some(rest) => Some(
                seq![(index_entry_key(data, pos), index_entry_offset(data, pos))] + rest,
            ),
        }
    }
}

/// The offset that the last entry with key `key` holds, if there is one:
/// what the index maps the key to once all entries are read, a later entry
/// taking the place of an earlier one with the same key.
pub open spec fn last_offset(entries: Seq<(Seq<u8>, u64)>, key: Seq<u8>) -> Option<u64>
    decreases entries.len(),
{
    if entries.len() == 0 {
        None
    } else if entries.last().0 == key {
        Some(entries.last().1)
    } else {
        last_offset(entries.drop_last(), key)
    }
}

/// The keys of a run of entries.
pub open spec fn entry_keys(entries: Seq<(Seq<u8>, u64)>) -> Seq<Seq<u8>> {
    Seq::new(entries.len(), |i: int| entries[i].0)
}

/// The offsets of a run of entries.
pub open spec fn entry_offsets(entries: Seq<(Seq<u8>, u64)>) -> Seq<u64> {
    Seq::new(entries.len(), |i: int| entries[i].1)
}

/// Keys that fit the length field of an index entry and are UTF-8.
pub open spec fn index_keys_wf(keys: Seq<Seq<u8>>) -> bool {
    forall|i: int|
        0 <= i < keys.len() ==> (#[trigger] keys[i]).len() <= MAX_FIELD_LEN && valid_utf8(keys[i])
}

/// Appends the binary form of the index to `writer`.
pub fn write_to(index: &SparseIndex, writer: &mut Vec<u8>)
    requires
        index.wf(),
        index_keys_wf(index.keys()),
    ensures
        final(writer)@ == old(writer)@ + serialize_index(index.keys(), index.values()),
{
    let n = index.len();
    let mut i: usize = 0;
    assert(index.keys().take(0) =~= Seq::<Seq<u8>>::empty());
    while i < n
        invariant
            i <= n,
            n == index.keys().len(),
            n == index.values().len(),
            index_keys_wf(index.keys()),
            writer@ == old(writer)@ + serialize_index(
                index.keys().take(i as int),
                index.values().take(i as int),
            ),
        decreases n - i,
    {
        let key_bytes = index.key_at(i).as_bytes();
        let offset = *index.value_at(i);
        proof {
            let keys = index.keys().take(i + 1);
            let offsets = index.values().take(i + 1);
            assert(keys.drop_last() =~= index.keys().take(i as int));
            assert(offsets.drop_last() =~= index.values().take(i as int));
            assert(keys.last() == index.keys()[i as int]);
            assert(offsets.last() == index.values()[i as int]);
            assert(index.keys()[i as int].len() <= MAX_FIELD_LEN);
        }
        push_u16_be(writer, key_bytes.len() as u16);
        append_bytes(writer, key_bytes);
        push_u64_be(writer, offset);
        proof {
            assert(writer@ =~= old(writer)@ + serialize_index(
                index.keys().take(i + 1),
                index.values().take(i + 1),
            ));
        }
        i = i + 1;
    }
    proof {
        assert(index.keys().take(n as int) =~= index.keys());
        assert(index.values().take(n as int) =~= index.values());
    }
}

/// Reads an index from its binary form. Fails with `CorruptIndex` where the
/// data ends in the middle of an entry or a key is not UTF-8. Where a key
/// occurs more than once, its last entry counts.
pub fn read_from(data: &[u8]) -> (r: Result<SparseIndex, StoreError>)
    ensures
        match parse_index(data@, 0) {
            None => r == Err::<SparseIndex, StoreError>(StoreError::CorruptIndex),
            Some(entries) => {
                &&& r is Ok
                &&& r->Ok_0.wf()
                &&& index_keys_wf(r->Ok_0.keys())
                &&& forall|k: Seq<u8>| #[trigger] r->Ok_0.lookup(k) == last_offset(entries, k)
                &&& ascending(entry_keys(entries)) ==> r->Ok_0.keys() == entry_keys(entries)
                    && r->Ok_0.values() == entry_offsets(entries)
            },
        },
{
    let len = data.len();
    let mut index: SparseIndex = OrderedMap::new();
    let mut pos: usize = 0;
    let ghost mut seen: Seq<(Seq<u8>, u64)> = Seq::empty();
    proof {
        assert(entry_keys(seen) =~= index.keys());
        assert(entry_offsets(seen) =~= index.values());
    }
    while pos < len
        invariant
            len == data@.len(),
            pos <= len,
            index.wf(),
            index_keys_wf(index.keys()),
            parse_index(data@, 0) == match parse_index(data@, pos as int) {
                None => None::<Seq<(Seq<u8>, u64)>>,
                Some(rest) => Some(seen + rest),
            },
            forall|k: Seq<u8>| #[trigger] index.lookup(k) == last_offset(seen, k),
            ascending(entry_keys(seen)) ==> index.keys() == entry_keys(seen) && index.values()
                == entry_offsets(seen),
        decreases len - pos,
    {
        if len - pos < 2 {
            return Err(StoreError::CorruptIndex);
        }
        let key_len = read_u16_be(data, pos) as usize;
        if len - pos - 2 < key_len || len - pos - 2 - key_len < 8 {
            return Err(StoreError::CorruptIndex);
        }
        let key_start = pos + 2;
        let key_end = key_start + key_len;
        let key = match string_from_utf8(slice_to_vec(slice_subrange(data, key_start, key_end))) {
            Some(k) => k,
            None => {
                return Err(StoreError::CorruptIndex);
            },
        };
        let offset = read_u64_be(data, key_end);
        let ghost kb = encode_utf8(key@);
        let ghost before = index;
        let ghost seen_before = seen;
        index.insert(key, offset);
        proof {
            seen = seen_before.push((kb, offset));
            let next = index_entry_end(data@, pos as int);
            assert(kb == index_entry_key(data@, pos as int));
            assert(offset == index_entry_offset(data@, pos as int));
            match parse_index(data@, next) {
                None => {},
                Some(rest) => {
                    assert(seen_before + (seq![(kb, offset)] + rest) =~= seen + rest);
                },
            }
            assert(seen.drop_last() =~= seen_before);
            assert(seen.last() == (kb, offset));
            assert forall|k: Seq<u8>| #[trigger] index.lookup(k) == last_offset(seen, k) by {
                if k != kb {
                    assert(index.lookup(k) == before.lookup(k));
                }
            }
            assert forall|i: int| 0 <= i < index.keys().len() implies (#[trigger] index.keys()[i]).len()
                <= MAX_FIELD_LEN && valid_utf8(index.keys()[i]) by {
                lemma_insert_keys_wf(before.keys(), index.keys(), kb, i);
            }
            if ascending(entry_keys(seen)) {
                lemma_append_last(before, index, seen_before, kb, offset);
            }
        }
        pos = key_end + 8;
    }
    proof {
        assert(seen + Seq::<(Seq<u8>, u64)>::empty() =~= seen);
    }
    Ok(index)
}

/// Keys stay well-formed when a well-formed key is put among them.
pub proof fn lemma_insert_keys_wf(old_keys: Seq<Seq<u8>>, new_keys: Seq<Seq<u8>>, k: Seq<u8>, i: int)
    requires
        index_keys_wf(old_keys),
        k.len() <= MAX_FIELD_LEN,
        valid_utf8(k),
        new_keys == old_keys || exists|p: int|
            0 <= p <= old_keys.len() && new_keys == #[trigger] old_keys.insert(p, k),
        0 <= i < new_keys.len(),
    ensures
        new_keys[i].len() <= MAX_FIELD_LEN,
        valid_utf8(new_keys[i]),
{
    if new_keys != old_keys {
        let p = choose|p: int| 0 <= p <= old_keys.len() && new_keys == #[trigger] old_keys.insert(p, k);
        if i < p {
            assert(new_keys[i] == old_keys[i]);
        } else if i > p {
            assert(new_keys[i] == old_keys[i - 1]);
        }
    }
}

/// Putting entries whose keys ascend into an index puts each new entry last.
pub proof fn lemma_append_last(
    before: SparseIndex,
    after: SparseIndex,
    seen: Seq<(Seq<u8>, u64)>,
    k: Seq<u8>,
    offset: u64,
)
    requires
        before.wf(),
        after.wf(),
        ascending(entry_keys(seen.push((k, offset)))),
        ascending(entry_keys(seen)) ==> before.keys() == entry_keys(seen) && before.values()
            == entry_offsets(seen),
        has_key(before.keys(), k) ==> after.keys() == before.keys(),
        !has_key(before.keys(), k) ==> exists|p: int|
            {
                &&& 0 <= p <= before.keys().len()
                &&& after.keys() == #[trigger] before.keys().insert(p, k)
                &&& after.values() == before.values().insert(p, offset)
            },
    ensures
        after.keys() == entry_keys(seen.push((k, offset))),
        after.values() == entry_offsets(seen.push((k, offset))),
{
    let all = seen.push((k, offset));
    let all_keys = entry_keys(all);
    let n = seen.len() as int;
    assert forall|i: int, j: int| 0 <= i < j < n implies lex_lt(
        #[trigger] entry_keys(seen)[i],
        #[trigger] entry_keys(seen)[j],
    ) by {
        assert(all_keys[i] == entry_keys(seen)[i]);
        assert(all_keys[j] == entry_keys(seen)[j]);
        assert(lex_lt(all_keys[i], all_keys[j]));
    }
    let old_keys = before.keys();
    assert(all_keys[n] == k);
    assert forall|i: int| 0 <= i < n implies lex_lt(#[trigger] old_keys[i], k) by {
        assert(all_keys[i] == old_keys[i]);
        assert(lex_lt(all_keys[i], all_keys[n]));
    }
    if has_key(old_keys, k) {
        let q = position_of(old_keys, k);
        assert(lex_lt(old_keys[q], k));
        lemma_lex_irreflexive(k);
    }
    let p = choose|p: int|
        {
            &&& 0 <= p <= old_keys.len()
            &&& after.keys() == #[trigger] old_keys.insert(p, k)
            &&& after.values() == before.values().insert(p, offset)
        };
    if p < n {
        assert(after.keys()[p] == k);
        assert(after.keys()[p + 1] == old_keys[p]);
        assert(lex_lt(after.keys()[p], after.keys()[p + 1]));
        lemma_lex_asymmetric(old_keys[p], k);
    }
    assert(after.keys() =~= all_keys);
    assert(after.values() =~= entry_offsets(all));
}

/// The binary form of an index is the binary form of its first entries
/// followed by that of the others.
pub proof fn lemma_serialize_index_concat(
    keys1: Seq<Seq<u8>>,
    offsets1: Seq<u64>,
    keys2: Seq<Seq<u8>>,
    offsets2: Seq<u64>,
)
    requires
        keys1.len() == offsets1.len(),
        keys2.len() == offsets2.len(),
    ensures
        serialize_index(keys1 + keys2, offsets1 + offsets2) == serialize_index(keys1, offsets1)
            + serialize_index(keys2, offsets2),
    decreases keys2.len(),
{
    if keys2.len() == 0 {
        assert(keys1 + keys2 =~= keys1);
        assert(offsets1 + offsets2 =~= offsets1);
        assert(serialize_index(keys1, offsets1) + Seq::<u8>::empty() =~= serialize_index(
            keys1,
            offsets1,
        ));
    } else {
        let k = keys1 + keys2;
        let o = offsets1 + offsets2;
        assert(k.drop_last() =~= keys1 + keys2.drop_last());
        assert(o.drop_last() =~= offsets1 + offsets2.drop_last());
        assert(k.last() == keys2.last());
        assert(o.last() == offsets2.last());
        lemma_serialize_index_concat(keys1, offsets1, keys2.drop_last(), offsets2.drop_last());
        assert(serialize_index(k, o) =~= serialize_index(keys1, offsets1) + serialize_index(
            keys2,
            offsets2,
        ));
    }
}

/// Round trip of an index: the binary form of well-formed entries, wherever
/// it ends a byte string, parses back to the same entries in the same order.
pub proof fn lemma_index_roundtrip(prefix: Seq<u8>, keys: Seq<Seq<u8>>, offsets: Seq<u64>)
    requires
        keys.len() == offsets.len(),
        index_keys_wf(keys),
    ensures
        parse_index(prefix + serialize_index(keys, offsets), prefix.len() as int) matches Some(
            entries,
        ) && entry_keys(entries) == keys && entry_offsets(entries) == offsets,
    decreases keys.len(),
{
    let data = prefix + serialize_index(keys, offsets);
    let pos = prefix.len() as int;
    if keys.len() == 0 {
        assert(data =~= prefix);
        let entries = parse_index(data, pos)->0;
        assert(entry_keys(entries) =~= keys);
        assert(entry_offsets(entries) =~= offsets);
    } else {
        let k0 = keys[0];
        let o0 = offsets[0];
        let first = serialize_index_entry(k0, o0);
        let rest_keys = keys.drop_first();
        let rest_offsets = offsets.drop_first();
        assert(keys =~= seq![k0] + rest_keys);
        assert(offsets =~= seq![o0] + rest_offsets);
        lemma_serialize_index_concat(seq![k0], seq![o0], rest_keys, rest_offsets);
        assert(seq![k0].drop_last() =~= Seq::<Seq<u8>>::empty());
        assert(seq![o0].drop_last() =~= Seq::<u64>::empty());
        assert(serialize_index(seq![k0].drop_last(), seq![o0].drop_last()) =~= Seq::<u8>::empty());
        assert(serialize_index(seq![k0], seq![o0]) =~= first);
        let rest = serialize_index(rest_keys, rest_offsets);
        assert(data =~= (prefix + first) + rest);
        lemma_u16_be_roundtrip(k0.len() as u16);
        lemma_u64_be_roundtrip(o0);
        assert(k0.len() <= MAX_FIELD_LEN);
        assert(first.len() == 2 + k0.len() + 8);
        assert(data[pos] == u16_be(k0.len() as u16)[0]);
        assert(data[pos + 1] == u16_be(k0.len() as u16)[1]);
        assert(u16_from_be(data[pos], data[pos + 1]) == k0.len());
        assert(index_entry_key(data, pos) =~= k0);
        assert(data.subrange(pos + 2 + k0.len(), pos + 2 + k0.len() + 8) =~= u64_be(o0));
        assert(index_entry_offset(data, pos) == o0);
        assert(index_entry_end(data, pos) == (prefix + first).len());
        assert forall|i: int| 0 <= i < rest_keys.len() implies (#[trigger] rest_keys[i]).len()
            <= MAX_FIELD_LEN && valid_utf8(rest_keys[i]) by {
            assert(rest_keys[i] == keys[i + 1]);
        }
        lemma_index_roundtrip(prefix + first, rest_keys, rest_offsets);
        let tail = parse_index(data, index_entry_end(data, pos))->0;
        let entries = seq![(k0, o0)] + tail;
        assert(parse_index(data, pos) == Some(entries));
        assert(entry_keys(entries) =~= keys);
        assert(entry_offsets(entries) =~= offsets);
    }
}

} // verus!
