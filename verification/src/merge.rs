//! The mathematics of merging tables: which slot counts for a key when
//! several tables hold it, what the merged table must be, and why walking
//! the tables front to front produces it.
use vstd::prelude::*;
use crate::bytes::{lemma_lex_asymmetric, lemma_lex_irreflexive, lex_le, lex_lt};
use crate::ordered::{ascending, has_key, lemma_ascending_order, lemma_position_of, position_of};
use crate::record::{record_wf, RecordView, SlotView};
use crate::table::{find_slot, record_keys, sorted_records};

verus! {

/// The slot that counts for `key` among `tables`, the newest table first:
/// that of the first table that holds the key.
pub open spec fn newest_slot(tables: Seq<Seq<RecordView>>, key: Seq<u8>) -> Option<SlotView>
    decreases tables.len(),
{
    if tables.len() == 0 {
        None
    } else {
        match find_slot(tables[0], key) {
            Some(slot) => Some(slot),
            None => newest_slot(tables.drop_first(), key),
        }
    }
}

/// What a reader sees for a slot: a value, or nothing where the key is
/// deleted or unknown.
pub open spec fn visible(slot: Option<SlotView>) -> Option<SlotView> {
    match slot {
        Some(SlotView::Value(v)) => Some(SlotView::Value(v)),
        _ => None,
    }
}

/// Every table is in strictly ascending key order and well-formed.
pub open spec fn all_sorted(tables: Seq<Seq<RecordView>>) -> bool {
    forall|j: int| 0 <= j < tables.len() ==> sorted_records(#[trigger] tables[j])
}

/// No record is a tombstone.
pub open spec fn no_tombstones(records: Seq<RecordView>) -> bool {
    forall|i: int| 0 <= i < records.len() ==> (#[trigger] records[i]).value is Value
}

/// `out` is the one table that a full merge of `tables` gives: in strictly
/// ascending key order, so without duplicates; without tombstones; and
/// holding, for every key, the newest slot across the tables where that is a
/// value, and nothing where it is a tombstone or the key is unknown.
pub open spec fn is_merge_of(out: Seq<RecordView>, tables: Seq<Seq<RecordView>>) -> bool {
    &&& sorted_records(out)
    &&& no_tombstones(out)
    &&& forall|key: Seq<u8>| #[trigger] find_slot(out, key) == visible(newest_slot(tables, key))
}

/// Where no table holds the key, no slot counts for it.
pub proof fn lemma_newest_slot_none(tables: Seq<Seq<RecordView>>, key: Seq<u8>)
    requires
        forall|j: int| 0 <= j < tables.len() ==> !has_key(record_keys(#[trigger] tables[j]), key),
    ensures
        newest_slot(tables, key) is None,
    decreases tables.len(),
{
    if tables.len() > 0 {
        assert(!has_key(record_keys(tables[0]), key));
        let rest = tables.drop_first();
        assert forall|j: int| 0 <= j < rest.len() implies !has_key(
            record_keys(#[trigger] rest[j]),
            key,
        ) by {
            assert(rest[j] == tables[j + 1]);
        }
        lemma_newest_slot_none(rest, key);
    }
}

/// The slot that counts is that of the first table that holds the key.
pub proof fn lemma_newest_slot_first(tables: Seq<Seq<RecordView>>, key: Seq<u8>, b: int)
    requires
        0 <= b < tables.len(),
        forall|j: int| 0 <= j < b ==> !has_key(record_keys(#[trigger] tables[j]), key),
        has_key(record_keys(tables[b]), key),
    ensures
        newest_slot(tables, key) == find_slot(tables[b], key),
    decreases b,
{
    if b > 0 {
        assert(!has_key(record_keys(tables[0]), key));
        let rest = tables.drop_first();
        assert forall|j: int| 0 <= j < b - 1 implies !has_key(
            record_keys(#[trigger] rest[j]),
            key,
        ) by {
            assert(rest[j] == tables[j + 1]);
        }
        assert(rest[b - 1] == tables[b]);
        lemma_newest_slot_first(rest, key, b - 1);
    }
}

/// A record put behind records with smaller keys is found under its key, and
/// changes what is found under no other.
pub proof fn lemma_find_slot_push(out: Seq<RecordView>, record: RecordView, key: Seq<u8>)
    requires
        sorted_records(out),
        record_wf(record),
        forall|i: int| 0 <= i < out.len() ==> lex_lt((#[trigger] out[i]).key, record.key),
    ensures
        sorted_records(out.push(record)),
        find_slot(out.push(record), key) == if key == record.key {
            Some(record.value)
        } else {
            find_slot(out, key)
        },
{
    let next = out.push(record);
    let keys = record_keys(out);
    let nkeys = record_keys(next);
    let n = out.len() as int;
    assert forall|i: int, j: int| 0 <= i < j < nkeys.len() implies lex_lt(
        #[trigger] nkeys[i],
        #[trigger] nkeys[j],
    ) by {
        if j < n {
            assert(nkeys[i] == keys[i] && nkeys[j] == keys[j]);
        } else {
            assert(nkeys[i] == out[i].key);
        }
    }
    assert forall|i: int| 0 <= i < next.len() implies record_wf(#[trigger] next[i]) by {
        if i < n {
            assert(next[i] == out[i]);
        }
    }
    assert(nkeys[n] == record.key);
    if key == record.key {
        lemma_position_of(nkeys, n);
    } else {
        if has_key(keys, key) {
            let p = position_of(keys, key);
            assert(nkeys[p] == key);
            lemma_position_of(nkeys, p);
            assert(next[p] == out[p]);
        }
        if has_key(nkeys, key) {
            let p = position_of(nkeys, key);
            assert(p < n);
            assert(keys[p] == key);
        }
    }
}

/// For every table, how many of its records the merge has taken.
pub open spec fn cursors_ok(tables: Seq<Seq<RecordView>>, taken: Seq<int>) -> bool {
    &&& taken.len() == tables.len()
    &&& forall|j: int| 0 <= j < tables.len() ==> 0 <= #[trigger] taken[j] <= tables[j].len()
}

/// Whether table `j` still has a record in front.
pub open spec fn has_head(tables: Seq<Seq<RecordView>>, taken: Seq<int>, j: int) -> bool {
    0 <= j < tables.len() && 0 <= taken[j] < tables[j].len()
}

/// The record in front of table `j`.
pub open spec fn head(tables: Seq<Seq<RecordView>>, taken: Seq<int>, j: int) -> RecordView {
    tables[j][taken[j]]
}

/// Whether the merge is through with `key`: every record in front has a
/// greater key.
pub open spec fn settled(tables: Seq<Seq<RecordView>>, taken: Seq<int>, key: Seq<u8>) -> bool {
    forall|j: int| #[trigger] has_head(tables, taken, j) ==> lex_lt(key, head(tables, taken, j).key)
}

/// The front that wins: it has the smallest key, and among the fronts with
/// that key it belongs to the newest table.
pub open spec fn is_winner(tables: Seq<Seq<RecordView>>, taken: Seq<int>, b: int) -> bool {
    &&& has_head(tables, taken, b)
    &&& forall|j: int| #[trigger]
        has_head(tables, taken, j) ==> lex_le(head(tables, taken, b).key, head(tables, taken, j).key)
    &&& forall|j: int|
        #[trigger] has_head(tables, taken, j) && head(tables, taken, j).key == head(
            tables,
            taken,
            b,
        ).key ==> b <= j
}

/// The cursors after one step: every table whose front has the winning key
/// moves on by one record.
pub open spec fn step_cursors(tables: Seq<Seq<RecordView>>, taken: Seq<int>, key: Seq<u8>) -> Seq<
    int,
> {
    Seq::new(
        taken.len(),
        |j: int|
            if has_head(tables, taken, j) && head(tables, taken, j).key == key {
                taken[j] + 1
            } else {
                taken[j]
            },
    )
}

/// The output after one step: the winner behind it, unless it is a tombstone.
pub open spec fn step_output(out: Seq<RecordView>, winner: RecordView) -> Seq<RecordView> {
    if winner.value is Tombstone {
        out
    } else {
        out.push(winner)
    }
}

/// What holds between the steps of a merge: the output is a table without
/// tombstones; it holds what a reader sees under every key that the merge is
/// through with, and nothing else; and the merge is through with the key of
/// every record taken.
pub open spec fn merge_inv(
    tables: Seq<Seq<RecordView>>,
    taken: Seq<int>,
    out: Seq<RecordView>,
) -> bool {
    &&& cursors_ok(tables, taken)
    &&& sorted_records(out)
    &&& no_tombstones(out)
    &&& forall|j: int, r: int|
        0 <= j < tables.len() && 0 <= r < taken[j] ==> settled(
            tables,
            taken,
            (#[trigger] tables[j][r]).key,
        )
    &&& forall|key: Seq<u8>| #[trigger]
        find_slot(out, key) == if settled(tables, taken, key) {
            visible(newest_slot(tables, key))
        } else {
            None
        }
}

/// Before the first step nothing is taken and nothing is written.
pub proof fn lemma_merge_start(tables: Seq<Seq<RecordView>>)
    requires
        all_sorted(tables),
    ensures
        merge_inv(tables, Seq::new(tables.len(), |j: int| 0int), Seq::empty()),
{
    let taken = Seq::new(tables.len(), |j: int| 0int);
    let out = Seq::<RecordView>::empty();
    assert(record_keys(out) =~= Seq::<Seq<u8>>::empty());
    assert forall|key: Seq<u8>| #[trigger]
        find_slot(out, key) == if settled(tables, taken, key) {
            visible(newest_slot(tables, key))
        } else {
            None
        } by {
        if settled(tables, taken, key) {
            assert forall|j: int| 0 <= j < tables.len() implies !has_key(
                record_keys(#[trigger] tables[j]),
                key,
            ) by {
                if has_key(record_keys(tables[j]), key) {
                    lemma_key_after_head(tables, taken, j, position_of(record_keys(tables[j]), key));
                    assert(has_head(tables, taken, j));
                    lemma_lex_le_not_lt(head(tables, taken, j).key, key);
                }
            }
            lemma_newest_slot_none(tables, key);
        }
    }
}

/// `a <= b` rules out `b < a`.
pub proof fn lemma_lex_le_not_lt(a: Seq<u8>, b: Seq<u8>)
    requires
        lex_le(a, b),
    ensures
        !lex_lt(b, a),
{
    lemma_lex_irreflexive(a);
    if a != b {
        lemma_lex_asymmetric(a, b);
    }
}

/// In a sorted table, a record at or behind the front has a key that is not
/// smaller than that of the front.
pub proof fn lemma_key_after_head(
    tables: Seq<Seq<RecordView>>,
    taken: Seq<int>,
    j: int,
    r: int,
)
    requires
        all_sorted(tables),
        cursors_ok(tables, taken),
        0 <= j < tables.len(),
        taken[j] <= r < tables[j].len(),
    ensures
        has_head(tables, taken, j),
        lex_le(head(tables, taken, j).key, tables[j][r].key),
        r > taken[j] ==> lex_lt(head(tables, taken, j).key, tables[j][r].key),
{
    let keys = record_keys(tables[j]);
    assert(sorted_records(tables[j]));
    assert(keys[taken[j]] == tables[j][taken[j]].key);
    assert(keys[r] == tables[j][r].key);
    if r > taken[j] {
        assert(lex_lt(keys[taken[j]], keys[r]));
    }
}

/// After a step every front has a key greater than the winning one, and the
/// merge is still through with every key that it was through with.
pub proof fn lemma_step_fronts(tables: Seq<Seq<RecordView>>, taken: Seq<int>, b: int)
    requires
        all_sorted(tables),
        cursors_ok(tables, taken),
        is_winner(tables, taken, b),
    ensures
        cursors_ok(tables, step_cursors(tables, taken, head(tables, taken, b).key)),
        settled(
            tables,
            step_cursors(tables, taken, head(tables, taken, b).key),
            head(tables, taken, b).key,
        ),
        forall|key: Seq<u8>|
            settled(tables, taken, key) ==> #[trigger] settled(
                tables,
                step_cursors(tables, taken, head(tables, taken, b).key),
                key,
            ),
        forall|j: int| #[trigger]
            has_head(tables, step_cursors(tables, taken, head(tables, taken, b).key), j)
                ==> has_head(tables, taken, j),
{
    let m = head(tables, taken, b).key;
    let next = step_cursors(tables, taken, m);
    assert forall|j: int| #[trigger] has_head(tables, next, j) implies has_head(tables, taken, j)
        && lex_lt(m, head(tables, next, j).key) && lex_le(
        head(tables, taken, j).key,
        head(tables, next, j).key,
    ) by {
        assert(has_head(tables, taken, j));
        if head(tables, taken, j).key == m {
            lemma_key_after_head(tables, taken, j, taken[j] + 1);
        } else {
            assert(lex_le(m, head(tables, taken, j).key));
        }
    }
    assert forall|key: Seq<u8>| settled(tables, taken, key) implies #[trigger] settled(
        tables,
        next,
        key,
    ) by {
        assert forall|j: int| #[trigger] has_head(tables, next, j) implies lex_lt(
            key,
            head(tables, next, j).key,
        ) by {
            assert(has_head(tables, taken, j));
            crate::bytes::lemma_lex_lt_le(key, head(tables, taken, j).key, head(tables, next, j).key);
        }
    }
}

/// Which tables hold the winning key: those with the key in front. The
/// winner's table is the newest of them.
pub proof fn lemma_winner_is_newest(
    tables: Seq<Seq<RecordView>>,
    taken: Seq<int>,
    out: Seq<RecordView>,
    b: int,
)
    requires
        all_sorted(tables),
        merge_inv(tables, taken, out),
        is_winner(tables, taken, b),
    ensures
        newest_slot(tables, head(tables, taken, b).key) == Some(head(tables, taken, b).value),
        !settled(tables, taken, head(tables, taken, b).key),
        find_slot(out, head(tables, taken, b).key) is None,
{
    let m = head(tables, taken, b).key;
    lemma_lex_irreflexive(m);
    assert(has_head(tables, taken, b));
    assert(!settled(tables, taken, m));
    assert forall|j: int| 0 <= j < b implies !has_key(record_keys(#[trigger] tables[j]), m) by {
        let keys = record_keys(tables[j]);
        if has_key(keys, m) {
            let r = position_of(keys, m);
            assert(keys[r] == tables[j][r].key);
            if r < taken[j] {
                assert(settled(tables, taken, tables[j][r].key));
            } else {
                lemma_key_after_head(tables, taken, j, r);
                assert(lex_le(m, head(tables, taken, j).key));
                if r > taken[j] {
                    crate::bytes::lemma_lex_le_lt(m, head(tables, taken, j).key, m);
                }
            }
        }
    }
    let keys = record_keys(tables[b]);
    assert(keys[taken[b]] == m);
    assert(sorted_records(tables[b]));
    lemma_position_of(keys, taken[b]);
    lemma_newest_slot_first(tables, m, b);
}

/// A key other than the winning one, with which the merge is through after
/// a step but was not before, is held by no table.
pub proof fn lemma_skipped_key(
    tables: Seq<Seq<RecordView>>,
    taken: Seq<int>,
    out: Seq<RecordView>,
    b: int,
    key: Seq<u8>,
)
    requires
        all_sorted(tables),
        merge_inv(tables, taken, out),
        is_winner(tables, taken, b),
        key != head(tables, taken, b).key,
        !settled(tables, taken, key),
        settled(tables, step_cursors(tables, taken, head(tables, taken, b).key), key),
    ensures
        newest_slot(tables, key) is None,
{
    let m = head(tables, taken, b).key;
    let next = step_cursors(tables, taken, m);
    lemma_step_fronts(tables, taken, b);
    assert forall|j: int| 0 <= j < tables.len() implies !has_key(
        record_keys(#[trigger] tables[j]),
        key,
    ) by {
        let keys = record_keys(tables[j]);
        if has_key(keys, key) {
            let r = position_of(keys, key);
            assert(keys[r] == tables[j][r].key);
            if r < taken[j] {
                assert(settled(tables, taken, tables[j][r].key));
            } else if r < next[j] {
                assert(r == taken[j]);
            } else {
                lemma_key_after_head(tables, next, j, r);
                assert(has_head(tables, next, j));
                lemma_lex_le_not_lt(head(tables, next, j).key, key);
            }
        }
    }
    lemma_newest_slot_none(tables, key);
}

/// One step of the merge keeps what holds between the steps.
pub proof fn lemma_merge_step(
    tables: Seq<Seq<RecordView>>,
    taken: Seq<int>,
    out: Seq<RecordView>,
    b: int,
)
    requires
        all_sorted(tables),
        merge_inv(tables, taken, out),
        is_winner(tables, taken, b),
    ensures
        merge_inv(
            tables,
            step_cursors(tables, taken, head(tables, taken, b).key),
            step_output(out, head(tables, taken, b)),
        ),
        forall|i: int|
            0 <= i < out.len() ==> lex_lt((#[trigger] out[i]).key, head(tables, taken, b).key),
{
    let winner = head(tables, taken, b);
    let m = winner.key;
    let next = step_cursors(tables, taken, m);
    let out2 = step_output(out, winner);
    lemma_step_fronts(tables, taken, b);
    lemma_winner_is_newest(tables, taken, out, b);
    assert(sorted_records(tables[b]));
    assert(record_wf(tables[b][taken[b]]));
    // everything written so far has a key smaller than the winning one
    assert forall|i: int| 0 <= i < out.len() implies lex_lt((#[trigger] out[i]).key, m) by {
        let keys = record_keys(out);
        assert(keys[i] == out[i].key);
        lemma_position_of(keys, i);
        assert(find_slot(out, out[i].key) is Some);
        assert(settled(tables, taken, out[i].key));
        assert(has_head(tables, taken, b));
    }
    if winner.value is Tombstone {
    } else {
        assert forall|i: int| 0 <= i < out2.len() implies (#[trigger] out2[i]).value is Value by {
            if i < out.len() {
                assert(out2[i] == out[i]);
            }
        }
    }
    lemma_find_slot_push(out, winner, m);
    // the key of every record taken is settled
    assert forall|j: int, r: int| 0 <= j < tables.len() && 0 <= r < next[j] implies settled(
        tables,
        next,
        (#[trigger] tables[j][r]).key,
    ) by {
        if r < taken[j] {
            assert(settled(tables, taken, tables[j][r].key));
        } else {
            assert(r == taken[j]);
            assert(has_head(tables, taken, j));
            assert(tables[j][r].key == m);
        }
    }
    assert forall|key: Seq<u8>| #[trigger]
        find_slot(out2, key) == if settled(tables, next, key) {
            visible(newest_slot(tables, key))
        } else {
            None
        } by {
        lemma_find_slot_push(out, winner, key);
        if key == m {
        } else if settled(tables, taken, key) {
        } else if settled(tables, next, key) {
            lemma_skipped_key(tables, taken, out, b, key);
        } else {
        }
    }
}

/// When no table has a record in front, the output is the merge.
pub proof fn lemma_merge_end(
    tables: Seq<Seq<RecordView>>,
    taken: Seq<int>,
    out: Seq<RecordView>,
)
    requires
        merge_inv(tables, taken, out),
        forall|j: int| 0 <= j < tables.len() ==> taken[j] == (#[trigger] tables[j]).len(),
    ensures
        is_merge_of(out, tables),
{
    assert forall|key: Seq<u8>| #[trigger]
        find_slot(out, key) == visible(newest_slot(tables, key)) by {
        assert forall|j: int| #[trigger] has_head(tables, taken, j) implies lex_lt(
            key,
            head(tables, taken, j).key,
        ) by {
            assert(taken[j] == tables[j].len());
        }
        assert(settled(tables, taken, key));
    }
}

/// Taking the last record away from a table takes its key away and changes
/// what is found under no other.
proof fn lemma_find_slot_drop_last(records: Seq<RecordView>, key: Seq<u8>)
    requires
        sorted_records(records),
        records.len() > 0,
    ensures
        sorted_records(records.drop_last()),
        find_slot(records.drop_last(), key) == if key == records.last().key {
            None
        } else {
            find_slot(records, key)
        },
{
    let front = records.drop_last();
    let last = records.last();
    let keys = record_keys(records);
    let fkeys = record_keys(front);
    let n = front.len() as int;
    assert forall|i: int, j: int| 0 <= i < j < fkeys.len() implies lex_lt(
        #[trigger] fkeys[i],
        #[trigger] fkeys[j],
    ) by {
        assert(fkeys[i] == keys[i] && fkeys[j] == keys[j]);
    }
    assert forall|i: int| 0 <= i < front.len() implies record_wf(#[trigger] front[i]) by {
        assert(front[i] == records[i]);
    }
    assert(record_wf(records[n]));
    assert forall|i: int| 0 <= i < front.len() implies lex_lt((#[trigger] front[i]).key, last.key) by {
        assert(keys[i] == front[i].key);
        assert(keys[n] == last.key);
    }
    assert(front.push(last) =~= records);
    lemma_find_slot_push(front, last, key);
    if key == last.key {
        if has_key(fkeys, key) {
            let p = position_of(fkeys, key);
            assert(fkeys[p] == front[p].key);
            lemma_lex_irreflexive(key);
        }
    }
}

/// A table is determined by what it holds: two tables that hold the same
/// slot under every key are the same run of records.
pub proof fn lemma_sorted_records_unique(a: Seq<RecordView>, b: Seq<RecordView>)
    requires
        sorted_records(a),
        sorted_records(b),
        forall|key: Seq<u8>| #[trigger] find_slot(a, key) == find_slot(b, key),
    ensures
        a == b,
    decreases a.len(),
{
    let akeys = record_keys(a);
    let bkeys = record_keys(b);
    if a.len() == 0 {
        if b.len() > 0 {
            assert(bkeys[0] == b[0].key);
            lemma_position_of(bkeys, 0);
            assert(find_slot(a, b[0].key) == find_slot(b, b[0].key));
        }
        assert(a =~= b);
    } else {
        let la = a.len() - 1;
        let ka = a[la].key;
        assert(akeys[la] == ka);
        lemma_position_of(akeys, la);
        assert(find_slot(a, ka) == find_slot(b, ka));
        let q = position_of(bkeys, ka);
        assert(bkeys[q] == ka);
        let lb = b.len() - 1;
        let kb = b[lb].key;
        assert(bkeys[lb] == kb);
        lemma_position_of(bkeys, lb);
        assert(find_slot(a, kb) == find_slot(b, kb));
        let p = position_of(akeys, kb);
        assert(akeys[p] == kb);
        lemma_ascending_order(akeys, p, la);
        lemma_ascending_order(bkeys, q, lb);
        if p < la {
            lemma_lex_asymmetric(kb, ka);
        }
        assert(ka == kb);
        assert(a[la].value == b[lb].value);
        assert(a.last() == b.last());
        assert forall|key: Seq<u8>| #[trigger]
            find_slot(a.drop_last(), key) == find_slot(b.drop_last(), key) by {
            lemma_find_slot_drop_last(a, key);
            lemma_find_slot_drop_last(b, key);
            assert(find_slot(a, key) == find_slot(b, key));
        }
        lemma_find_slot_drop_last(a, ka);
        lemma_find_slot_drop_last(b, ka);
        lemma_sorted_records_unique(a.drop_last(), b.drop_last());
        assert(a =~= a.drop_last().push(a.last()));
        assert(b =~= b.drop_last().push(b.last()));
    }
}

/// The merge of tables is one table and no other.
pub proof fn lemma_merge_unique(
    a: Seq<RecordView>,
    b: Seq<RecordView>,
    tables: Seq<Seq<RecordView>>,
)
    requires
        is_merge_of(a, tables),
        is_merge_of(b, tables),
    ensures
        a == b,
{
    assert forall|key: Seq<u8>| #[trigger] find_slot(a, key) == find_slot(b, key) by {
        assert(find_slot(a, key) == visible(newest_slot(tables, key)));
        assert(find_slot(b, key) == visible(newest_slot(tables, key)));
    }
    lemma_sorted_records_unique(a, b);
}

} // verus!
