//! The store as mathematics: a stack of layers, the memtable on top and the
//! tables below it, the newest first. This module says what reading,
//! writing, flushing and compacting do to the stack, and proves the laws
//! that make the store a map from keys to values.
use vstd::prelude::*;
use crate::merge::newest_slot;
use crate::ordered::{has_key, position_of};
use crate::record::{RecordView, SlotView, ValueView};
use crate::table::{find_slot, record_keys};

verus! {

/// One layer of the store: what a memtable or a table holds for each of its
/// keys.
pub type Layer = Map<Seq<u8>, SlotView>;

/// The layer that a run of records stands for.
pub open spec fn table_layer(records: Seq<RecordView>) -> Layer {
    Map::new(
        |k: Seq<u8>| has_key(record_keys(records), k),
        |k: Seq<u8>| records[position_of(record_keys(records), k)].value,
    )
}

/// The layers of several tables.
pub open spec fn table_layers(tables: Seq<Seq<RecordView>>) -> Seq<Layer> {
    Seq::new(tables.len(), |i: int| table_layer(tables[i]))
}

/// The slot that counts for `key`: that of the topmost layer that holds it.
pub open spec fn stack_slot(layers: Seq<Layer>, key: Seq<u8>) -> Option<SlotView>
    decreases layers.len(),
{
    if layers.len() == 0 {
        None
    } else if layers[0].dom().contains(key) {
        Some(layers[0][key])
    } else {
        stack_slot(layers.drop_first(), key)
    }
}

/// What a reader gets for `key`: the value of the slot that counts, and
/// nothing where that is a tombstone or no layer holds the key.
pub open spec fn stack_get(layers: Seq<Layer>, key: Seq<u8>) -> Option<ValueView> {
    match stack_slot(layers, key) {
        Some(SlotView::Value(v)) => Some(v),
        _ => None,
    }
}

/// The one layer that a full merge of `tables` leaves: the values that
/// count, without the tombstones.
pub open spec fn merged_layer(tables: Seq<Layer>) -> Layer {
    Map::new(
        |k: Seq<u8>| stack_slot(tables, k) matches Some(SlotView::Value(_)),
        |k: Seq<u8>| stack_slot(tables, k)->0,
    )
}

/// An operation on the store.
pub enum StoreOp {
    Put { key: Seq<u8>, value: ValueView },
    Delete { key: Seq<u8> },
    Flush,
    Compact,
}

/// The stack after an operation. Layer 0 is the memtable.
///
/// A write puts a slot into the memtable. A flush turns the memtable into
/// the newest table and starts an empty one; an empty memtable is not
/// flushed. A compaction of two tables or more leaves the memtable and the
/// merge of the tables, or the memtable alone where the merge holds nothing.
pub open spec fn apply_op(layers: Seq<Layer>, op: StoreOp) -> Seq<Layer>
    recommends
        layers.len() >= 1,
{
    match op {
        StoreOp::Put { key, value } => layers.update(
            0,
            layers[0].insert(key, SlotView::Value(value)),
        ),
        StoreOp::Delete { key } => layers.update(0, layers[0].insert(key, SlotView::Tombstone)),
        StoreOp::Flush => if layers[0].dom() =~= Set::empty() {
            layers
        } else {
            seq![Map::empty()] + layers
        },
        StoreOp::Compact => if layers.len() < 3 {
            layers
        } else if merged_layer(layers.drop_first()).dom() =~= Set::empty() {
            seq![layers[0]]
        } else {
            seq![layers[0], merged_layer(layers.drop_first())]
        },
    }
}

/// The stack after a run of operations, the first one first.
pub open spec fn apply_ops(layers: Seq<Layer>, ops: Seq<StoreOp>) -> Seq<Layer>
    decreases ops.len(),
{
    if ops.len() == 0 {
        layers
    } else {
        apply_op(apply_ops(layers, ops.drop_last()), ops.last())
    }
}

/// What the last write to `key` among `ops` left: a value for a set,
/// nothing for a delete. `None` where no operation wrote to the key.
pub open spec fn last_write(ops: Seq<StoreOp>, key: Seq<u8>) -> Option<Option<ValueView>>
    decreases ops.len(),
{
    if ops.len() == 0 {
        None
    } else {
        match ops.last() {
            StoreOp::Put { key: k, value } => if k == key {
                Some(Some(value))
            } else {
                last_write(ops.drop_last(), key)
            },
            StoreOp::Delete { key: k } => if k == key {
                Some(None)
            } else {
                last_write(ops.drop_last(), key)
            },
            _ => last_write(ops.drop_last(), key),
        }
    }
}

/// A layer made of records holds what is found in the records.
pub proof fn lemma_table_layer(records: Seq<RecordView>, key: Seq<u8>)
    ensures
        find_slot(records, key) == if table_layer(records).dom().contains(key) {
            Some(table_layer(records)[key])
        } else {
            None
        },
{
}

/// The slot that counts among tables is the slot that counts among their
/// layers.
pub proof fn lemma_newest_slot_is_stack_slot(tables: Seq<Seq<RecordView>>, key: Seq<u8>)
    ensures
        newest_slot(tables, key) == stack_slot(table_layers(tables), key),
    decreases tables.len(),
{
    if tables.len() > 0 {
        lemma_table_layer(tables[0], key);
        assert(table_layers(tables)[0] == table_layer(tables[0]));
        assert(table_layers(tables).drop_first() =~= table_layers(tables.drop_first()));
        lemma_newest_slot_is_stack_slot(tables.drop_first(), key);
    }
}

/// A write is seen at once: after a set the key reads as the value, after a
/// delete as absent, and every other key reads as before.
pub proof fn lemma_write_visible(layers: Seq<Layer>, op: StoreOp, key: Seq<u8>)
    requires
        layers.len() >= 1,
    ensures
        op matches StoreOp::Put { key: k, value } ==> stack_get(apply_op(layers, op), key) == if k
            == key {
            Some(value)
        } else {
            stack_get(layers, key)
        },
        op matches StoreOp::Delete { key: k } ==> stack_get(apply_op(layers, op), key) == if k
            == key {
            None
        } else {
            stack_get(layers, key)
        },
{
    let after = apply_op(layers, op);
    match op {
        StoreOp::Put { .. } => {
            assert(after.drop_first() =~= layers.drop_first());
        },
        StoreOp::Delete { .. } => {
            assert(after.drop_first() =~= layers.drop_first());
        },
        _ => {},
    }
}

/// Flush transparency: a flush changes what no key reads as.
pub proof fn lemma_flush_transparent(layers: Seq<Layer>, key: Seq<u8>)
    requires
        layers.len() >= 1,
    ensures
        stack_get(apply_op(layers, StoreOp::Flush), key) == stack_get(layers, key),
{
    let after = apply_op(layers, StoreOp::Flush);
    if !(layers[0].dom() =~= Set::empty()) {
        assert(after.drop_first() =~= layers);
    }
}

/// Compaction transparency: a compaction changes what no key reads as.
pub proof fn lemma_compaction_transparent(layers: Seq<Layer>, key: Seq<u8>)
    requires
        layers.len() >= 1,
    ensures
        stack_get(apply_op(layers, StoreOp::Compact), key) == stack_get(layers, key),
{
    let after = apply_op(layers, StoreOp::Compact);
    if layers.len() >= 3 {
        let tables = layers.drop_first();
        let merged = merged_layer(tables);
        let below = after.drop_first();
        assert(after[0] == layers[0]);
        if merged.dom() =~= Set::empty() {
            assert(below =~= Seq::<Layer>::empty());
            assert(!merged.dom().contains(key));
            assert(stack_slot(below, key) is None);
        } else {
            assert(below =~= seq![merged]);
            assert(below[0] == merged);
            assert(below.drop_first() =~= Seq::<Layer>::empty());
            assert(stack_slot(below.drop_first(), key) is None);
            assert(stack_slot(below, key) == if merged.dom().contains(key) {
                Some(merged[key])
            } else {
                None
            });
        }
    }
}

/// No operation takes the memtable away.
pub proof fn lemma_apply_ops_keeps_memtable(layers: Seq<Layer>, ops: Seq<StoreOp>)
    requires
        layers.len() >= 1,
    ensures
        apply_ops(layers, ops).len() >= 1,
    decreases ops.len(),
{
    if ops.len() > 0 {
        lemma_apply_ops_keeps_memtable(layers, ops.drop_last());
    }
}

/// Shadowing: after any run of operations, a key reads as the value of the
/// last set of it, unless a delete of it came later, in which case it reads
/// as absent; a key that no operation wrote to reads as before.
pub proof fn lemma_shadowing(layers: Seq<Layer>, ops: Seq<StoreOp>, key: Seq<u8>)
    requires
        layers.len() >= 1,
    ensures
        stack_get(apply_ops(layers, ops), key) == match last_write(ops, key) {
            Some(written) => written,
            None => stack_get(layers, key),
        },
    decreases ops.len(),
{
    if ops.len() > 0 {
        let before = apply_ops(layers, ops.drop_last());
        lemma_apply_ops_keeps_memtable(layers, ops.drop_last());
        lemma_shadowing(layers, ops.drop_last(), key);
        match ops.last() {
            StoreOp::Flush => {
                lemma_flush_transparent(before, key);
            },
            StoreOp::Compact => {
                lemma_compaction_transparent(before, key);
            },
            _ => {
                lemma_write_visible(before, ops.last(), key);
            },
        }
    }
}

} // verus!
