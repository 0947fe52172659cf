//! Compaction: the merge of all live tables into one. Every table is read
//! front to back through a reader of its own; the front records compete, the
//! smallest key wins, the newest table wins among equal keys, older versions
//! of the key are passed over, and tombstones are not written.
use vstd::prelude::*;
use vstd::utf8::encode_utf8;
use crate::bytes::{compare_bytes, lemma_lex_irreflexive, lemma_lex_total, lex_le, KeyOrder};
use crate::error::StoreError;
use crate::memtable::{lemma_sampled_ascending, sampled};
use crate::merge::{
    all_sorted, cursors_ok, has_head, head, is_merge_of, is_winner, lemma_merge_end,
    lemma_merge_start, lemma_merge_step, merge_inv, step_cursors, step_output,
};
use crate::ordered::{ascending, OrderedMap};
use crate::record::{
    lemma_parse_record_frame, parse_record, record_wf, write_record, MemValue, Record, RecordView,
    MAX_FIELD_LEN,
};
use crate::sparse_index::{
    entry_keys, entry_offsets, index_keys_wf, lemma_append_last, lemma_insert_keys_wf, SparseIndex,
};
use crate::table::{
    lemma_records_len, lemma_serialize_records_push, offset_of, parse_table, prepend_records,
    record_at, records_wf, serialize_records,
};

verus! {

/// The bytes of input `j`; none for an input that is missing.
pub open spec fn input_data(inputs: Seq<Option<Vec<u8>>>, j: int) -> Seq<u8> {
    match inputs[j] {
        Some(bytes) => bytes@,
        None => Seq::empty(),
    }
}

/// Whether every input is there.
pub open spec fn all_present(inputs: Seq<Option<Vec<u8>>>) -> bool {
    forall|j: int| 0 <= j < inputs.len() ==> (#[trigger] inputs[j]) is Some
}

/// Whether every input reads as a table from its first byte to its last.
pub open spec fn all_readable(inputs: Seq<Option<Vec<u8>>>) -> bool {
    forall|j: int| 0 <= j < inputs.len() ==> (#[trigger] parse_table(input_data(inputs, j), 0)) is Some
}

/// The bytes of input `j`.
fn input(inputs: &[Option<Vec<u8>>], j: usize) -> (data: &[u8])
    requires
        j < inputs@.len(),
        all_present(inputs@),
    ensures
        data@ == input_data(inputs@, j as int),
{
    match &inputs[j] {
        Some(bytes) => bytes.as_slice(),
        None => vstd::pervasive::unreached(),
    }
}

/// The records of every input, where it reads as a table.
pub open spec fn parsed_tables(inputs: Seq<Option<Vec<u8>>>) -> Seq<Seq<RecordView>> {
    Seq::new(
        inputs.len(),
        |j: int|
            match parse_table(input_data(inputs, j), 0) {
                Some(records) => records,
                None => Seq::empty(),
            },
    )
}

/// What a merge leaves behind: `out` is the merge of the tables, its bytes
/// stand behind what the output held before, and the index holds an entry
/// for every `stride`-th record of `out`.
pub open spec fn merge_result(
    out: Seq<RecordView>,
    tables: Seq<Seq<RecordView>>,
    before: Seq<u8>,
    after: Seq<u8>,
    index_keys: Seq<Seq<u8>>,
    index_offsets: Seq<u64>,
    stride: int,
) -> bool {
    &&& is_merge_of(out, tables)
    &&& after == before + serialize_records(out)
    &&& index_keys == entry_keys(sampled(out, stride, before.len() as int))
    &&& index_offsets == entry_offsets(sampled(out, stride, before.len() as int))
}

/// Reads the next record of a table, or tells that the table has ended.
fn next_record(data: &[u8], pos: usize) -> (r: Result<Option<(Record, usize)>, StoreError>)
    requires
        pos <= data@.len(),
    ensures
        match r {
            Ok(None) => data@.len() - pos < 2,
            Ok(Some((record, next))) => {
                &&& data@.len() - pos >= 2
                &&& parse_record(data@, pos as int) == Some((record@, next as int))
                &&& pos < next <= data@.len()
            },
            Err(e) => {
                &&& e == StoreError::CorruptRecord
                &&& data@.len() - pos >= 2
                &&& parse_record(data@, pos as int) is None
            },
        },
{
    if data.len() - pos < 2 {
        return Ok(None);
    }
    match Record::read_from(data, pos) {
        Ok((record, next)) => {
            proof {
                lemma_parse_record_frame(data@, pos as int);
            }
            Ok(Some((record, next)))
        },
        Err(e) => Err(e),
    }
}

/// What holds of one reader: it stands at `pos`; `consumed` are the records
/// that it has read; `front` is the last of them, still to be merged, or
/// nothing where the table has ended.
spec fn reader_state(
    data: Seq<u8>,
    pos: int,
    front: Option<RecordView>,
    consumed: Seq<RecordView>,
) -> bool {
    &&& 0 <= pos <= data.len()
    &&& prepend_records(consumed, parse_table(data, pos)) == parse_table(data, 0)
    &&& records_wf(consumed)
    &&& match front {
        Some(h) => consumed.len() > 0 && consumed.last() == h,
        None => parse_table(data, pos) == Some(Seq::<RecordView>::empty()),
    }
}

/// The sum of `weights`.
spec fn total(weights: Seq<int>) -> int
    decreases weights.len(),
{
    if weights.len() == 0 {
        0
    } else {
        total(weights.drop_last()) + weights.last()
    }
}

proof fn lemma_total_bounds(weights: Seq<int>)
    requires
        forall|j: int| 0 <= j < weights.len() ==> #[trigger] weights[j] >= 0,
    ensures
        total(weights) >= 0,
    decreases weights.len(),
{
    if weights.len() > 0 {
        let front = weights.drop_last();
        assert forall|j: int| 0 <= j < front.len() implies #[trigger] front[j] >= 0 by {
            assert(front[j] == weights[j]);
        }
        lemma_total_bounds(front);
        assert(weights.last() == weights[weights.len() - 1]);
    }
}

/// What the readers still have to do is never negative.
proof fn lemma_weights_bounds(f: Frontier, inputs: Seq<Option<Vec<u8>>>)
    requires
        f.wf(inputs),
    ensures
        total(f.weights(inputs)) >= 0,
{
    let weights = f.weights(inputs);
    assert forall|j: int| 0 <= j < weights.len() implies #[trigger] weights[j] >= 0 by {
        assert(reader_state(input_data(inputs, j), f.positions@[j] as int, f.front(j), f.consumed@[j]));
    }
    lemma_total_bounds(weights);
}

proof fn lemma_total_update(weights: Seq<int>, j: int, w: int)
    requires
        0 <= j < weights.len(),
    ensures
        total(weights.update(j, w)) == total(weights) - weights[j] + w,
    decreases weights.len(),
{
    let n = weights.len() - 1;
    if j == n {
        assert(weights.update(j, w).drop_last() =~= weights.drop_last());
    } else {
        assert(weights.update(j, w).drop_last() =~= weights.drop_last().update(j, w));
        lemma_total_update(weights.drop_last(), j, w);
    }
}

/// The readers of a merge with the record in front of each: what the merge
/// keeps in place of a heap. The place in the vectors is the age of the
/// table, the newest first.
struct Frontier {
    positions: Vec<usize>,
    fronts: Vec<Option<Record>>,
    consumed: Ghost<Seq<Seq<RecordView>>>,
}

impl Frontier {
    /// Number of readers.
    spec fn len(&self) -> int {
        self.fronts@.len() as int
    }

    /// The record in front of reader `j`, as mathematics.
    spec fn front(&self, j: int) -> Option<RecordView> {
        match self.fronts@[j] {
            Some(record) => Some(record@),
            None => None,
        }
    }

    /// The records in front of the readers.
    spec fn front_views(&self) -> Seq<Option<RecordView>> {
        Seq::new(self.fronts@.len(), |j: int| self.front(j))
    }

    /// Every reader is in order with its input.
    spec fn wf(&self, inputs: Seq<Option<Vec<u8>>>) -> bool {
        &&& self.positions@.len() == self.fronts@.len()
        &&& self.consumed@.len() == self.fronts@.len()
        &&& self.fronts@.len() <= inputs.len()
        &&& forall|j: int|
            0 <= j < self.fronts@.len() ==> reader_state(
                input_data(inputs, j),
                self.positions@[j] as int,
                #[trigger] self.front(j),
                self.consumed@[j],
            )
    }

    /// For every reader, the number of records that are merged already.
    spec fn taken(&self) -> Seq<int> {
        Seq::new(
            self.fronts@.len(),
            |j: int|
                self.consumed@[j].len() - if self.fronts@[j] is Some {
                    1int
                } else {
                    0int
                },
        )
    }

    /// For every reader, what it still has to do.
    spec fn weights(&self, inputs: Seq<Option<Vec<u8>>>) -> Seq<int> {
        Seq::new(
            self.fronts@.len(),
            |j: int|
                input_data(inputs, j).len() - self.positions@[j] + if self.fronts@[j] is Some {
                    1int
                } else {
                    0int
                },
        )
    }

    /// Opens a reader on every input and reads the first record of each.
    fn open(inputs: &[Option<Vec<u8>>]) -> (r: Result<Frontier, StoreError>)
        requires
            all_present(inputs@),
        ensures
            match r {
                Ok(f) => {
                    &&& f.wf(inputs@)
                    &&& f.len() == inputs@.len()
                    &&& f.taken() == Seq::new(inputs@.len(), |j: int| 0int)
                },
                Err(e) => e == StoreError::CorruptRecord && !all_readable(inputs@),
            },
    {
        let mut f = Frontier { positions: Vec::new(), fronts: Vec::new(), consumed: Ghost(Seq::empty()) };
        let mut j: usize = 0;
        while j < inputs.len()
            invariant
                all_present(inputs@),
                j <= inputs@.len(),
                f.len() == j,
                f.wf(inputs@),
                forall|i: int| 0 <= i < j ==> #[trigger] f.taken()[i] == 0,
            decreases inputs@.len() - j,
        {
            let ghost before = f;
            let data = input(inputs, j);
            let ghost first: Seq<RecordView>;
            match next_record(data, 0) {
                Ok(Some((record, next))) => {
                    proof {
                        first = seq![record@];
                        lemma_parse_record_frame(data@, 0);
                        match parse_table(data@, next as int) {
                            None => {},
                            Some(rest) => {
                                assert(record_at(data@, 0) == record@);
                            },
                        }
                    }
                    f.positions.push(next);
                    f.fronts.push(Some(record));
                },
                Ok(None) => {
                    proof {
                        first = Seq::empty();
                        assert(first + Seq::<RecordView>::empty() =~= Seq::<RecordView>::empty());
                    }
                    f.positions.push(0);
                    f.fronts.push(None);
                },
                Err(e) => {
                    assert(parse_table(input_data(inputs@, j as int), 0) is None);
                    return Err(e);
                },
            }
            proof {
                f.consumed@ = before.consumed@.push(first);
                assert forall|i: int| 0 <= i < f.len() implies reader_state(
                    input_data(inputs@, i),
                    f.positions@[i] as int,
                    #[trigger] f.front(i),
                    f.consumed@[i],
                ) by {
                    if i < j {
                        assert(f.front(i) == before.front(i));
                        assert(reader_state(
                            input_data(inputs@, i),
                            before.positions@[i] as int,
                            before.front(i),
                            before.consumed@[i],
                        ));
                    }
                }
                assert forall|i: int| 0 <= i < j + 1 implies #[trigger] f.taken()[i] == 0 by {
                    if i < j {
                        assert(before.taken()[i] == 0);
                    }
                }
            }
            j = j + 1;
        }
        assert(f.taken() =~= Seq::new(inputs@.len(), |j: int| 0int));
        Ok(f)
    }

    /// Finds the front that wins: the smallest key, and the newest table
    /// among the fronts with that key. Nothing where every table has ended.
    fn select(&self) -> (r: Option<usize>)
        ensures
            match r {
                None => forall|j: int| 0 <= j < self.len() ==> self.fronts@[j] is None,
                Some(b) => {
                    &&& b < self.len()
                    &&& self.fronts@[b as int] is Some
                    &&& forall|j: int|
                        0 <= j < self.len() && self.fronts@[j] is Some ==> lex_le(
                            self.front(b as int)->0.key,
                            (#[trigger] self.front(j))->0.key,
                        )
                    &&& forall|j: int|
                        0 <= j < b && self.fronts@[j] is Some ==> (#[trigger] self.front(j))->0.key
                            != self.front(b as int)->0.key
                },
            },
    {
        let mut best: Option<usize> = None;
        let mut j: usize = 0;
        while j < self.fronts.len()
            invariant
                j <= self.len(),
                match best {
                    None => forall|i: int| 0 <= i < j ==> self.fronts@[i] is None,
                    Some(b) => {
                        &&& b < j
                        &&& self.fronts@[b as int] is Some
                        &&& forall|i: int|
                            0 <= i < j && self.fronts@[i] is Some ==> lex_le(
                                self.front(b as int)->0.key,
                                (#[trigger] self.front(i))->0.key,
                            )
                        &&& forall|i: int|
                            0 <= i < b && self.fronts@[i] is Some ==> (#[trigger] self.front(
                                i,
                            ))->0.key != self.front(b as int)->0.key
                    },
                },
            decreases self.len() - j,
        {
            match &self.fronts[j] {
                None => {},
                Some(candidate) => {
                    match best {
                        None => {
                            best = Some(j);
                        },
                        Some(b) => {
                            let current = match &self.fronts[b] {
                                Some(record) => record,
                                None => candidate,
                            };
                            let ghost ck = self.front(j as int)->0.key;
                            let ghost bk = self.front(b as int)->0.key;
                            match compare_bytes(
                                candidate.key.as_str().as_bytes(),
                                current.key.as_str().as_bytes(),
                            ) {
                                KeyOrder::Less => {
                                    proof {
                                        lemma_lex_irreflexive(ck);
                                        assert forall|i: int|
                                            0 <= i < j + 1 && self.fronts@[i] is Some implies lex_le(
                                            ck,
                                            (#[trigger] self.front(i))->0.key,
                                        ) by {
                                            if i < j {
                                                crate::bytes::lemma_lex_lt_le(
                                                    ck,
                                                    bk,
                                                    self.front(i)->0.key,
                                                );
                                            }
                                        }
                                        assert forall|i: int|
                                            0 <= i < j && self.fronts@[i] is Some implies (
                                        #[trigger] self.front(i))->0.key != ck by {
                                            crate::bytes::lemma_lex_lt_le(
                                                ck,
                                                bk,
                                                self.front(i)->0.key,
                                            );
                                        }
                                    }
                                    best = Some(j);
                                },
                                KeyOrder::Equal => {},
                                KeyOrder::Greater => {
                                    proof {
                                        lemma_lex_total(ck, bk);
                                    }
                                },
                            }
                        },
                    }
                },
            }
            j = j + 1;
        }
        best
    }

    /// Moves reader `j` on: its front record is done with, the next record
    /// of its table comes to the front.
    fn refill(&mut self, inputs: &[Option<Vec<u8>>], j: usize) -> (r: Result<(), StoreError>)
        requires
            all_present(inputs@),
            old(self).wf(inputs@),
            old(self).len() == inputs@.len(),
            j < old(self).len(),
            old(self).fronts@[j as int] is Some,
        ensures
            match r {
                Ok(_) => {
                    &&& final(self).wf(inputs@)
                    &&& final(self).len() == old(self).len()
                    &&& final(self).taken() == old(self).taken().update(
                        j as int,
                        old(self).taken()[j as int] + 1,
                    )
                    &&& forall|i: int|
                        0 <= i < old(self).len() && i != j ==> #[trigger] final(self).front(i)
                            == old(self).front(i)
                    &&& total(final(self).weights(inputs@)) < total(old(self).weights(inputs@))
                },
                Err(e) => e == StoreError::CorruptRecord && !all_readable(inputs@),
            },
    {
        let ghost before = *self;
        let data = input(inputs, j);
        let pos = self.positions[j];
        assert(reader_state(
            input_data(inputs@, j as int),
            before.positions@[j as int] as int,
            before.front(j as int),
            before.consumed@[j as int],
        ));
        let ghost read: Seq<RecordView>;
        match next_record(data, pos) {
            Ok(Some((record, next))) => {
                proof {
                    read = before.consumed@[j as int].push(record@);
                    lemma_parse_record_frame(data@, pos as int);
                    assert(record_at(data@, pos as int) == record@);
                    match parse_table(data@, next as int) {
                        None => {},
                        Some(rest) => {
                            assert(before.consumed@[j as int] + (seq![record@] + rest) =~= read
                                + rest);
                        },
                    }
                    assert forall|i: int| 0 <= i < read.len() implies record_wf(#[trigger] read[i]) by {
                        if i < read.len() - 1 {
                            assert(read[i] == before.consumed@[j as int][i]);
                        }
                    }
                }
                self.positions.set(j, next);
                self.fronts.set(j, Some(record));
            },
            Ok(None) => {
                proof {
                    read = before.consumed@[j as int];
                }
                self.fronts.set(j, None);
            },
            Err(e) => {
                assert(parse_table(input_data(inputs@, j as int), 0) is None);
                return Err(e);
            },
        }
        proof {
            self.consumed@ = before.consumed@.update(j as int, read);
            assert forall|i: int| 0 <= i < self.len() implies reader_state(
                input_data(inputs@, i),
                self.positions@[i] as int,
                #[trigger] self.front(i),
                self.consumed@[i],
            ) by {
                if i != j {
                    assert(self.front(i) == before.front(i));
                    assert(reader_state(
                        input_data(inputs@, i),
                        before.positions@[i] as int,
                        before.front(i),
                        before.consumed@[i],
                    ));
                }
            }
            assert(self.taken() =~= before.taken().update(j as int, before.taken()[j as int] + 1));
            let w = self.weights(inputs@)[j as int];
            assert(self.weights(inputs@) =~= before.weights(inputs@).update(j as int, w));
            lemma_total_update(before.weights(inputs@), j as int, w);
        }
        Ok(())
    }
}

/// With every input readable, the readers stand in the tables where their
/// counts say, and the fronts are the records there.
proof fn lemma_frontier_view(f: Frontier, inputs: Seq<Option<Vec<u8>>>)
    requires
        f.wf(inputs),
        f.len() == inputs.len(),
        all_readable(inputs),
    ensures
        cursors_ok(parsed_tables(inputs), f.taken()),
        forall|j: int|
            0 <= j < f.len() ==> (#[trigger] f.fronts@[j] is Some) == has_head(
                parsed_tables(inputs),
                f.taken(),
                j,
            ),
        forall|j: int|
            0 <= j < f.len() && f.fronts@[j] is Some ==> (#[trigger] f.front(j)) == Some(
                head(parsed_tables(inputs), f.taken(), j),
            ),
{
    let tables = parsed_tables(inputs);
    let taken = f.taken();
    assert forall|j: int| 0 <= j < f.len() implies 0 <= #[trigger] taken[j] <= tables[j].len() && (
    f.fronts@[j] is Some) == has_head(tables, taken, j) && (f.fronts@[j] is Some ==> f.front(j)
        == Some(head(tables, taken, j))) by {
        assert(reader_state(input_data(inputs, j), f.positions@[j] as int, f.front(j), f.consumed@[j]));
        assert(parse_table(input_data(inputs, j), 0) is Some);
        let rest = parse_table(input_data(inputs, j), f.positions@[j] as int)->0;
        assert(tables[j] == f.consumed@[j] + rest);
        if f.fronts@[j] is Some {
            assert(tables[j][taken[j]] == f.consumed@[j].last());
        } else {
            assert(tables[j] =~= f.consumed@[j]);
        }
    }
}

/// The counts after a step of the merge: reader `b` has moved on, and so has
/// every reader behind it, up to `upto`, whose front had the key `key`.
spec fn drained(
    fronts: Seq<Option<RecordView>>,
    taken: Seq<int>,
    b: int,
    key: Seq<u8>,
    upto: int,
) -> Seq<int> {
    Seq::new(
        taken.len(),
        |i: int|
            if i == b || (b < i < upto && fronts[i] is Some && fronts[i]->0.key == key) {
                taken[i] + 1
            } else {
                taken[i]
            },
    )
}

/// What `select` says of the front that it picks.
spec fn picked(f: Frontier, b: int) -> bool {
    &&& 0 <= b < f.len()
    &&& f.fronts@[b] is Some
    &&& forall|j: int|
        0 <= j < f.len() && f.fronts@[j] is Some ==> lex_le(
            f.front(b)->0.key,
            (#[trigger] f.front(j))->0.key,
        )
    &&& forall|j: int|
        0 <= j < b && f.fronts@[j] is Some ==> (#[trigger] f.front(j))->0.key != f.front(b)->0.key
}

impl Frontier {
    /// Passes over the key of front `b`: reader `b` moves on, and so does
    /// every older reader whose front has the same key.
    fn drain(&mut self, inputs: &[Option<Vec<u8>>], b: usize, key: &str) -> (r: Result<(), StoreError>)
        requires
            all_present(inputs@),
            old(self).wf(inputs@),
            old(self).len() == inputs@.len(),
            b < old(self).len(),
            old(self).fronts@[b as int] is Some,
            old(self).front(b as int)->0.key == encode_utf8(key@),
        ensures
            match r {
                Ok(_) => {
                    &&& final(self).wf(inputs@)
                    &&& final(self).len() == old(self).len()
                    &&& final(self).taken() == drained(
                        old(self).front_views(),
                        old(self).taken(),
                        b as int,
                        encode_utf8(key@),
                        old(self).len(),
                    )
                    &&& total(final(self).weights(inputs@)) < total(old(self).weights(inputs@))
                },
                Err(e) => e == StoreError::CorruptRecord && !all_readable(inputs@),
            },
    {
        let ghost before = *self;
        let ghost fronts_before = self.front_views();
        let ghost taken_before = self.taken();
        let ghost wanted = encode_utf8(key@);
        let n = inputs.len();
        match self.refill(inputs, b) {
            Ok(_) => {},
            Err(e) => {
                return Err(e);
            },
        }
        assert(self.taken() =~= drained(fronts_before, taken_before, b as int, wanted, b + 1));
        let mut j: usize = b + 1;
        while j < inputs.len()
            invariant
                all_present(inputs@),
                b < j <= inputs@.len(),
                self.wf(inputs@),
                self.len() == inputs@.len(),
                fronts_before.len() == inputs@.len(),
                taken_before.len() == inputs@.len(),
                wanted == encode_utf8(key@),
                self.taken() == drained(fronts_before, taken_before, b as int, wanted, j as int),
                forall|i: int|
                    j <= i < inputs@.len() ==> #[trigger] self.front(i) == fronts_before[i],
                total(self.weights(inputs@)) < total(before.weights(inputs@)),
            decreases inputs@.len() - j,
        {
            let same = match &self.fronts[j] {
                None => false,
                Some(record) => {
                    assert(self.front(j as int) == Some(record@));
                    match compare_bytes(record.key.as_str().as_bytes(), key.as_bytes()) {
                        KeyOrder::Equal => true,
                        _ => false,
                    }
                },
            };
            let ghost mid = *self;
            if same {
                match self.refill(inputs, j) {
                    Ok(_) => {},
                    Err(e) => {
                        return Err(e);
                    },
                }
            }
            proof {
                assert(mid.front(j as int) == fronts_before[j as int]);
                assert(self.taken() =~= drained(
                    fronts_before,
                    taken_before,
                    b as int,
                    wanted,
                    j + 1,
                ));
            }
            j = j + 1;
        }
        Ok(())
    }
}

/// One round of the merge, seen from the tables: the front that `select`
/// picks is the winner, passing over its key is a step of the cursors, and
/// what holds between the steps still holds.
proof fn lemma_round(
    before: Frontier,
    after: Frontier,
    inputs: Seq<Option<Vec<u8>>>,
    b: int,
    out: Seq<RecordView>,
)
    requires
        before.wf(inputs),
        before.len() == inputs.len(),
        all_readable(inputs),
        all_sorted(parsed_tables(inputs)),
        merge_inv(parsed_tables(inputs), before.taken(), out),
        picked(before, b),
        after.taken() == drained(
            before.front_views(),
            before.taken(),
            b,
            before.front(b)->0.key,
            before.len(),
        ),
    ensures
        merge_inv(parsed_tables(inputs), after.taken(), step_output(out, before.front(b)->0)),
{
    let tables = parsed_tables(inputs);
    let taken = before.taken();
    let winner = before.front(b)->0;
    lemma_frontier_view(before, inputs);
    assert(before.fronts@[b] is Some);
    assert(before.front(b) == Some(head(tables, taken, b)));
    assert(is_winner(tables, taken, b)) by {
        assert forall|i: int| #[trigger] has_head(tables, taken, i) implies lex_le(
            head(tables, taken, b).key,
            head(tables, taken, i).key,
        ) by {
            assert(before.fronts@[i] is Some);
            assert(before.front(i) == Some(head(tables, taken, i)));
        }
        assert forall|i: int|
            #[trigger] has_head(tables, taken, i) && head(tables, taken, i).key == head(
                tables,
                taken,
                b,
            ).key implies b <= i by {
            assert(before.fronts@[i] is Some);
            assert(before.front(i) == Some(head(tables, taken, i)));
        }
    }
    lemma_merge_step(tables, taken, out, b);
    assert(after.taken() =~= step_cursors(tables, taken, winner.key)) by {
        assert forall|i: int| 0 <= i < inputs.len() implies after.taken()[i]
            == #[trigger] step_cursors(tables, taken, winner.key)[i] by {
            assert((before.fronts@[i] is Some) == has_head(tables, taken, i));
            assert(before.front_views()[i] == before.front(i));
            if before.fronts@[i] is Some {
                assert(before.front(i) == Some(head(tables, taken, i)));
            }
        }
    }
}

/// When every table has ended, every input was readable, and the output is
/// the merge of the tables.
proof fn lemma_finish(f: Frontier, inputs: Seq<Option<Vec<u8>>>, out: Seq<RecordView>)
    requires
        f.wf(inputs),
        f.len() == inputs.len(),
        forall|j: int| 0 <= j < f.len() ==> f.fronts@[j] is None,
        all_readable(inputs) && all_sorted(parsed_tables(inputs)) ==> merge_inv(
            parsed_tables(inputs),
            f.taken(),
            out,
        ),
    ensures
        all_readable(inputs),
        all_sorted(parsed_tables(inputs)) ==> is_merge_of(out, parsed_tables(inputs)),
{
    let tables = parsed_tables(inputs);
    assert forall|j: int| 0 <= j < inputs.len() implies parse_table(input_data(inputs, j), 0)
        is Some by {
        assert(f.fronts@[j] is None);
        assert(reader_state(input_data(inputs, j), f.positions@[j] as int, f.front(j), f.consumed@[j]));
    }
    if all_sorted(tables) {
        lemma_frontier_view(f, inputs);
        assert forall|j: int| 0 <= j < tables.len() implies f.taken()[j] == (#[trigger] tables[j]).len() by {
            assert(f.fronts@[j] is None);
            assert(!has_head(tables, f.taken(), j));
        }
        lemma_merge_end(tables, f.taken(), out);
    }
}

/// What holds of the output and the index while records are written: the
/// output holds `out` behind what it held at first, and the index holds what
/// the stride selects from `out`, as far as that is in ascending order.
spec fn written(
    out: Seq<RecordView>,
    first: Seq<u8>,
    output: Seq<u8>,
    index: SparseIndex,
    stride: int,
) -> bool {
    &&& output == first + serialize_records(out)
    &&& records_wf(out)
    &&& index.wf()
    &&& index_keys_wf(index.keys())
    &&& ascending(entry_keys(sampled(out, stride, first.len() as int))) ==> index.keys()
        == entry_keys(sampled(out, stride, first.len() as int)) && index.values()
        == entry_offsets(sampled(out, stride, first.len() as int))
}

/// Writes one record of the merged table, and its index entry where the
/// stride asks for one.
fn emit(
    record: &Record,
    output: &mut Vec<u8>,
    index: &mut SparseIndex,
    count: usize,
    index_stride: usize,
    Ghost(out): Ghost<Seq<RecordView>>,
    Ghost(first): Ghost<Seq<u8>>,
)
    requires
        index_stride >= 1,
        count == out.len(),
        record_wf(record@),
        written(out, first, old(output)@, *old(index), index_stride as int),
    ensures
        written(out.push(record@), first, final(output)@, *final(index), index_stride as int),
        out.len() < usize::MAX,
{
    let ghost stride = index_stride as int;
    let ghost base = first.len() as int;
    let ghost view = record@;
    let ghost next = out.push(view);
    let ghost entries = sampled(out, stride, base);
    let ghost index_before = *index;
    let offset = output.len() as u64;
    proof {
        lemma_records_len(out);
        lemma_serialize_records_push(out, view);
        assert(next.take(out.len() as int) =~= out);
        assert(next.drop_last() =~= out);
        assert(offset_of(next, out.len() as int) == serialize_records(out).len());
    }
    if count % index_stride == 0 {
        index.insert(record.key.clone(), offset);
        proof {
            assert forall|i: int| 0 <= i < index.keys().len() implies (#[trigger] index.keys()[i]).len()
                <= MAX_FIELD_LEN && vstd::utf8::valid_utf8(index.keys()[i]) by {
                lemma_insert_keys_wf(index_before.keys(), index.keys(), view.key, i);
            }
            assert(sampled(next, stride, base) == entries.push((view.key, offset)));
            if ascending(entry_keys(sampled(next, stride, base))) {
                lemma_append_last(index_before, *index, entries, view.key, offset);
            }
        }
    } else {
        assert(sampled(next, stride, base) == entries);
    }
    write_record(record.key.as_str(), &record.value, output);
    proof {
        assert(output@ =~= first + serialize_records(next));
        assert forall|i: int| 0 <= i < next.len() implies record_wf(#[trigger] next[i]) by {
            if i < next.len() - 1 {
                assert(next[i] == out[i]);
            }
        }
    }
}

/// Merges the tables that `inputs` hold, the newest first, into one table.
/// The records of that table are appended to `output`; the sparse index that
/// is returned has an entry for every `index_stride`-th of them, counting
/// from zero. A missing input fails the merge with `NotFound`; an input that
/// does not read as a table from its first byte to its last fails it with
/// `CorruptRecord`.
pub fn compact_sstable_set(inputs: &[Option<Vec<u8>>], output: &mut Vec<u8>, index_stride: usize) -> (r:
    Result<SparseIndex, StoreError>)
    requires
        index_stride >= 1,
    ensures
        !all_present(inputs@) ==> r == Err::<SparseIndex, StoreError>(StoreError::NotFound),
        all_present(inputs@) && !all_readable(inputs@) ==> r == Err::<SparseIndex, StoreError>(
            StoreError::CorruptRecord,
        ),
        all_present(inputs@) && all_readable(inputs@) ==> r is Ok,
        r matches Ok(index) ==> index.wf() && index_keys_wf(index.keys()),
        r matches Ok(index) ==> (all_sorted(parsed_tables(inputs@)) ==> exists|out: Seq<RecordView>|
            #[trigger] merge_result(
                out,
                parsed_tables(inputs@),
                old(output)@,
                final(output)@,
                index.keys(),
                index.values(),
                index_stride as int,
            )),
{
    let ghost tables = parsed_tables(inputs@);
    let ghost first = old(output)@;
    let ghost stride = index_stride as int;
    let mut present: usize = 0;
    while present < inputs.len()
        invariant
            present <= inputs@.len(),
            forall|j: int| 0 <= j < present ==> (#[trigger] inputs@[j]) is Some,
        decreases inputs@.len() - present,
    {
        if inputs[present].is_none() {
            return Err(StoreError::NotFound);
        }
        present = present + 1;
    }
    let mut frontier = match Frontier::open(inputs) {
        Ok(f) => f,
        Err(e) => {
            return Err(e);
        },
    };
    let mut index: SparseIndex = OrderedMap::new();
    let mut count: usize = 0;
    let ghost mut out: Seq<RecordView> = Seq::empty();
    proof {
        assert(output@ =~= first + serialize_records(out));
        assert(entry_keys(sampled(out, stride, first.len() as int)) =~= index.keys());
        assert(entry_offsets(sampled(out, stride, first.len() as int)) =~= index.values());
        if all_readable(inputs@) && all_sorted(tables) {
            lemma_merge_start(tables);
        }
    }
    let mut pick = frontier.select();
    while pick.is_some()
        invariant
            all_present(inputs@),
            index_stride >= 1,
            stride == index_stride,
            first == old(output)@,
            tables == parsed_tables(inputs@),
            frontier.wf(inputs@),
            frontier.len() == inputs@.len(),
            count == out.len(),
            written(out, first, output@, index, stride),
            all_readable(inputs@) && all_sorted(tables) ==> merge_inv(tables, frontier.taken(), out),
            match pick {
                Some(b) => picked(frontier, b as int),
                None => forall|j: int| 0 <= j < frontier.len() ==> frontier.fronts@[j] is None,
            },
        decreases total(frontier.weights(inputs@)),
    {
        let b = match pick {
            Some(b) => b,
            None => 0,
        };
        let ghost before = frontier;
        let ghost out_before = out;
        let ghost winner = frontier.front(b as int)->0;
        assert(record_wf(winner)) by {
            assert(reader_state(
                input_data(inputs@, b as int),
                frontier.positions@[b as int] as int,
                frontier.front(b as int),
                frontier.consumed@[b as int],
            ));
            assert(frontier.consumed@[b as int].last() == winner);
        }
        let key: String;
        match &frontier.fronts[b] {
            None => {
                key = vstd::pervasive::unreached();
            },
            Some(record) => {
                key = record.key.clone();
                match &record.value {
                    MemValue::Tombstone => {},
                    MemValue::Value(_) => {
                        emit(record, output, &mut index, count, index_stride, Ghost(out), Ghost(first));
                        count = count + 1;
                        proof {
                            out = out.push(winner);
                        }
                    },
                }
            },
        }
        assert(out == step_output(out_before, winner));
        match frontier.drain(inputs, b, key.as_str()) {
            Ok(_) => {},
            Err(e) => {
                return Err(e);
            },
        }
        proof {
            lemma_weights_bounds(before, inputs@);
            lemma_weights_bounds(frontier, inputs@);
            if all_readable(inputs@) && all_sorted(tables) {
                lemma_round(before, frontier, inputs@, b as int, out_before);
            }
        }
        pick = frontier.select();
    }
    proof {
        lemma_finish(frontier, inputs@, out);
        if all_sorted(tables) {
            lemma_sampled_ascending(out, stride, first.len() as int);
            assert(merge_result(
                out,
                tables,
                old(output)@,
                output@,
                index.keys(),
                index.values(),
                stride,
            ));
        }
    }
    Ok(index)
}

} // verus!
