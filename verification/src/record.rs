//! One record: a key with a typed value or a tombstone, and its binary form.
//!
//! On disk a record is, with all integers big-endian,
//! `u16 key_len | u16 val_len | u8 type_tag | key | payload`.
use vstd::prelude::*;
use vstd::slice::*;
use vstd::utf8::*;
use crate::bytes::{
    lemma_utf8_injective,
    lemma_i64_bits_roundtrip, lemma_u16_be_roundtrip, lemma_u64_be_roundtrip, push_u16_be,
    push_u64_be, read_u16_be, read_u64_be, string_from_utf8, u16_be, u16_from_be, u64_be,
    u64_from_be,
};
use crate::error::StoreError;

verus! {

/// Type tag of a UTF-8 string value.
pub const TAG_STR: u8 = 0;

/// Type tag of a signed 64-bit integer.
pub const TAG_INT64: u8 = 1;

/// Type tag of a 64-bit IEEE-754 number.
pub const TAG_FLOAT64: u8 = 2;

/// Type tag of a tombstone.
pub const TAG_TOMBSTONE: u8 = 255;

/// The longest key or payload that the two length fields can describe.
pub const MAX_FIELD_LEN: usize = 65535;

/// Bytes in front of the key: two lengths and the tag.
pub const HEADER_LEN: usize = 5;

/// A typed value. `Float64` holds the IEEE-754 bit pattern of the number, so
/// that every value, negative zero and the NaNs included, is kept bit for bit.
#[derive(Clone, Debug)]
pub enum Value {
    Str(String),
    Int64(i64),
    Float64(u64),
}

/// What a key maps to in a memtable or a table: a value, or the mark that
/// the key was deleted.
#[derive(Clone, Debug)]
pub enum MemValue {
    Value(Value),
    Tombstone,
}

/// The unit of persistence.
#[derive(Clone, Debug)]
pub struct Record {
    pub key: String,
    pub value: MemValue,
}

/// A value as mathematics: a string is its UTF-8 bytes.
pub enum ValueView {
    Str(Seq<u8>),
    Int64(i64),
    Float64(u64),
}

/// A slot as mathematics.
pub enum SlotView {
    Value(ValueView),
    Tombstone,
}

/// A record as mathematics: the key is its UTF-8 bytes.
pub struct RecordView {
    pub key: Seq<u8>,
    pub value: SlotView,
}

impl View for Value {
    type V = ValueView;

    open spec fn view(&self) -> ValueView {
        match self {
            Value::Str(s) => ValueView::Str(encode_utf8(s@)),
            Value::Int64(i) => ValueView::Int64(*i),
            Value::Float64(b) => ValueView::Float64(*b),
        }
    }
}

impl View for MemValue {
    type V = SlotView;

    open spec fn view(&self) -> SlotView {
        match self {
            MemValue::Value(v) => SlotView::Value(v@),
            MemValue::Tombstone => SlotView::Tombstone,
        }
    }
}

impl View for Record {
    type V = RecordView;

    open spec fn view(&self) -> RecordView {
        RecordView { key: encode_utf8(self.key@), value: self.value@ }
    }
}

/// The type tag under which a slot is written.
pub open spec fn slot_tag(v: SlotView) -> u8 {
    match v {
        SlotView::Value(ValueView::Str(_)) => TAG_STR,
        SlotView::Value(ValueView::Int64(_)) => TAG_INT64,
        SlotView::Value(ValueView::Float64(_)) => TAG_FLOAT64,
        SlotView::Tombstone => TAG_TOMBSTONE,
    }
}

/// The payload bytes of a slot: raw UTF-8, eight big-endian bytes, or nothing.
pub open spec fn slot_payload(v: SlotView) -> Seq<u8> {
    match v {
        SlotView::Value(ValueView::Str(s)) => s,
        SlotView::Value(ValueView::Int64(i)) => u64_be(i as u64),
        SlotView::Value(ValueView::Float64(b)) => u64_be(b),
        SlotView::Tombstone => Seq::empty(),
    }
}

/// A slot that can be written and read back: a string is UTF-8 and fits the
/// length field.
pub open spec fn slot_wf(v: SlotView) -> bool {
    v matches SlotView::Value(ValueView::Str(s)) ==> valid_utf8(s) && s.len() <= MAX_FIELD_LEN
}

/// A record that can be written and read back.
pub open spec fn record_wf(r: RecordView) -> bool {
    &&& valid_utf8(r.key)
    &&& r.key.len() <= MAX_FIELD_LEN
    &&& slot_wf(r.value)
}

/// The slot that a tag and a payload stand for, if any.
pub open spec fn decode_slot(tag: u8, payload: Seq<u8>) -> Option<SlotView> {
    if tag == TAG_STR {
        if valid_utf8(payload) {
            Some(SlotView::Value(ValueView::Str(payload)))
        } else {
            None
        }
    } else if tag == TAG_INT64 && payload.len() == 8 {
        Some(SlotView::Value(ValueView::Int64(u64_from_be(payload) as i64)))
    } else if tag == TAG_FLOAT64 && payload.len() == 8 {
        Some(SlotView::Value(ValueView::Float64(u64_from_be(payload))))
    } else if tag == TAG_TOMBSTONE {
        Some(SlotView::Tombstone)
    } else {
        None
    }
}

/// The binary form of a record.
pub open spec fn serialize_record(r: RecordView) -> Seq<u8> {
    u16_be(r.key.len() as u16) + u16_be(slot_payload(r.value).len() as u16) + seq![
        slot_tag(r.value),
    ] + r.key + slot_payload(r.value)
}

/// The length announced for the key of the record that starts at `pos`.
pub open spec fn header_key_len(data: Seq<u8>, pos: int) -> int {
    u16_from_be(data[pos], data[pos + 1]) as int
}

/// The length announced for the payload of the record that starts at `pos`.
pub open spec fn header_val_len(data: Seq<u8>, pos: int) -> int {
    u16_from_be(data[pos + 2], data[pos + 3]) as int
}

/// Whether `data` holds a whole record frame at `pos`: a header, and as many
/// bytes behind it as the header announces.
pub open spec fn frame_at(data: Seq<u8>, pos: int) -> bool {
    &&& 0 <= pos
    &&& pos + HEADER_LEN <= data.len()
    &&& pos + HEADER_LEN + header_key_len(data, pos) + header_val_len(data, pos) <= data.len()
}

/// The key bytes of the frame at `pos`.
pub open spec fn frame_key(data: Seq<u8>, pos: int) -> Seq<u8> {
    data.subrange(pos + HEADER_LEN, pos + HEADER_LEN + header_key_len(data, pos))
}

/// The payload bytes of the frame at `pos`.
pub open spec fn frame_payload(data: Seq<u8>, pos: int) -> Seq<u8> {
    data.subrange(
        pos + HEADER_LEN + header_key_len(data, pos),
        pos + HEADER_LEN + header_key_len(data, pos) + header_val_len(data, pos),
    )
}

/// Where the frame at `pos` ends, and the next one starts.
pub open spec fn frame_end(data: Seq<u8>, pos: int) -> int {
    pos + HEADER_LEN + header_key_len(data, pos) + header_val_len(data, pos)
}

/// The record that starts at `pos` in `data`, with the position behind it.
/// `None` where there is no well-formed record: the input is truncated, the
/// key or a string value is not UTF-8, the tag is unknown, or a fixed-width
/// value has a payload that is not eight bytes long.
pub open spec fn parse_record(data: Seq<u8>, pos: int) -> Option<(RecordView, int)> {
    if !frame_at(data, pos) {
        None
    } else if !valid_utf8(frame_key(data, pos)) {
        None
    } else {
        match decode_slot(data[pos + 4], frame_payload(data, pos)) {
            None => None,
            Some(slot) => Some(
                (RecordView { key: frame_key(data, pos), value: slot }, frame_end(data, pos)),
            ),
        }
    }
}

/// A slot decodes from its own tag and payload.
pub proof fn lemma_decode_slot_roundtrip(v: SlotView)
    requires
        slot_wf(v),
    ensures
        decode_slot(slot_tag(v), slot_payload(v)) == Some(v),
{
    match v {
        SlotView::Value(ValueView::Int64(i)) => {
            lemma_u64_be_roundtrip(i as u64);
            lemma_i64_bits_roundtrip(i);
        },
        SlotView::Value(ValueView::Float64(b)) => {
            lemma_u64_be_roundtrip(b);
        },
        _ => {},
    }
}

/// The payload of a well-formed slot fits the length field.
pub proof fn lemma_payload_len(v: SlotView)
    requires
        slot_wf(v),
    ensures
        slot_payload(v).len() <= MAX_FIELD_LEN,
{
    match v {
        SlotView::Value(ValueView::Int64(i)) => {
            lemma_u64_be_roundtrip(i as u64);
        },
        SlotView::Value(ValueView::Float64(b)) => {
            lemma_u64_be_roundtrip(b);
        },
        _ => {},
    }
}

/// Round trip: wherever the binary form of a well-formed record stands in a
/// byte string, parsing at that place gives the record back, key and variant
/// and payload, and ends right behind it.
pub proof fn lemma_record_roundtrip(prefix: Seq<u8>, r: RecordView, suffix: Seq<u8>)
    requires
        record_wf(r),
    ensures
        parse_record(prefix + serialize_record(r) + suffix, prefix.len() as int) == Some(
            (r, (prefix.len() + serialize_record(r).len()) as int),
        ),
        serialize_record(r).len() == HEADER_LEN + r.key.len() + slot_payload(r.value).len(),
{
    let body = serialize_record(r);
    let data = prefix + body + suffix;
    let pos = prefix.len() as int;
    let payload = slot_payload(r.value);
    lemma_payload_len(r.value);
    let kl = r.key.len() as u16;
    let vl = payload.len() as u16;
    lemma_u16_be_roundtrip(kl);
    lemma_u16_be_roundtrip(vl);
    assert(body.len() == 5 + r.key.len() + payload.len());
    assert(data[pos] == u16_be(kl)[0]);
    assert(data[pos + 1] == u16_be(kl)[1]);
    assert(data[pos + 2] == u16_be(vl)[0]);
    assert(data[pos + 3] == u16_be(vl)[1]);
    assert(data[pos + 4] == slot_tag(r.value));
    assert(header_key_len(data, pos) == r.key.len());
    assert(header_val_len(data, pos) == payload.len());
    assert(frame_key(data, pos) =~= r.key);
    assert(frame_payload(data, pos) =~= payload);
    lemma_decode_slot_roundtrip(r.value);
}

/// A record that parses takes at least a header, ends within the data, and
/// is well-formed.
pub proof fn lemma_parse_record_frame(data: Seq<u8>, pos: int)
    requires
        parse_record(data, pos) is Some,
    ensures
        parse_record(data, pos) matches Some((rec, next)) && pos + HEADER_LEN <= next <= data.len()
            && record_wf(rec),
{
    let key = frame_key(data, pos);
    let payload = frame_payload(data, pos);
    assert(header_key_len(data, pos) <= MAX_FIELD_LEN);
    assert(header_val_len(data, pos) <= MAX_FIELD_LEN);
}

impl Value {
    /// Number of payload bytes that the value takes on disk.
    pub fn len(&self) -> (n: usize)
        ensures
            n == slot_payload(SlotView::Value(self@)).len(),
    {
        match self {
            Value::Str(s) => s.as_str().as_bytes().len(),
            Value::Int64(i) => {
                proof { lemma_u64_be_roundtrip(*i as u64); }
                8
            },
            Value::Float64(b) => {
                proof { lemma_u64_be_roundtrip(*b); }
                8
            },
        }
    }

    /// A copy of the value.
    pub fn duplicate(&self) -> (r: Value)
        ensures
            r@ == self@,
    {
        match self {
            Value::Str(s) => Value::Str(s.clone()),
            Value::Int64(i) => Value::Int64(*i),
            Value::Float64(b) => Value::Float64(*b),
        }
    }
}

impl MemValue {
    /// The value in the slot; nothing for a tombstone.
    pub fn to_value(self) -> (r: Option<Value>)
        ensures
            match self {
                MemValue::Tombstone => r is None,
                MemValue::Value(v) => r == Some(v),
            },
    {
        match self {
            MemValue::Tombstone => None,
            MemValue::Value(value) => Some(value),
        }
    }

    /// The type tag under which the slot is written.
    pub fn type_tag(&self) -> (tag: u8)
        ensures
            tag == slot_tag(self@),
    {
        match self {
            MemValue::Value(Value::Str(_)) => TAG_STR,
            MemValue::Value(Value::Int64(_)) => TAG_INT64,
            MemValue::Value(Value::Float64(_)) => TAG_FLOAT64,
            MemValue::Tombstone => TAG_TOMBSTONE,
        }
    }

    /// Number of payload bytes that the slot takes on disk; none for a
    /// tombstone.
    pub fn len(&self) -> (n: usize)
        ensures
            n == slot_payload(self@).len(),
    {
        match self {
            MemValue::Value(v) => v.len(),
            MemValue::Tombstone => 0,
        }
    }

    /// A copy of the slot.
    pub fn duplicate(&self) -> (r: MemValue)
        ensures
            r@ == self@,
    {
        match self {
            MemValue::Value(v) => MemValue::Value(v.duplicate()),
            MemValue::Tombstone => MemValue::Tombstone,
        }
    }

    /// The payload bytes of the slot.
    pub fn serialize(&self) -> (bytes: Vec<u8>)
        ensures
            bytes@ == slot_payload(self@),
    {
        match self {
            MemValue::Value(Value::Str(s)) => slice_to_vec(s.as_str().as_bytes()),
            MemValue::Value(Value::Int64(i)) => {
                let mut out: Vec<u8> = Vec::new();
                push_u64_be(&mut out, *i as u64);
                assert(out@ =~= u64_be(*i as u64));
                out
            },
            MemValue::Value(Value::Float64(b)) => {
                let mut out: Vec<u8> = Vec::new();
                push_u64_be(&mut out, *b);
                assert(out@ =~= u64_be(*b));
                out
            },
            MemValue::Tombstone => Vec::new(),
        }
    }

    /// Reads a slot from its tag and payload. Fails with `CorruptRecord` on an
    /// unknown tag, on a string that is not UTF-8, and on an integer or a
    /// float whose payload is not eight bytes long.
    pub fn deserialize(tag: u8, bytes: &[u8]) -> (r: Result<MemValue, StoreError>)
        ensures
            match decode_slot(tag, bytes@) {
                Some(slot) => r is Ok && r->Ok_0@ == slot,
                None => r == Err::<MemValue, StoreError>(StoreError::CorruptRecord),
            },
    {
        if tag == TAG_STR {
            match string_from_utf8(slice_to_vec(bytes)) {
                Some(s) => Ok(MemValue::Value(Value::Str(s))),
                None => Err(StoreError::CorruptRecord),
            }
        } else if tag == TAG_INT64 && bytes.len() == 8 {
            let bits = read_u64_be(bytes, 0);
            assert(bytes@.subrange(0, 8) =~= bytes@);
            Ok(MemValue::Value(Value::Int64(bits as i64)))
        } else if tag == TAG_FLOAT64 && bytes.len() == 8 {
            let bits = read_u64_be(bytes, 0);
            assert(bytes@.subrange(0, 8) =~= bytes@);
            Ok(MemValue::Value(Value::Float64(bits)))
        } else if tag == TAG_TOMBSTONE {
            Ok(MemValue::Tombstone)
        } else {
            Err(StoreError::CorruptRecord)
        }
    }
}

/// Appends `src` to `out`.
pub fn append_bytes(out: &mut Vec<u8>, src: &[u8])
    ensures
        final(out)@ == old(out)@ + src@,
{
    let mut i: usize = 0;
    while i < src.len()
        invariant
            i <= src@.len(),
            out@ == old(out)@ + src@.subrange(0, i as int),
        decreases src@.len() - i,
    {
        out.push(src[i]);
        proof {
            assert(src@.subrange(0, i + 1) =~= src@.subrange(0, i as int).push(src@[i as int]));
            assert(out@ =~= old(out)@ + src@.subrange(0, i + 1));
        }
        i = i + 1;
    }
    assert(src@.subrange(0, i as int) =~= src@);
}

/// Appends the binary form of the record of `key` and `value` to `writer`
/// and returns the number of bytes that it takes.
pub fn write_record(key: &str, value: &MemValue, writer: &mut Vec<u8>) -> (n: u64)
    requires
        record_wf(RecordView { key: encode_utf8(key@), value: value@ }),
    ensures
        final(writer)@ == old(writer)@ + serialize_record(
            RecordView { key: encode_utf8(key@), value: value@ },
        ),
        n == serialize_record(RecordView { key: encode_utf8(key@), value: value@ }).len(),
{
    let ghost view = RecordView { key: encode_utf8(key@), value: value@ };
    let key_bytes = key.as_bytes();
    let val_bytes = value.serialize();
    let tag = value.type_tag();
    proof {
        lemma_payload_len(value@);
        lemma_u16_be_roundtrip(key_bytes@.len() as u16);
        lemma_u16_be_roundtrip(val_bytes@.len() as u16);
    }
    let key_len = key_bytes.len() as u16;
    let val_len = val_bytes.len() as u16;
    push_u16_be(writer, key_len);
    push_u16_be(writer, val_len);
    writer.push(tag);
    append_bytes(writer, key_bytes);
    append_bytes(writer, val_bytes.as_slice());
    assert(writer@ =~= old(writer)@ + serialize_record(view));
    (HEADER_LEN + key_bytes.len() + val_bytes.len()) as u64
}

/// Tells whether a key and a slot make a record that fits the binary form:
/// the key and a string value are at most 65535 bytes long.
pub fn entry_fits(key: &str, value: &MemValue) -> (b: bool)
    ensures
        b == record_wf(RecordView { key: encode_utf8(key@), value: value@ }),
{
    proof {
        encode_utf8_valid_utf8(key@);
        if let SlotView::Value(ValueView::Str(s)) = value@ {
            encode_utf8_valid_utf8(value->Value_0->Str_0@);
        }
    }
    key.as_bytes().len() <= MAX_FIELD_LEN && match value {
        MemValue::Value(Value::Str(s)) => s.as_str().as_bytes().len() <= MAX_FIELD_LEN,
        _ => true,
    }
}

impl Record {
    /// Whether the record fits the binary form: key and payload are at most
    /// 65535 bytes long.
    pub open spec fn wf(&self) -> bool {
        record_wf(self@)
    }

    /// Tells whether the key and the payload fit the two length fields.
    pub fn fits(&self) -> (b: bool)
        ensures
            b == self.wf(),
    {
        entry_fits(self.key.as_str(), &self.value)
    }

    /// Appends the binary form of the record to `writer` and returns the
    /// number of bytes that it takes.
    pub fn write_to(&self, writer: &mut Vec<u8>) -> (n: u64)
        requires
            self.wf(),
        ensures
            final(writer)@ == old(writer)@ + serialize_record(self@),
            n == serialize_record(self@).len(),
    {
        write_record(self.key.as_str(), &self.value, writer)
    }

    /// Reads the record that starts at `pos` in `data` and returns it with
    /// the position behind it. Fails with `CorruptRecord` where no
    /// well-formed record stands there.
    pub fn read_from(data: &[u8], pos: usize) -> (r: Result<(Record, usize), StoreError>)
        ensures
            match parse_record(data@, pos as int) {
                Some((rec, next)) => r is Ok && r->Ok_0.0@ == rec && r->Ok_0.1 == next,
                None => r == Err::<(Record, usize), StoreError>(StoreError::CorruptRecord),
            },
    {
        let len = data.len();
        if pos > len || len - pos < HEADER_LEN {
            return Err(StoreError::CorruptRecord);
        }
        let key_len = read_u16_be(data, pos) as usize;
        let val_len = read_u16_be(data, pos + 2) as usize;
        let tag = data[pos + 4];
        if len - pos - HEADER_LEN < key_len || len - pos - HEADER_LEN - key_len < val_len {
            return Err(StoreError::CorruptRecord);
        }
        let key_start = pos + HEADER_LEN;
        let val_start = key_start + key_len;
        let end = val_start + val_len;
        let key = match string_from_utf8(slice_to_vec(slice_subrange(data, key_start, val_start))) {
            Some(k) => k,
            None => {
                return Err(StoreError::CorruptRecord);
            },
        };
        match MemValue::deserialize(tag, slice_subrange(data, val_start, end)) {
            Ok(value) => Ok((Record { key, value }, end)),
            Err(e) => Err(e),
        }
    }
}

/// Records with the same bytes are the same record: the same key, the same
/// variant, and an equal payload, character for character and bit for bit.
pub proof fn lemma_record_view_injective(a: Record, b: Record)
    requires
        a@ == b@,
    ensures
        a.key@ == b.key@,
        match (a.value, b.value) {
            (MemValue::Tombstone, MemValue::Tombstone) => true,
            (MemValue::Value(Value::Str(x)), MemValue::Value(Value::Str(y))) => x@ == y@,
            (MemValue::Value(Value::Int64(x)), MemValue::Value(Value::Int64(y))) => x == y,
            (MemValue::Value(Value::Float64(x)), MemValue::Value(Value::Float64(y))) => x == y,
            _ => false,
        },
{
    lemma_utf8_injective(a.key@, b.key@);
    match (a.value, b.value) {
        (MemValue::Value(Value::Str(x)), MemValue::Value(Value::Str(y))) => {
            lemma_utf8_injective(x@, y@);
        },
        _ => {},
    }
}

} // verus!
