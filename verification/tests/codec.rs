use my_database::bytes::{compare_bytes, KeyOrder};
use my_database::error::StoreError;
use my_database::naming::{data_file_name, index_file_name};
use my_database::record::{MemValue, Record, Value};

fn text(s: &str) -> MemValue {
    MemValue::Value(Value::Str(s.to_string()))
}

fn same_slot(a: &MemValue, b: &MemValue) -> bool {
    match (a, b) {
        (MemValue::Tombstone, MemValue::Tombstone) => true,
        (MemValue::Value(Value::Str(x)), MemValue::Value(Value::Str(y))) => x == y,
        (MemValue::Value(Value::Int64(x)), MemValue::Value(Value::Int64(y))) => x == y,
        (MemValue::Value(Value::Float64(x)), MemValue::Value(Value::Float64(y))) => x == y,
        _ => false,
    }
}

#[test]
fn record_has_the_documented_layout() {
    let record = Record { key: "ab".to_string(), value: text("xyz") };
    let mut out = Vec::new();
    let n = record.write_to(&mut out);
    assert_eq!(n, 10);
    assert_eq!(out, vec![0, 2, 0, 3, 0, b'a', b'b', b'x', b'y', b'z']);
}

#[test]
fn int_payload_is_big_endian_twos_complement() {
    let record = Record { key: "k".to_string(), value: MemValue::Value(Value::Int64(-7)) };
    let mut out = Vec::new();
    let n = record.write_to(&mut out);
    assert_eq!(n, 14);
    assert_eq!(
        out,
        vec![0, 1, 0, 8, 1, b'k', 0xff, 0xff, 0xff, 0xff, 0xff, 0xff, 0xff, 0xf9]
    );
}

#[test]
fn float_payload_is_big_endian_ieee() {
    let bits = (1.5f64).to_bits();
    let record = Record { key: "f".to_string(), value: MemValue::Value(Value::Float64(bits)) };
    let mut out = Vec::new();
    record.write_to(&mut out);
    assert_eq!(out, vec![0, 1, 0, 8, 2, b'f', 0x3f, 0xf8, 0, 0, 0, 0, 0, 0]);
}

#[test]
fn tombstone_has_no_payload() {
    let record = Record { key: "gone".to_string(), value: MemValue::Tombstone };
    let mut out = Vec::new();
    let n = record.write_to(&mut out);
    assert_eq!(n, 9);
    assert_eq!(out, vec![0, 4, 0, 0, 0xff, b'g', b'o', b'n', b'e']);
}

#[test]
fn write_appends_behind_what_is_there() {
    let record = Record { key: "a".to_string(), value: MemValue::Tombstone };
    let mut out = vec![9u8, 9u8];
    record.write_to(&mut out);
    assert_eq!(out, vec![9, 9, 0, 1, 0, 0, 0xff, b'a']);
}

#[test]
fn round_trip_of_every_variant() {
    let values = vec![
        text(""),
        text("hello"),
        text("gr\u{00fc}\u{00df}e \u{1f600}"),
        MemValue::Value(Value::Int64(0)),
        MemValue::Value(Value::Int64(i64::MIN)),
        MemValue::Value(Value::Int64(i64::MAX)),
        MemValue::Value(Value::Float64((-0.0f64).to_bits())),
        MemValue::Value(Value::Float64(f64::NAN.to_bits())),
        MemValue::Value(Value::Float64(f64::MAX.to_bits())),
        MemValue::Tombstone,
    ];
    let mut out = vec![1u8, 2u8, 3u8];
    let mut starts = Vec::new();
    for (i, value) in values.iter().enumerate() {
        starts.push(out.len());
        let record = Record { key: format!("key-{}", i), value: value.clone() };
        assert!(record.fits());
        let before = out.len();
        let n = record.write_to(&mut out);
        assert_eq!(n as usize, out.len() - before);
    }
    for (i, value) in values.iter().enumerate() {
        let (record, next) = Record::read_from(&out, starts[i]).unwrap();
        assert_eq!(record.key, format!("key-{}", i));
        assert!(same_slot(&record.value, value));
        let end = if i + 1 < starts.len() { starts[i + 1] } else { out.len() };
        assert_eq!(next, end);
    }
}

#[test]
fn round_trip_keeps_an_empty_key_and_a_longest_key() {
    let long = "k".repeat(65535);
    for key in [String::new(), long] {
        let record = Record { key: key.clone(), value: text("v") };
        assert!(record.fits());
        let mut out = Vec::new();
        record.write_to(&mut out);
        let (back, next) = Record::read_from(&out, 0).unwrap();
        assert_eq!(back.key, key);
        assert_eq!(next, out.len());
    }
}

#[test]
fn a_key_of_65536_bytes_does_not_fit() {
    let record = Record { key: "k".repeat(65536), value: MemValue::Tombstone };
    assert!(!record.fits());
    let record = Record { key: "k".to_string(), value: text(&"v".repeat(65536)) };
    assert!(!record.fits());
}

#[test]
fn negative_zero_keeps_its_bit_pattern() {
    let bits = (-0.0f64).to_bits();
    let record = Record { key: "f".to_string(), value: MemValue::Value(Value::Float64(bits)) };
    let mut out = Vec::new();
    record.write_to(&mut out);
    let (back, _) = Record::read_from(&out, 0).unwrap();
    match back.value {
        MemValue::Value(Value::Float64(b)) => {
            assert_eq!(b, 0x8000_0000_0000_0000);
            assert!(f64::from_bits(b).is_sign_negative());
        }
        _ => panic!("not a float"),
    }
}

#[test]
fn truncated_input_is_a_corrupt_record() {
    let record = Record { key: "ab".to_string(), value: text("xyz") };
    let mut out = Vec::new();
    record.write_to(&mut out);
    for len in 0..out.len() {
        let r = Record::read_from(&out[..len], 0);
        assert_eq!(r.err(), Some(StoreError::CorruptRecord));
    }
    assert!(Record::read_from(&out, 0).is_ok());
    assert_eq!(Record::read_from(&out, 1).err(), Some(StoreError::CorruptRecord));
    assert_eq!(Record::read_from(&out, out.len() + 5).err(), Some(StoreError::CorruptRecord));
}

#[test]
fn unknown_tag_is_a_corrupt_record() {
    let bytes = vec![0, 1, 0, 0, 3, b'k'];
    assert_eq!(Record::read_from(&bytes, 0).err(), Some(StoreError::CorruptRecord));
    assert_eq!(MemValue::deserialize(7, &[]).err(), Some(StoreError::CorruptRecord));
}

#[test]
fn fixed_width_payload_must_be_eight_bytes() {
    assert_eq!(MemValue::deserialize(1, &[0; 7]).err(), Some(StoreError::CorruptRecord));
    assert_eq!(MemValue::deserialize(2, &[0; 9]).err(), Some(StoreError::CorruptRecord));
    assert!(MemValue::deserialize(1, &[0; 8]).is_ok());
    assert!(MemValue::deserialize(2, &[0; 8]).is_ok());
    let bytes = vec![0, 1, 0, 2, 1, b'k', 0, 0];
    assert_eq!(Record::read_from(&bytes, 0).err(), Some(StoreError::CorruptRecord));
}

#[test]
fn invalid_utf8_is_a_corrupt_record() {
    let bad_key = vec![0, 1, 0, 0, 0xff, 0xc3];
    assert_eq!(Record::read_from(&bad_key, 0).err(), Some(StoreError::CorruptRecord));
    let bad_value = vec![0, 1, 0, 1, 0, b'k', 0xff];
    assert_eq!(Record::read_from(&bad_value, 0).err(), Some(StoreError::CorruptRecord));
    assert_eq!(MemValue::deserialize(0, &[0xe2, 0x82]).err(), Some(StoreError::CorruptRecord));
}

#[test]
fn deserialize_reads_each_variant() {
    assert!(same_slot(&MemValue::deserialize(0, b"hi").unwrap(), &text("hi")));
    let int = MemValue::deserialize(1, &[0xff, 0xff, 0xff, 0xff, 0xff, 0xff, 0xff, 0xfe]).unwrap();
    assert!(same_slot(&int, &MemValue::Value(Value::Int64(-2))));
    let float = MemValue::deserialize(2, &[0x40, 0x09, 0x21, 0xfb, 0x54, 0x44, 0x2d, 0x18]).unwrap();
    assert!(same_slot(&float, &MemValue::Value(Value::Float64(std::f64::consts::PI.to_bits()))));
    assert!(same_slot(&MemValue::deserialize(255, &[]).unwrap(), &MemValue::Tombstone));
    assert!(same_slot(&MemValue::deserialize(255, &[1, 2]).unwrap(), &MemValue::Tombstone));
}

#[test]
fn type_tags_are_the_documented_ones() {
    assert_eq!(text("s").type_tag(), 0x00);
    assert_eq!(MemValue::Value(Value::Int64(1)).type_tag(), 0x01);
    assert_eq!(MemValue::Value(Value::Float64(1)).type_tag(), 0x02);
    assert_eq!(MemValue::Tombstone.type_tag(), 0xff);
}

#[test]
fn serialize_gives_the_payload() {
    assert_eq!(text("abc").serialize(), b"abc".to_vec());
    assert_eq!(
        MemValue::Value(Value::Int64(258)).serialize(),
        vec![0, 0, 0, 0, 0, 0, 1, 2]
    );
    assert_eq!(
        MemValue::Value(Value::Float64(0x0102030405060708)).serialize(),
        vec![1, 2, 3, 4, 5, 6, 7, 8]
    );
    assert_eq!(MemValue::Tombstone.serialize(), Vec::<u8>::new());
    assert_eq!(text("abc").len(), 3);
    assert_eq!(MemValue::Value(Value::Int64(258)).len(), 8);
    assert_eq!(MemValue::Tombstone.len(), 0);
}

#[test]
fn to_value_drops_the_tombstone() {
    assert!(MemValue::Tombstone.to_value().is_none());
    match MemValue::Value(Value::Int64(5)).to_value() {
        Some(Value::Int64(5)) => {}
        _ => panic!("value lost"),
    }
}

#[test]
fn keys_compare_byte_by_byte() {
    assert_eq!(compare_bytes(b"a", b"b"), KeyOrder::Less);
    assert_eq!(compare_bytes(b"b", b"a"), KeyOrder::Greater);
    assert_eq!(compare_bytes(b"abc", b"abc"), KeyOrder::Equal);
    assert_eq!(compare_bytes(b"ab", b"abc"), KeyOrder::Less);
    assert_eq!(compare_bytes(b"abc", b"ab"), KeyOrder::Greater);
    assert_eq!(compare_bytes(b"", b""), KeyOrder::Equal);
    assert_eq!(compare_bytes(b"", b"a"), KeyOrder::Less);
    assert_eq!(compare_bytes("Z".as_bytes(), "a".as_bytes()), KeyOrder::Less);
    assert_eq!(compare_bytes("\u{00e9}".as_bytes(), "z".as_bytes()), KeyOrder::Greater);
    for (a, b) in [("x", "y"), ("same", "same"), ("\u{1f600}", "~"), ("ab", "a")] {
        let expected = match a.as_bytes().cmp(b.as_bytes()) {
            std::cmp::Ordering::Less => KeyOrder::Less,
            std::cmp::Ordering::Equal => KeyOrder::Equal,
            std::cmp::Ordering::Greater => KeyOrder::Greater,
        };
        assert_eq!(compare_bytes(a.as_bytes(), b.as_bytes()), expected);
    }
}

#[test]
fn text_is_decoded_from_its_utf8_bytes() {
    match MemValue::deserialize(0, &[0xc3, 0xa9, b'!']).unwrap() {
        MemValue::Value(Value::Str(s)) => {
            assert_eq!(s, "\u{00e9}!");
            assert_eq!(s.chars().count(), 2);
        }
        _ => panic!("not a string"),
    }
    assert_eq!(MemValue::deserialize(0, &[0xc3]).err(), Some(StoreError::CorruptRecord));
    let bytes = vec![0, 2, 0, 0, 0xff, 0xc3, 0xa9];
    let (record, _) = Record::read_from(&bytes, 0).unwrap();
    assert_eq!(record.key, "\u{00e9}");
}

#[test]
fn file_names_are_five_digit_sequence_numbers() {
    assert_eq!(data_file_name(1), "00001.db");
    assert_eq!(index_file_name(1), "00001.idx");
    assert_eq!(data_file_name(0), "00000.db");
    assert_eq!(data_file_name(42), "00042.db");
    assert_eq!(index_file_name(99999), "99999.idx");
    assert_eq!(data_file_name(100000), "100000.db");
    assert_eq!(index_file_name(1234567), "1234567.idx");
    for n in [7usize, 10, 999, 10000, 65536] {
        assert_eq!(data_file_name(n), format!("{:0>5}.db", n));
        assert_eq!(index_file_name(n), format!("{:0>5}.idx", n));
    }
}

#[test]
fn errors_describe_themselves() {
    let all = [
        StoreError::NotFound,
        StoreError::CorruptManifest,
        StoreError::CorruptRecord,
        StoreError::CorruptIndex,
        StoreError::CorruptTable,
        StoreError::VersionMismatch,
        StoreError::InvariantViolation,
    ];
    for (i, a) in all.iter().enumerate() {
        assert!(!a.describe().is_empty());
        for b in all.iter().skip(i + 1) {
            assert_ne!(a.describe(), b.describe());
        }
    }
}
