//! Byte-level building blocks: the lexicographic order in which keys are
//! kept, big-endian integers, and the UTF-8 boundary between byte strings and
//! `String`.
use vstd::prelude::*;
use vstd::utf8::*;

verus! {

/// Strict lexicographic order on byte strings: the order in which keys are
/// kept in memory and on disk.
pub open spec fn lex_lt(a: Seq<u8>, b: Seq<u8>) -> bool
    decreases a.len(),
{
    if b.len() == 0 {
        false
    } else if a.len() == 0 {
        true
    } else if a[0] != b[0] {
        a[0] < b[0]
    } else {
        lex_lt(a.drop_first(), b.drop_first())
    }
}

/// `a` comes before `b` or is `b`.
pub open spec fn lex_le(a: Seq<u8>, b: Seq<u8>) -> bool {
    a == b || lex_lt(a, b)
}

/// No byte string comes before itself.
pub proof fn lemma_lex_irreflexive(a: Seq<u8>)
    ensures
        !lex_lt(a, a),
    decreases a.len(),
{
    if a.len() > 0 {
        lemma_lex_irreflexive(a.drop_first());
    }
}

/// Two byte strings are never each before the other.
pub proof fn lemma_lex_asymmetric(a: Seq<u8>, b: Seq<u8>)
    requires
        lex_lt(a, b),
    ensures
        !lex_lt(b, a),
        a != b,
    decreases a.len(),
{
    lemma_lex_irreflexive(a);
    if a.len() > 0 && b.len() > 0 && a[0] == b[0] {
        lemma_lex_asymmetric(a.drop_first(), b.drop_first());
    }
}

/// The order is transitive.
pub proof fn lemma_lex_transitive(a: Seq<u8>, b: Seq<u8>, c: Seq<u8>)
    requires
        lex_lt(a, b),
        lex_lt(b, c),
    ensures
        lex_lt(a, c),
    decreases a.len(),
{
    if a.len() > 0 && b.len() > 0 && c.len() > 0 && a[0] == b[0] && b[0] == c[0] {
        lemma_lex_transitive(a.drop_first(), b.drop_first(), c.drop_first());
    }
}

/// The order is total: of two different byte strings one comes first.
pub proof fn lemma_lex_total(a: Seq<u8>, b: Seq<u8>)
    ensures
        a == b || lex_lt(a, b) || lex_lt(b, a),
    decreases a.len(),
{
    if a.len() == 0 || b.len() == 0 {
        if a.len() == 0 && b.len() == 0 {
            assert(a =~= b);
        }
    } else if a[0] == b[0] {
        lemma_lex_total(a.drop_first(), b.drop_first());
        if a.drop_first() == b.drop_first() {
            assert(a =~= seq![a[0]] + a.drop_first());
            assert(b =~= seq![b[0]] + b.drop_first());
        }
    }
}

/// `a <= b < c` gives `a < c`.
pub proof fn lemma_lex_le_lt(a: Seq<u8>, b: Seq<u8>, c: Seq<u8>)
    requires
        lex_le(a, b),
        lex_lt(b, c),
    ensures
        lex_lt(a, c),
{
    if a != b {
        lemma_lex_transitive(a, b, c);
    }
}

/// `a < b <= c` gives `a < c`.
pub proof fn lemma_lex_lt_le(a: Seq<u8>, b: Seq<u8>, c: Seq<u8>)
    requires
        lex_lt(a, b),
        lex_le(b, c),
    ensures
        lex_lt(a, c),
{
    if b != c {
        lemma_lex_transitive(a, b, c);
    }
}

/// The outcome of comparing two keys.
#[derive(Clone, Copy, Debug, PartialEq, Eq, Structural)]
pub enum KeyOrder {
    Less,
    Equal,
    Greater,
}

/// What `compare_bytes` returns, as mathematics.
pub open spec fn key_order(a: Seq<u8>, b: Seq<u8>) -> KeyOrder {
    if a == b {
        KeyOrder::Equal
    } else if lex_lt(a, b) {
        KeyOrder::Less
    } else {
        KeyOrder::Greater
    }
}

proof fn lemma_lex_skip(a: Seq<u8>, b: Seq<u8>, i: int)
    requires
        0 <= i <= a.len(),
        i <= b.len(),
        a.subrange(0, i) == b.subrange(0, i),
    ensures
        lex_lt(a, b) == lex_lt(a.skip(i), b.skip(i)),
        (a == b) == (a.skip(i) == b.skip(i)),
    decreases i,
{
    if i == 0 {
        assert(a.skip(0) =~= a);
        assert(b.skip(0) =~= b);
    } else {
        assert(a.subrange(0, i - 1) =~= a.subrange(0, i).subrange(0, i - 1));
        assert(b.subrange(0, i - 1) =~= b.subrange(0, i).subrange(0, i - 1));
        lemma_lex_skip(a, b, i - 1);
        let a1 = a.skip(i - 1);
        let b1 = b.skip(i - 1);
        assert(a1[0] == a.subrange(0, i)[i - 1]);
        assert(b1[0] == b.subrange(0, i)[i - 1]);
        assert(a1.drop_first() =~= a.skip(i));
        assert(b1.drop_first() =~= b.skip(i));
        if a.skip(i) == b.skip(i) {
            assert(a1 =~= seq![a1[0]] + a1.drop_first());
            assert(b1 =~= seq![b1[0]] + b1.drop_first());
        }
    }
}

/// Compares two byte strings in lexicographic order.
pub fn compare_bytes(a: &[u8], b: &[u8]) -> (r: KeyOrder)
    ensures
        r == key_order(a@, b@),
{
    let mut i: usize = 0;
    while i < a.len() && i < b.len()
        invariant
            i <= a@.len(),
            i <= b@.len(),
            a@.subrange(0, i as int) == b@.subrange(0, i as int),
        decreases a@.len() - i,
    {
        if a[i] != b[i] {
            proof {
                lemma_lex_skip(a@, b@, i as int);
                let a1 = a@.skip(i as int);
                let b1 = b@.skip(i as int);
                assert(a1[0] == a@[i as int]);
                assert(b1[0] == b@[i as int]);
                if a[i as int] < b[i as int] {
                    lemma_lex_asymmetric(a@, b@);
                }
            }
            if a[i] < b[i] {
                return KeyOrder::Less;
            } else {
                return KeyOrder::Greater;
            }
        }
        proof {
            assert(a@.subrange(0, i + 1) =~= a@.subrange(0, i as int).push(a@[i as int]));
            assert(b@.subrange(0, i + 1) =~= b@.subrange(0, i as int).push(b@[i as int]));
        }
        i = i + 1;
    }
    proof {
        lemma_lex_skip(a@, b@, i as int);
        if i == a@.len() && i == b@.len() {
            assert(a@.skip(i as int) =~= b@.skip(i as int));
        } else if i == a@.len() {
            assert(a@.skip(i as int).len() == 0);
            assert(b@.skip(i as int).len() > 0);
            lemma_lex_asymmetric(a@, b@);
        } else {
            assert(b@.skip(i as int).len() == 0);
            assert(a@.skip(i as int).len() > 0);
        }
    }
    if a.len() == b.len() {
        KeyOrder::Equal
    } else if a.len() < b.len() {
        KeyOrder::Less
    } else {
        KeyOrder::Greater
    }
}

/// The two bytes of `x`, most significant first.
pub open spec fn u16_be(x: u16) -> Seq<u8> {
    seq![(x >> 8) as u8, x as u8]
}

/// The number whose big-endian bytes are `hi`, `lo`.
pub open spec fn u16_from_be(hi: u8, lo: u8) -> u16 {
    ((hi as u16) << 8) | (lo as u16)
}

/// The eight bytes of `x`, most significant first.
pub open spec fn u64_be(x: u64) -> Seq<u8> {
    seq![
        (x >> 56) as u8,
        (x >> 48) as u8,
        (x >> 40) as u8,
        (x >> 32) as u8,
        (x >> 24) as u8,
        (x >> 16) as u8,
        (x >> 8) as u8,
        x as u8,
    ]
}

/// The number whose big-endian bytes are the first eight of `s`.
pub open spec fn u64_from_be(s: Seq<u8>) -> u64 {
    ((s[0] as u64) << 56) | ((s[1] as u64) << 48) | ((s[2] as u64) << 40) | ((s[3] as u64) << 32)
        | ((s[4] as u64) << 24) | ((s[5] as u64) << 16) | ((s[6] as u64) << 8) | (s[7] as u64)
}

/// Decoding the big-endian bytes of a 16-bit number gives it back.
pub proof fn lemma_u16_be_roundtrip(x: u16)
    ensures
        u16_be(x).len() == 2,
        u16_from_be(u16_be(x)[0], u16_be(x)[1]) == x,
{
    assert((((x >> 8) as u8) as u16) << 8 | ((x as u8) as u16) == x) by (bit_vector);
}

/// Decoding the big-endian bytes of a 64-bit number gives it back.
pub proof fn lemma_u64_be_roundtrip(x: u64)
    ensures
        u64_be(x).len() == 8,
        u64_from_be(u64_be(x)) == x,
{
    assert(((((x >> 56) as u8) as u64) << 56) | ((((x >> 48) as u8) as u64) << 48) | ((((x >> 40) as u8)
        as u64) << 40) | ((((x >> 32) as u8) as u64) << 32) | ((((x >> 24) as u8) as u64) << 24) | ((((x
        >> 16) as u8) as u64) << 16) | ((((x >> 8) as u8) as u64) << 8) | ((x as u8) as u64) == x)
        by (bit_vector);
}

/// A signed 64-bit number and its two's complement bit pattern determine
/// each other.
pub proof fn lemma_i64_bits_roundtrip(i: i64)
    ensures
        ((i as u64) as i64) == i,
{
    assert(((i as u64) as i64) == i) by (bit_vector);
}

/// Appends the two bytes of `x`, most significant first.
pub fn push_u16_be(out: &mut Vec<u8>, x: u16)
    ensures
        final(out)@ == old(out)@ + u16_be(x),
{
    out.push((x >> 8) as u8);
    out.push(x as u8);
    assert(out@ =~= old(out)@ + u16_be(x));
}

/// Appends the eight bytes of `x`, most significant first.
pub fn push_u64_be(out: &mut Vec<u8>, x: u64)
    ensures
        final(out)@ == old(out)@ + u64_be(x),
{
    out.push((x >> 56) as u8);
    out.push((x >> 48) as u8);
    out.push((x >> 40) as u8);
    out.push((x >> 32) as u8);
    out.push((x >> 24) as u8);
    out.push((x >> 16) as u8);
    out.push((x >> 8) as u8);
    out.push(x as u8);
    assert(out@ =~= old(out)@ + u64_be(x));
}

/// Reads the 16-bit big-endian number at `pos`.
pub fn read_u16_be(data: &[u8], pos: usize) -> (x: u16)
    requires
        pos + 2 <= data@.len(),
    ensures
        x == u16_from_be(data@[pos as int], data@[pos + 1]),
{
    ((data[pos] as u16) << 8) | (data[pos + 1] as u16)
}

/// Reads the 64-bit big-endian number at `pos`.
pub fn read_u64_be(data: &[u8], pos: usize) -> (x: u64)
    requires
        pos + 8 <= data@.len(),
    ensures
        x == u64_from_be(data@.subrange(pos as int, pos + 8)),
{
    let x = ((data[pos] as u64) << 56) | ((data[pos + 1] as u64) << 48) | ((data[pos + 2] as u64)
        << 40) | ((data[pos + 3] as u64) << 32) | ((data[pos + 4] as u64) << 24) | ((data[pos
        + 5] as u64) << 16) | ((data[pos + 6] as u64) << 8) | (data[pos + 7] as u64);
    x
}

/// `String::from_utf8` of std: the bytes become a `String` exactly when they
/// are well-formed UTF-8, and the `String` then holds those very bytes.
/// Nothing of this is proved here; it is what std documents.
#[verifier::external_body]
pub(crate) fn string_from_utf8(bytes: Vec<u8>) -> (r: Option<String>)
    ensures
        r is Some <==> valid_utf8(bytes@),
        r matches Some(s) ==> encode_utf8(s@) == bytes@,
{
    String::from_utf8(bytes).ok()
}

/// Bytes below 128 are well-formed UTF-8: each is one ASCII character.
pub proof fn lemma_ascii_is_utf8(bytes: Seq<u8>)
    requires
        forall|i: int| 0 <= i < bytes.len() ==> #[trigger] bytes[i] < 128,
    ensures
        valid_utf8(bytes),
{
    let chars = Seq::new(bytes.len(), |i: int| bytes[i] as char);
    assert(is_ascii_chars(chars));
    is_ascii_chars_encode_utf8(chars);
    assert forall|i: int| 0 <= i < bytes.len() implies encode_utf8(chars)[i] == bytes[i] by {
        assert(chars[i] as u8 == encode_utf8(chars)[i]);
        assert(chars[i] == bytes[i] as char);
    }
    assert(encode_utf8(chars) =~= bytes);
    encode_utf8_valid_utf8(chars);
}

/// Two strings with the same UTF-8 bytes are the same string.
pub proof fn lemma_utf8_injective(a: Seq<char>, b: Seq<char>)
    requires
        encode_utf8(a) == encode_utf8(b),
    ensures
        a == b,
{
    encode_utf8_decode_utf8(a);
    encode_utf8_decode_utf8(b);
}

} // verus!
