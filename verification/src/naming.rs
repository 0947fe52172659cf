//! The names of the files of a table: the sequence number as a decimal
//! number, padded with zeros to five digits, and `.db` for the data file or
//! `.idx` for the sparse index.
use vstd::prelude::*;
use vstd::utf8::encode_utf8;
use crate::bytes::{lemma_ascii_is_utf8, string_from_utf8};
use crate::record::append_bytes;

verus! {

/// Digits in a padded sequence number.
pub const SEQUENCE_WIDTH: usize = 5;

/// The ASCII digit for `d`.
pub open spec fn digit(d: nat) -> u8 {
    (48 + d) as u8
}

/// The decimal digits of `n`, the last one first.
pub open spec fn rev_digits(n: nat) -> Seq<u8>
    decreases n,
{
    if n < 10 {
        seq![digit(n)]
    } else {
        seq![digit(n % 10)] + rev_digits(n / 10)
    }
}

/// `s` with as many zero digits behind it as it takes to reach `width`.
pub open spec fn pad_zeros(s: Seq<u8>, width: nat) -> Seq<u8>
    decreases width - s.len(),
{
    if s.len() >= width {
        s
    } else {
        pad_zeros(s.push(48u8), width)
    }
}

/// `s` back to front.
pub open spec fn backwards(s: Seq<u8>) -> Seq<u8> {
    Seq::new(s.len(), |i: int| s[s.len() - 1 - i])
}

/// The sequence number `n` as it stands in a file name: decimal, at least
/// five digits, zeros in front.
pub open spec fn sequence_digits(n: nat) -> Seq<u8> {
    backwards(pad_zeros(rev_digits(n), SEQUENCE_WIDTH as nat))
}

/// The bytes `.db`.
pub open spec fn data_suffix() -> Seq<u8> {
    seq![46u8, 100u8, 98u8]
}

/// The bytes `.idx`.
pub open spec fn index_suffix() -> Seq<u8> {
    seq![46u8, 105u8, 100u8, 120u8]
}

/// The name of the data file of sequence number `n`, as UTF-8 bytes.
pub open spec fn data_file_bytes(n: nat) -> Seq<u8> {
    sequence_digits(n) + data_suffix()
}

/// The name of the index file of sequence number `n`, as UTF-8 bytes.
pub open spec fn index_file_bytes(n: nat) -> Seq<u8> {
    sequence_digits(n) + index_suffix()
}

/// All bytes are ASCII.
pub open spec fn all_ascii(s: Seq<u8>) -> bool {
    forall|i: int| 0 <= i < s.len() ==> #[trigger] s[i] < 128
}

/// Writes the padded decimal digits of `sequence`.
fn sequence_number(sequence: usize) -> (out: Vec<u8>)
    ensures
        out@ == sequence_digits(sequence as nat),
        all_ascii(out@),
{
    let mut rev: Vec<u8> = Vec::new();
    let mut n: usize = sequence;
    assert(rev@ + rev_digits(n as nat) =~= rev_digits(sequence as nat));
    while n >= 10
        invariant
            rev_digits(sequence as nat) == rev@ + rev_digits(n as nat),
            all_ascii(rev@),
        decreases n,
    {
        let d: u8 = (n % 10) as u8;
        let ghost before = rev@;
        rev.push(48 + d);
        proof {
            assert(rev@ + rev_digits((n / 10) as nat) =~= before + rev_digits(n as nat));
            assert forall|i: int| 0 <= i < rev@.len() implies #[trigger] rev@[i] < 128 by {
                if i < before.len() {
                    assert(rev@[i] == before[i]);
                }
            }
        }
        n = n / 10;
    }
    let ghost before = rev@;
    rev.push(48 + (n as u8));
    proof {
        assert(rev@ =~= rev_digits(sequence as nat));
        assert forall|i: int| 0 <= i < rev@.len() implies #[trigger] rev@[i] < 128 by {
            if i < before.len() {
                assert(rev@[i] == before[i]);
            }
        }
    }
    while rev.len() < SEQUENCE_WIDTH
        invariant
            pad_zeros(rev@, SEQUENCE_WIDTH as nat) == pad_zeros(
                rev_digits(sequence as nat),
                SEQUENCE_WIDTH as nat,
            ),
            all_ascii(rev@),
        decreases SEQUENCE_WIDTH - rev@.len(),
    {
        let ghost before = rev@;
        rev.push(48);
        proof {
            assert forall|i: int| 0 <= i < rev@.len() implies #[trigger] rev@[i] < 128 by {
                if i < before.len() {
                    assert(rev@[i] == before[i]);
                }
            }
        }
    }
    let len = rev.len();
    let mut out: Vec<u8> = Vec::new();
    let mut i: usize = 0;
    while i < len
        invariant
            len == rev@.len(),
            i <= len,
            out@.len() == i,
            forall|k: int| 0 <= k < i ==> #[trigger] out@[k] == rev@[len - 1 - k],
            all_ascii(rev@),
        decreases len - i,
    {
        out.push(rev[len - 1 - i]);
        i = i + 1;
    }
    assert(out@ =~= backwards(rev@));
    out
}

/// Makes a file name of the padded sequence number and a suffix.
fn file_name(sequence: usize, suffix: &[u8]) -> (name: String)
    requires
        all_ascii(suffix@),
    ensures
        encode_utf8(name@) == sequence_digits(sequence as nat) + suffix@,
{
    let mut bytes = sequence_number(sequence);
    append_bytes(&mut bytes, suffix);
    proof {
        lemma_ascii_is_utf8(bytes@);
    }
    match string_from_utf8(bytes) {
        Some(name) => name,
        None => vstd::pervasive::unreached(),
    }
}

/// The name of the data file of the table with the given sequence number:
/// `00001.db` for the first.
pub fn data_file_name(sequence: usize) -> (name: String)
    ensures
        encode_utf8(name@) == data_file_bytes(sequence as nat),
{
    let suffix: [u8; 3] = [46, 100, 98];
    assert(suffix@ =~= data_suffix());
    file_name(sequence, suffix.as_slice())
}

/// The name of the index file of the table with the given sequence number:
/// `00001.idx` for the first.
pub fn index_file_name(sequence: usize) -> (name: String)
    ensures
        encode_utf8(name@) == index_file_bytes(sequence as nat),
{
    let suffix: [u8; 4] = [46, 105, 100, 120];
    assert(suffix@ =~= index_suffix());
    file_name(sequence, suffix.as_slice())
}

} // verus!
