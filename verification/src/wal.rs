//! The write-ahead log format: records, their byte encoding, decoding a
//! whole log, and replaying a log into a table.
//!
//! A record is framed as
//!   record type: 1 byte (`RECORD_TYPE_PUT` or `RECORD_TYPE_DELETE`)
//!   key length:  4 bytes, little endian
//!   value length: 4 bytes, little endian (0 for a delete)
//!   key bytes
//!   value bytes
use vstd::prelude::*;

use crate::bytes::{
    copy_bytes, copy_range, extend_bytes, get_u32_le, lemma_read_u32_le_value, lemma_u32_le_of_read, lemma_u32_le_roundtrip, push_u32_le, read_u32_le,
    u32_le,
};
use crate::error::{Error, KvResult};
use crate::order::bytes_lt;
use crate::table::KvTable;

verus! {

/// Type tag of a put record.
pub const RECORD_TYPE_PUT: u8 = 1;

/// Type tag of a delete record.
pub const RECORD_TYPE_DELETE: u8 = 2;

/// Size of the fixed part of a record: the tag and the two lengths.
pub const HEADER_LEN: usize = 1 + 4 + 4;

/// One operation of the log.
#[derive(Debug, PartialEq, Eq)]
pub enum WalRecord {
    Put { key: Vec<u8>, value: Vec<u8> },
    Delete { key: Vec<u8> },
}

/// A record as a mathematical value.
pub enum RecordView {
    Put { key: Seq<u8>, value: Seq<u8> },
    Delete { key: Seq<u8> },
}

impl View for WalRecord {
    type V = RecordView;

    open spec fn view(&self) -> RecordView {
        match self {
            WalRecord::Put { key, value } => RecordView::Put { key: key@, value: value@ },
            WalRecord::Delete { key } => RecordView::Delete { key: key@ },
        }
    }
}

/// The records of `v` as mathematical values.
pub open spec fn records_view(v: Seq<WalRecord>) -> Seq<RecordView> {
    v.map_values(|r: WalRecord| r@)
}

/// The key a record speaks of.
pub open spec fn record_key(r: RecordView) -> Seq<u8> {
    match r {
        RecordView::Put { key, .. } => key,
        RecordView::Delete { key } => key,
    }
}

/// The value a record carries (empty for a delete).
pub open spec fn record_value(r: RecordView) -> Seq<u8> {
    match r {
        RecordView::Put { value, .. } => value,
        RecordView::Delete { .. } => Seq::empty(),
    }
}

/// The bytes of a record. Lengths are written as `u32`, truncated as
/// `len as u32` truncates.
pub open spec fn encode_view(r: RecordView) -> Seq<u8> {
    match r {
        RecordView::Put { key, value } => seq![RECORD_TYPE_PUT] + u32_le(key.len() as u32) + u32_le(
            value.len() as u32,
        ) + key + value,
        RecordView::Delete { key } => seq![RECORD_TYPE_DELETE] + u32_le(key.len() as u32) + u32_le(
            0u32,
        ) + key,
    }
}

/// The encoded size of a record.
pub open spec fn encoded_len(r: RecordView) -> int {
    HEADER_LEN + record_key(r).len() + record_value(r).len()
}

/// Whether the lengths of a record can be written in its header without
/// truncation.
pub open spec fn lengths_fit(r: RecordView) -> bool {
    record_key(r).len() <= u32::MAX && record_value(r).len() <= u32::MAX
}

/// The length that the header of `b` gives for the whole record.
pub open spec fn framed_len(b: Seq<u8>) -> int {
    HEADER_LEN + read_u32_le(b, 1) + read_u32_le(b, 5)
}

/// The record that `b` holds, exactly and entirely, if it holds one.
pub open spec fn decode_view(b: Seq<u8>) -> Option<RecordView> {
    if b.len() < HEADER_LEN {
        None
    } else {
        let key_len = read_u32_le(b, 1) as int;
        let val_len = read_u32_le(b, 5) as int;
        if b.len() != framed_len(b) {
            None
        } else if b[0] == RECORD_TYPE_PUT {
            Some(
                RecordView::Put {
                    key: b.subrange(HEADER_LEN as int, HEADER_LEN + key_len),
                    value: b.subrange(HEADER_LEN + key_len, b.len() as int),
                },
            )
        } else if b[0] == RECORD_TYPE_DELETE {
            if val_len != 0 {
                None
            } else {
                Some(RecordView::Delete { key: b.subrange(HEADER_LEN as int, HEADER_LEN + key_len) })
            }
        } else {
            None
        }
    }
}

/// The records that the log `b` holds, one after the other up to its end,
/// if every one of them decodes.
pub open spec fn decode_all(b: Seq<u8>) -> Option<Seq<RecordView>>
    decreases b.len(),
{
    if b.len() == 0 {
        Some(Seq::empty())
    } else if b.len() < HEADER_LEN {
        None
    } else {
        let n = framed_len(b);
        if n > b.len() {
            None
        } else {
            match decode_view(b.subrange(0, n)) {
                None => None,
                Some(r) => match decode_all(b.subrange(n, b.len() as int)) {
                    Some(rs) => Some(seq![r] + rs),
                    None => None,
                },
            }
        }
    }
}

/// The bytes of a log holding `rs` in order.
pub open spec fn encode_all(rs: Seq<RecordView>) -> Seq<u8>
    decreases rs.len(),
{
    if rs.len() == 0 {
        Seq::empty()
    } else {
        encode_view(rs[0]) + encode_all(rs.drop_first())
    }
}

/// The table after one record has been applied.
pub open spec fn apply_record(m: Map<Seq<u8>, Seq<u8>>, r: RecordView) -> Map<Seq<u8>, Seq<u8>> {
    match r {
        RecordView::Put { key, value } => m.insert(key, value),
        RecordView::Delete { key } => m.remove(key),
    }
}

/// The table that replaying `rs` in order from an empty table gives.
pub open spec fn replay(rs: Seq<RecordView>) -> Map<Seq<u8>, Seq<u8>>
    decreases rs.len(),
{
    if rs.len() == 0 {
        Map::empty()
    } else {
        apply_record(replay(rs.drop_last()), rs.last())
    }
}

/// The size of the record's encoding: its header and its bytes.
pub proof fn lemma_encoded_len(r: RecordView)
    ensures
        encode_view(r).len() == encoded_len(r),
{
}

/// A record whose lengths fit in its header decodes to itself.
pub proof fn lemma_decode_encode(r: RecordView)
    requires
        lengths_fit(r),
    ensures
        decode_view(encode_view(r)) == Some(r),
{
    let b = encode_view(r);
    let key = record_key(r);
    let klen = key.len() as u32;
    let vlen = record_value(r).len() as u32;
    lemma_u32_le_roundtrip(klen);
    lemma_u32_le_roundtrip(vlen);
    assert(read_u32_le(b, 1) == klen);
    assert(read_u32_le(b, 5) == vlen);
    match r {
        RecordView::Put { key, value } => {
            assert(b.subrange(HEADER_LEN as int, HEADER_LEN + key.len()) =~= key);
            assert(b.subrange(HEADER_LEN + key.len(), b.len() as int) =~= value);
        },
        RecordView::Delete { key } => {
            assert(b.subrange(HEADER_LEN as int, HEADER_LEN + key.len()) =~= key);
        },
    }
}

/// A log written as the encodings of `rs`, one after the other, decodes to
/// `rs`, when every record's lengths fit in its header.
pub proof fn lemma_decode_all_encode_all(rs: Seq<RecordView>)
    requires
        forall|i: int| 0 <= i < rs.len() ==> lengths_fit(#[trigger] rs[i]),
    ensures
        decode_all(encode_all(rs)) == Some(rs),
    decreases rs.len(),
{
    if rs.len() > 0 {
        let r = rs[0];
        let head = encode_view(r);
        let tail = encode_all(rs.drop_first());
        let b = encode_all(rs);
        assert(lengths_fit(rs[0]));
        lemma_decode_all_encode_all(rs.drop_first());
        lemma_decode_encode(r);
        lemma_encoded_len(r);
        let klen = record_key(r).len() as u32;
        let vlen = record_value(r).len() as u32;
        lemma_u32_le_roundtrip(klen);
        lemma_u32_le_roundtrip(vlen);
        assert(b == head + tail);
        assert(read_u32_le(b, 1) == read_u32_le(head, 1));
        assert(read_u32_le(b, 5) == read_u32_le(head, 5));
        assert(framed_len(b) == head.len());
        assert(b.subrange(0, head.len() as int) =~= head);
        assert(b.subrange(head.len() as int, b.len() as int) =~= tail);
        assert(seq![r] + rs.drop_first() =~= rs);
    }
}

/// The layout of an encoded record: the tag (1 for a put, 2 for a delete),
/// the key's length and the value's length as little-endian 4-byte numbers
/// (0 for a delete), then the key bytes, then the value bytes.
pub proof fn lemma_encode_layout(r: RecordView)
    requires
        lengths_fit(r),
    ensures
        ({
            let e = encode_view(r);
            match r {
                RecordView::Put { key, value } => {
                    &&& e.len() == 9 + key.len() as int + value.len()
                    &&& e[0] == 1
                    &&& e[1] + 256 * e[2] + 65536 * e[3] + 16777216 * e[4] == key.len()
                    &&& e[5] + 256 * e[6] + 65536 * e[7] + 16777216 * e[8] == value.len()
                    &&& e.subrange(9, 9 + key.len() as int) == key
                    &&& e.subrange(9 + key.len() as int, e.len() as int) == value
                },
                RecordView::Delete { key } => {
                    &&& e.len() == 9 + key.len() as int
                    &&& e[0] == 2
                    &&& e[1] + 256 * e[2] + 65536 * e[3] + 16777216 * e[4] == key.len()
                    &&& e[5] == 0 && e[6] == 0 && e[7] == 0 && e[8] == 0
                    &&& e.subrange(9, e.len() as int) == key
                },
            }
        }),
{
    let e = encode_view(r);
    let klen = record_key(r).len() as u32;
    let vlen = record_value(r).len() as u32;
    lemma_u32_le_roundtrip(klen);
    lemma_u32_le_roundtrip(vlen);
    lemma_encoded_len(r);
    assert(read_u32_le(e, 1) == klen);
    assert(read_u32_le(e, 5) == vlen);
    lemma_read_u32_le_value(e, 1);
    lemma_read_u32_le_value(e, 5);
    assert((0u32 as u8) == 0u8 && ((0u32 >> 8u32) as u8) == 0u8 && ((0u32 >> 16u32) as u8) == 0u8
        && ((0u32 >> 24u32) as u8) == 0u8) by (bit_vector);
    match r {
        RecordView::Put { key, value } => {
            assert(e.subrange(9, 9 + key.len() as int) =~= key);
            assert(e.subrange(9 + key.len() as int, e.len() as int) =~= value);
        },
        RecordView::Delete { key } => {
            assert(e.subrange(9, e.len() as int) =~= key);
        },
    }
}

/// Which byte strings are records, and which record each one is. With `kl`
/// and `vl` the little-endian numbers in bytes 1..5 and 5..9: a string of
/// exactly `9 + kl + vl` bytes whose tag is 1 is the put of bytes
/// `9 .. 9 + kl` as key and the rest as value; one whose tag is 2 and whose
/// `vl` is 0 is the delete of bytes `9 ..` as key; nothing else is a record.
pub proof fn lemma_decode_layout(b: Seq<u8>)
    ensures
        b.len() < 9 ==> decode_view(b) is None,
        b.len() >= 9 ==> ({
            let kl = b[1] + 256 * b[2] + 65536 * b[3] + 16777216 * b[4];
            let vl = b[5] + 256 * b[6] + 65536 * b[7] + 16777216 * b[8];
            &&& b.len() != 9 + kl + vl ==> decode_view(b) is None
            &&& b[0] != 1 && b[0] != 2 ==> decode_view(b) is None
            &&& b.len() == 9 + kl + vl && b[0] == 1 ==> decode_view(b) == Some(
                RecordView::Put { key: b.subrange(9, 9 + kl), value: b.subrange(9 + kl, b.len() as int) },
            )
            &&& b.len() == 9 + kl + vl && b[0] == 2 && vl == 0 ==> decode_view(b) == Some(
                RecordView::Delete { key: b.subrange(9, b.len() as int) },
            )
            &&& b[0] == 2 && vl != 0 ==> decode_view(b) is None
        }),
{
    if b.len() >= 9 {
        lemma_read_u32_le_value(b, 1);
        lemma_read_u32_le_value(b, 5);
    }
}

/// A record decoded from `b` encodes back to `b`.
pub proof fn lemma_encode_decode(b: Seq<u8>)
    requires
        decode_view(b) is Some,
    ensures
        encode_view(decode_view(b).unwrap()) == b,
{
    let r = decode_view(b).unwrap();
    let kl = read_u32_le(b, 1);
    let vl = read_u32_le(b, 5);
    lemma_u32_le_of_read(b[1], b[2], b[3], b[4]);
    lemma_u32_le_of_read(b[5], b[6], b[7], b[8]);
    assert(record_key(r).len() == kl);
    assert(record_value(r).len() == vl);
    assert(encode_view(r) =~= b);
}

/// A log that decodes to `rs` is the encodings of `rs`, one after the
/// other: decoding loses nothing.
pub proof fn lemma_encode_all_decode_all(b: Seq<u8>)
    requires
        decode_all(b) is Some,
    ensures
        encode_all(decode_all(b).unwrap()) == b,
    decreases b.len(),
{
    if b.len() > 0 {
        let n = framed_len(b);
        let head = b.subrange(0, n);
        let tail = b.subrange(n, b.len() as int);
        let r = decode_view(head).unwrap();
        let rest = decode_all(tail).unwrap();
        let rs = decode_all(b).unwrap();
        assert(rs == seq![r] + rest);
        assert(encode_view(r) == head) by {
            lemma_encode_decode(head);
        }
        assert(encode_all(rest) == tail) by {
            lemma_encode_all_decode_all(tail);
        }
        assert(rs[0] == r);
        assert(rs.drop_first() =~= rest);
        assert(encode_all(rs) == encode_view(rs[0]) + encode_all(rs.drop_first()));
        assert(head + tail =~= b);
    }
}

/// Appending a record to a log appends its encoding to the log's bytes.
pub proof fn lemma_encode_all_push(rs: Seq<RecordView>, r: RecordView)
    ensures
        encode_all(rs.push(r)) == encode_all(rs) + encode_view(r),
    decreases rs.len(),
{
    if rs.len() == 0 {
        assert(rs.push(r).drop_first() =~= Seq::<RecordView>::empty());
        assert(rs.push(r)[0] == r);
        assert(encode_all(Seq::<RecordView>::empty()) == Seq::<u8>::empty());
        assert(encode_all(rs) == Seq::<u8>::empty());
        assert(encode_all(rs.push(r)) =~= encode_all(rs) + encode_view(r));
    } else {
        lemma_encode_all_push(rs.drop_first(), r);
        assert(rs.push(r).drop_first() =~= rs.drop_first().push(r));
        assert(encode_all(rs.push(r)) =~= encode_all(rs) + encode_view(r));
    }
}

/// How a log is cut into records: the empty log holds no records; a log
/// shorter than a header, or whose first header announces more bytes than
/// the log has, is refused; otherwise the first `9 + kl + vl` bytes (`kl`,
/// `vl` the little-endian lengths in the header) must be one record, and the
/// records of the log are that record followed by the records of the rest.
pub proof fn lemma_decode_all_framing(b: Seq<u8>)
    ensures
        b.len() == 0 ==> decode_all(b) == Some(Seq::<RecordView>::empty()),
        0 < b.len() < 9 ==> decode_all(b) is None,
        b.len() >= 9 ==> ({
            let n = 9 + (b[1] + 256 * b[2] + 65536 * b[3] + 16777216 * b[4]) + (b[5] + 256 * b[6]
                + 65536 * b[7] + 16777216 * b[8]);
            &&& n > b.len() ==> decode_all(b) is None
            &&& n <= b.len() ==> decode_all(b) == match decode_view(b.subrange(0, n)) {
                None => None,
                Some(r) => match decode_all(b.subrange(n, b.len() as int)) {
                    Some(rs) => Some(seq![r] + rs),
                    None => None,
                },
            }
        }),
{
    if b.len() >= 9 {
        lemma_read_u32_le_value(b, 1);
        lemma_read_u32_le_value(b, 5);
    }
}

/// A log that starts with a whole record holds that record followed by the
/// records of the rest of the log.
pub proof fn lemma_decode_all_prepend(head: Seq<u8>, tail: Seq<u8>)
    requires
        decode_view(head) is Some,
    ensures
        decode_all(head + tail) == match decode_all(tail) {
            Some(rs) => Some(seq![decode_view(head).unwrap()] + rs),
            None => None,
        },
{
    let b = head + tail;
    assert(b.subrange(0, head.len() as int) =~= head);
    assert(b.subrange(head.len() as int, b.len() as int) =~= tail);
    assert(read_u32_le(b, 1) == read_u32_le(head, 1));
    assert(read_u32_le(b, 5) == read_u32_le(head, 5));
}

/// The encoding of two logs one after the other is the encoding of the
/// first followed by the encoding of the second.
pub proof fn lemma_encode_all_append(rs1: Seq<RecordView>, rs2: Seq<RecordView>)
    ensures
        encode_all(rs1 + rs2) == encode_all(rs1) + encode_all(rs2),
    decreases rs1.len(),
{
    if rs1.len() == 0 {
        assert(rs1 + rs2 =~= rs2);
        assert(encode_all(rs1) + encode_all(rs2) =~= encode_all(rs2));
    } else {
        lemma_encode_all_append(rs1.drop_first(), rs2);
        assert((rs1 + rs2).drop_first() =~= rs1.drop_first() + rs2);
        assert((rs1 + rs2)[0] == rs1[0]);
        assert(encode_all(rs1 + rs2) =~= encode_all(rs1) + encode_all(rs2));
    }
}

/// The last record for a key decides it: after replaying `rs`, a key whose
/// last record is a put holds that put's value, a key whose last record is
/// a delete is absent, and a key that no record names is absent.
pub proof fn lemma_replay_last_record_wins(rs: Seq<RecordView>, k: Seq<u8>)
    ensures
        (forall|i: int| 0 <= i < rs.len() ==> record_key(#[trigger] rs[i]) != k) ==> !replay(
            rs,
        ).contains_key(k),
        forall|i: int|
            0 <= i < rs.len() && record_key(#[trigger] rs[i]) == k && (forall|j: int|
                i < j < rs.len() ==> record_key(#[trigger] rs[j]) != k) ==> match rs[i] {
                RecordView::Put { value, .. } => replay(rs).contains_key(k) && replay(rs)[k] == value,
                RecordView::Delete { .. } => !replay(rs).contains_key(k),
            },
    decreases rs.len(),
{
    if rs.len() > 0 {
        let init = rs.drop_last();
        let last = rs.last();
        lemma_replay_last_record_wins(init, k);
        assert forall|i: int| 0 <= i < init.len() implies #[trigger] init[i] == rs[i] by {}
        if record_key(last) != k {
            assert(replay(rs).contains_key(k) == replay(init).contains_key(k));
            assert(replay(init).contains_key(k) ==> replay(rs)[k] == replay(init)[k]);
            assert forall|i: int|
                0 <= i < rs.len() && record_key(#[trigger] rs[i]) == k && (forall|j: int|
                    i < j < rs.len() ==> record_key(#[trigger] rs[j]) != k) implies match rs[i] {
                RecordView::Put { value, .. } => replay(rs).contains_key(k) && replay(rs)[k] == value,
                RecordView::Delete { .. } => !replay(rs).contains_key(k),
            } by {
                assert(i < init.len());
                assert(init[i] == rs[i]);
                assert forall|j: int| i < j < init.len() implies record_key(#[trigger] init[j]) != k by {
                    assert(init[j] == rs[j]);
                }
            }
            if forall|i: int| 0 <= i < rs.len() ==> record_key(#[trigger] rs[i]) != k {
                assert forall|i: int| 0 <= i < init.len() implies record_key(#[trigger] init[i]) != k by {
                    assert(init[i] == rs[i]);
                }
            }
        } else {
            assert forall|i: int|
                0 <= i < rs.len() && record_key(#[trigger] rs[i]) == k && (forall|j: int|
                    i < j < rs.len() ==> record_key(#[trigger] rs[j]) != k) implies match rs[i] {
                RecordView::Put { value, .. } => replay(rs).contains_key(k) && replay(rs)[k] == value,
                RecordView::Delete { .. } => !replay(rs).contains_key(k),
            } by {
                if i < rs.len() - 1 {
                    assert(record_key(rs[rs.len() - 1]) != k);
                }
            }
        }
    }
}

/// Encodes one record as the bytes of the log format.
pub fn encode_record(record: &WalRecord) -> (encoded: Vec<u8>)
    requires
        encoded_len(record@) <= usize::MAX,
    ensures
        encoded@ == encode_view(record@),
        encoded@.len() == encoded_len(record@),
        encoded@[0] == (if record@ is Put {
            RECORD_TYPE_PUT
        } else {
            RECORD_TYPE_DELETE
        }),
        encoded@.subrange(HEADER_LEN as int, HEADER_LEN + record_key(record@).len()) == record_key(
            record@,
        ),
        encoded@.subrange(HEADER_LEN + record_key(record@).len(), encoded@.len() as int)
            == record_value(record@),
{
    let (record_type, key, value): (u8, &[u8], &[u8]) = match record {
        WalRecord::Put { key, value } => (RECORD_TYPE_PUT, key.as_slice(), value.as_slice()),
        WalRecord::Delete { key } => (RECORD_TYPE_DELETE, key.as_slice(), &[]),
    };
    assert(value@ == record_value(record@));
    let key_len = key.len() as u32;
    let val_len = value.len() as u32;
    let mut encoded: Vec<u8> = Vec::with_capacity(HEADER_LEN + key.len() + value.len());
    encoded.push(record_type);
    push_u32_le(&mut encoded, key_len);
    push_u32_le(&mut encoded, val_len);
    extend_bytes(&mut encoded, key);
    extend_bytes(&mut encoded, value);
    proof {
        lemma_encoded_len(record@);
    }
    assert(encoded@ =~= encode_view(record@));
    assert(encoded@.subrange(HEADER_LEN as int, HEADER_LEN + key@.len()) =~= key@);
    assert(encoded@.subrange(HEADER_LEN + key@.len(), encoded@.len() as int) =~= value@);
    encoded
}

/// Decodes the record in `bytes[start .. end]`.
fn decode_range(bytes: &[u8], start: usize, end: usize) -> (r: KvResult<WalRecord>)
    requires
        start <= end <= bytes@.len(),
    ensures
        match (r, decode_view(bytes@.subrange(start as int, end as int))) {
            (Ok(rec), Some(v)) => rec@ == v,
            (Err(e), None) => e == Error::InvalidWalRecord,
            _ => false,
        },
{
    let ghost b = bytes@.subrange(start as int, end as int);
    if end - start < HEADER_LEN {
        return Err(Error::InvalidWalRecord);
    }
    let key_len = get_u32_le(bytes, start + 1);
    let val_len = get_u32_le(bytes, start + 5);
    assert(key_len == read_u32_le(b, 1));
    assert(val_len == read_u32_le(b, 5));
    let total_len: u64 = HEADER_LEN as u64 + key_len as u64 + val_len as u64;
    if (end - start) as u64 != total_len {
        return Err(Error::InvalidWalRecord);
    }
    let key_start = start + HEADER_LEN;
    let key_end = key_start + key_len as usize;
    let val_start = key_end;
    let val_end = val_start + val_len as usize;
    assert(val_end == end);
    let record_type = bytes[start];
    if record_type == RECORD_TYPE_PUT {
        let key = copy_range(bytes, key_start, key_end);
        let value = copy_range(bytes, val_start, val_end);
        assert(key@ =~= b.subrange(HEADER_LEN as int, HEADER_LEN + key_len));
        assert(value@ =~= b.subrange(HEADER_LEN + key_len, b.len() as int));
        Ok(WalRecord::Put { key, value })
    } else if record_type == RECORD_TYPE_DELETE {
        if val_len != 0 {
            return Err(Error::InvalidWalRecord);
        }
        let key = copy_range(bytes, key_start, key_end);
        assert(key@ =~= b.subrange(HEADER_LEN as int, HEADER_LEN + key_len));
        Ok(WalRecord::Delete { key })
    } else {
        Err(Error::InvalidWalRecord)
    }
}

/// Decodes a buffer that holds exactly one record.
pub fn decode_record(bytes: &[u8]) -> (r: KvResult<WalRecord>)
    ensures
        match (r, decode_view(bytes@)) {
            (Ok(rec), Some(v)) => rec@ == v,
            (Err(e), None) => e == Error::InvalidWalRecord,
            _ => false,
        },
{
    assert(bytes@.subrange(0, bytes@.len() as int) =~= bytes@);
    decode_range(bytes, 0, bytes.len())
}

/// Decodes a whole log: records one after the other up to the end of
/// `bytes`. Fails if any record is cut short or does not decode.
pub fn decode_records(bytes: &[u8]) -> (r: KvResult<Vec<WalRecord>>)
    ensures
        match (r, decode_all(bytes@)) {
            (Ok(records), Some(rs)) => records_view(records@) == rs,
            (Err(e), None) => e == Error::InvalidWalRecord,
            _ => false,
        },
{
    let mut records: Vec<WalRecord> = Vec::new();
    if bytes.len() == 0 {
        assert(records_view(records@) =~= Seq::<RecordView>::empty());
        return Ok(records);
    }
    let mut offset: usize = 0;
    assert(bytes@.subrange(0, bytes@.len() as int) =~= bytes@);
    while offset < bytes.len()
        invariant
            offset <= bytes@.len(),
            decode_all(bytes@) == match decode_all(bytes@.subrange(offset as int, bytes@.len() as int)) {
                Some(rest) => Some(records_view(records@) + rest),
                None => None::<Seq<RecordView>>,
            },
        decreases bytes@.len() - offset,
    {
        let ghost s = bytes@.subrange(offset as int, bytes@.len() as int);
        if bytes.len() - offset < HEADER_LEN {
            return Err(Error::InvalidWalRecord);
        }
        let key_len = get_u32_le(bytes, offset + 1);
        let value_len = get_u32_le(bytes, offset + 5);
        assert(key_len == read_u32_le(s, 1));
        assert(value_len == read_u32_le(s, 5));
        let record_len: u64 = HEADER_LEN as u64 + key_len as u64 + value_len as u64;
        if record_len > (bytes.len() - offset) as u64 {
            return Err(Error::InvalidWalRecord);
        }
        let end = offset + record_len as usize;
        assert(bytes@.subrange(offset as int, end as int) =~= s.subrange(0, record_len as int));
        let record = decode_range(bytes, offset, end)?;
        let ghost prev_view = records_view(records@);
        records.push(record);
        assert(records_view(records@) =~= prev_view.push(record@));
        assert(bytes@.subrange(end as int, bytes@.len() as int) =~= s.subrange(
            record_len as int,
            s.len() as int,
        ));
        proof {
            let next = decode_all(bytes@.subrange(end as int, bytes@.len() as int));
            if let Some(rest) = next {
                assert(prev_view + (seq![record@] + rest) =~= records_view(records@) + rest);
            }
        }
        offset = end;
    }
    assert(bytes@.subrange(offset as int, bytes@.len() as int) =~= Seq::<u8>::empty());
    assert(records_view(records@) + Seq::<RecordView>::empty() =~= records_view(records@));
    Ok(records)
}

/// One put record for each entry of a table, in increasing key order.
pub open spec fn snapshot_view(data: KvTable) -> Seq<RecordView> {
    Seq::new(
        data.keys().len(),
        |i: int| RecordView::Put { key: data.keys()[i], value: data@[data.keys()[i]] },
    )
}

proof fn lemma_replay_snapshot_prefix(data: KvTable, i: int)
    requires
        data.wf(),
        0 <= i <= data.keys().len(),
    ensures
        replay(snapshot_view(data).subrange(0, i)) == data@.restrict(
            data.keys().subrange(0, i).to_set(),
        ),
    decreases i,
{
    data.lemma_keys();
    let ks = data.keys();
    let m = data@;
    let sv = snapshot_view(data);
    if i == 0 {
        assert(m.restrict(ks.subrange(0, 0).to_set()) =~= Map::<Seq<u8>, Seq<u8>>::empty());
    } else {
        lemma_replay_snapshot_prefix(data, i - 1);
        let k = ks[i - 1];
        assert(sv.subrange(0, i).drop_last() =~= sv.subrange(0, i - 1));
        let s0 = ks.subrange(0, i - 1);
        let s1 = ks.subrange(0, i);
        assert forall|kk: Seq<u8>| #[trigger] s1.to_set().contains(kk) <==> s0.to_set().contains(kk)
            || kk == k by {
            if s1.to_set().contains(kk) {
                let j = choose|j: int| 0 <= j < s1.len() && s1[j] == kk;
                if j < i - 1 {
                    assert(s0[j] == kk);
                }
            }
            if s0.to_set().contains(kk) {
                let j = choose|j: int| 0 <= j < s0.len() && s0[j] == kk;
                assert(s1[j] == kk);
            }
            if kk == k {
                assert(s1[i - 1] == kk);
            }
        }
        assert(m.restrict(s0.to_set()).insert(k, m[k]) =~= m.restrict(s1.to_set()));
    }
}

/// Replaying the snapshot of a table, from an empty table, rebuilds it:
/// compaction keeps what recovery gives back.
pub proof fn lemma_replay_snapshot(data: KvTable)
    requires
        data.wf(),
    ensures
        replay(snapshot_view(data)) == data@,
        snapshot_view(data).len() == data@.len(),
{
    data.lemma_keys();
    let ks = data.keys();
    lemma_replay_snapshot_prefix(data, ks.len() as int);
    assert(snapshot_view(data).subrange(0, ks.len() as int) =~= snapshot_view(data));
    assert(ks.subrange(0, ks.len() as int) =~= ks);
    assert(data@.restrict(ks.to_set()) =~= data@);
}

/// One put record for each entry of `data`, in increasing key order: the
/// log that a compaction writes.
pub fn snapshot_records(data: &KvTable) -> (records: Vec<WalRecord>)
    requires
        data.wf(),
    ensures
        records_view(records@) == snapshot_view(*data),
        replay(records_view(records@)) == data@,
        records@.len() == data@.len(),
        forall|i: int, j: int|
            0 <= i < j < records@.len() ==> bytes_lt(
                record_key(#[trigger] records@[i]@),
                record_key(#[trigger] records@[j]@),
            ),
{
    proof {
        data.lemma_keys();
        lemma_replay_snapshot(*data);
    }
    let n = data.len();
    let mut records: Vec<WalRecord> = Vec::new();
    let mut i: usize = 0;
    while i < n
        invariant
            n == data.keys().len(),
            n == data@.len(),
            i <= n,
            data.wf(),
            records_view(records@) == snapshot_view(*data).subrange(0, i as int),
        decreases n - i,
    {
        let ghost prev = records_view(records@);
        let key = copy_bytes(data.key(i).as_slice());
        let value = copy_bytes(data.value(i).as_slice());
        let record = WalRecord::Put { key, value };
        assert(record@ == snapshot_view(*data)[i as int]);
        records.push(record);
        assert(records_view(records@) =~= prev.push(record@));
        i = i + 1;
        assert(records_view(records@) =~= snapshot_view(*data).subrange(0, i as int));
    }
    assert(snapshot_view(*data).subrange(0, n as int) =~= snapshot_view(*data));
    assert forall|i: int, j: int| 0 <= i < j < records@.len() implies bytes_lt(
        record_key(#[trigger] records@[i]@),
        record_key(#[trigger] records@[j]@),
    ) by {
        assert(records@[i]@ == records_view(records@)[i]);
        assert(records@[j]@ == records_view(records@)[j]);
        assert(bytes_lt(data.keys()[i], data.keys()[j]));
    }
    records
}

/// Replays `records` in order into an empty table: a put stores its value
/// under its key, a delete removes its key.
pub fn replay_records(records: Vec<WalRecord>) -> (data: KvTable)
    ensures
        data.wf(),
        data@ == replay(records_view(records@)),
{
    let mut data = KvTable::new();
    let mut i: usize = 0;
    while i < records.len()
        invariant
            i <= records@.len(),
            data.wf(),
            data@ == replay(records_view(records@).subrange(0, i as int)),
        decreases records@.len() - i,
    {
        let ghost prefix = records_view(records@).subrange(0, i as int);
        match &records[i] {
            WalRecord::Put { key, value } => {
                data.insert(copy_bytes(key.as_slice()), copy_bytes(value.as_slice()));
            },
            WalRecord::Delete { key } => {
                data.remove(key.as_slice());
            },
        }
        i = i + 1;
        let ghost next = records_view(records@).subrange(0, i as int);
        assert(next.drop_last() =~= prefix);
    }
    assert(records_view(records@).subrange(0, i as int) =~= records_view(records@));
    data
}

} // verus!
