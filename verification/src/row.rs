//! Rows: typed tuples keyed by a 64-bit rowid, serialized into the opaque
//! payload that a leaf cell stores.
//!
//! Payload layout, big-endian: `rowid: u64` · `count: u16` · `count`
//! attributes, each a one-byte tag followed by its value — `1` and a `u64`,
//! `2` and an `i32` (as its four wrapped bytes), or `3`, a `u16` byte count
//! and that many UTF-8 bytes.

use crate::bytes::{
    lemma_u16_be_bytes_round_trip, lemma_u32_be_bytes_round_trip, lemma_u64_be_bytes_round_trip,
    read_u16_be, read_u32_be, read_u64_be, spec_u16_to_be, spec_u32_to_be, spec_u64_to_be,
    write_u16_be, write_u32_be, write_u64_be,
};
use vstd::prelude::*;

verus! {

use vstd::slice::slice_to_vec;
use vstd::utf8::{encode_utf8, valid_utf8};

/// One typed attribute value.
#[derive(Debug, Clone, PartialEq)]
pub enum SQLType {
    UBigInt(u64),
    Integer(i32),
    Text(String),
}

/// Largest byte length the codec can record for a text attribute, and the
/// largest attribute count for a row.
pub const MAX_FIELD_LEN: usize = 65535;

/// The encoding of one attribute: a tag byte and the value's bytes.
pub open spec fn spec_attr_bytes(a: SQLType) -> Seq<u8> {
    match a {
        SQLType::UBigInt(x) => seq![1u8] + spec_u64_to_be(x),
        SQLType::Integer(x) => seq![2u8] + spec_u32_to_be(x as u32),
        SQLType::Text(s) => seq![3u8] + spec_u16_to_be(encode_utf8(s@).len() as u16) + encode_utf8(
            s@,
        ),
    }
}

/// Whether one attribute fits the codec's length prefixes.
pub open spec fn spec_attr_encodable(a: SQLType) -> bool {
    match a {
        SQLType::Text(s) => encode_utf8(s@).len() <= MAX_FIELD_LEN,
        _ => true,
    }
}

/// The concatenated encodings of a sequence of attributes.
pub open spec fn spec_attrs_bytes(attrs: Seq<SQLType>) -> Seq<u8>
    decreases attrs.len(),
{
    if attrs.len() == 0 {
        Seq::<u8>::empty()
    } else {
        spec_attrs_bytes(attrs.drop_last()) + spec_attr_bytes(attrs.last())
    }
}

/// Whether a whole row fits the codec's length prefixes.
pub open spec fn spec_row_encodable(rowid: u64, attrs: Seq<SQLType>) -> bool {
    &&& attrs.len() <= MAX_FIELD_LEN
    &&& forall|i: int| 0 <= i < attrs.len() ==> spec_attr_encodable(#[trigger] attrs[i])
}

/// The full payload encoding of a row.
pub open spec fn spec_row_bytes(rowid: u64, attrs: Seq<SQLType>) -> Seq<u8> {
    spec_u64_to_be(rowid) + spec_u16_to_be(attrs.len() as u16) + spec_attrs_bytes(attrs)
}

/// Decimal digits of a non-negative number, most significant first.
pub open spec fn spec_dec_digits(n: int) -> Seq<u8>
    decreases n,
{
    if n < 10 {
        seq![(48 + n) as u8]
    } else {
        spec_dec_digits(n / 10) + seq![(48 + n % 10) as u8]
    }
}

/// The bytes a printed attribute consists of: decimal digits for numbers,
/// a leading minus sign for negative ones, the UTF-8 bytes for text.
pub open spec fn spec_attr_display_bytes(a: SQLType) -> Seq<u8> {
    match a {
        SQLType::UBigInt(x) => spec_dec_digits(x as int),
        SQLType::Integer(x) => if x >= 0 {
            spec_dec_digits(x as int)
        } else {
            seq![45u8] + spec_dec_digits(-(x as int))
        },
        SQLType::Text(s) => encode_utf8(s@),
    }
}

/// Decimal digits are ASCII.
proof fn lemma_dec_digits_ascii(n: int)
    requires
        n >= 0,
    ensures
        spec_dec_digits(n).len() >= 1,
        forall|i: int|
            0 <= i < spec_dec_digits(n).len() ==> 48 <= #[trigger] spec_dec_digits(n)[i] <= 57,
    decreases n,
{
    if n >= 10 {
        lemma_dec_digits_ascii(n / 10);
    }
}

/// A sequence of ASCII bytes is valid UTF-8.
proof fn lemma_ascii_bytes_valid_utf8(b: Seq<u8>)
    requires
        forall|i: int| 0 <= i < b.len() ==> #[trigger] b[i] <= 0x7f,
    ensures
        valid_utf8(b),
{
    assert(valid_utf8(Seq::<u8>::empty()));
    assert(b.subrange(0, 0) =~= Seq::<u8>::empty());
    assert(vstd::utf8::partial_valid_utf8(b, 0));
    vstd::utf8::partial_valid_utf8_extend_ascii_block(b, 0, b.len() as int);
    assert(b.subrange(0, b.len() as int) =~= b);
}

/// Append the decimal digits of `x`.
fn push_dec_digits(out: &mut Vec<u8>, x: u64)
    ensures
        final(out)@ == old(out)@ + spec_dec_digits(x as int),
    decreases x,
{
    if x >= 10 {
        push_dec_digits(out, x / 10);
        out.push(48 + (x % 10) as u8);
        proof {
            assert(out@ =~= old(out)@ + spec_dec_digits(x as int));
        }
    } else {
        out.push(48 + x as u8);
        proof {
            assert(out@ =~= old(out)@ + spec_dec_digits(x as int));
        }
    }
}

/// Whether a byte string is the payload encoding of some row.
pub open spec fn spec_is_row_encoding(b: Seq<u8>) -> bool {
    exists|rowid: u64, attrs: Seq<SQLType>|
        spec_row_encodable(rowid, attrs) && b == spec_row_bytes(rowid, attrs)
}

/// Attribute encodings add up over concatenation.
proof fn lemma_attrs_bytes_concat(a: Seq<SQLType>, b: Seq<SQLType>)
    ensures
        spec_attrs_bytes(a + b) == spec_attrs_bytes(a) + spec_attrs_bytes(b),
    decreases b.len(),
{
    if b.len() == 0 {
        assert(a + b =~= a);
        assert(spec_attrs_bytes(a + b) =~= spec_attrs_bytes(a) + spec_attrs_bytes(b));
    } else {
        lemma_attrs_bytes_concat(a, b.drop_last());
        assert((a + b).drop_last() =~= a + b.drop_last());
        assert((a + b).last() == b.last());
        assert(spec_attrs_bytes(a + b) =~= spec_attrs_bytes(a) + spec_attrs_bytes(b));
    }
}

/// The encoding of a single attribute list entry.
proof fn lemma_attrs_bytes_single(a: SQLType)
    ensures
        spec_attrs_bytes(seq![a]) == spec_attr_bytes(a),
{
    assert(seq![a].drop_last() =~= Seq::<SQLType>::empty());
    assert(spec_attrs_bytes(Seq::<SQLType>::empty()) =~= Seq::<u8>::empty());
    assert(spec_attrs_bytes(seq![a]) =~= spec_attr_bytes(a));
}

/// Where the bytes of the `k`-th attribute sit inside a row encoding, and
/// how far the offset moves past them.
proof fn lemma_row_parse_step(bytes: Seq<u8>, rid: u64, ats: Seq<SQLType>, k: int, off: int)
    requires
        spec_row_encodable(rid, ats),
        bytes == spec_row_bytes(rid, ats),
        0 <= k < ats.len(),
        off == 10 + spec_attrs_bytes(ats.take(k)).len(),
    ensures
        bytes.len() == 10 + spec_attrs_bytes(ats).len(),
        off + spec_attr_bytes(ats[k]).len() <= bytes.len(),
        spec_attrs_bytes(ats.take(k + 1)).len() == spec_attrs_bytes(ats.take(k)).len()
            + spec_attr_bytes(ats[k]).len(),
        forall|j: int|
            0 <= j < spec_attr_bytes(ats[k]).len() ==> bytes[off + j] == spec_attr_bytes(
                ats[k],
            )[j],
{
    assert(ats =~= ats.take(k) + (seq![ats[k]] + ats.skip(k + 1)));
    lemma_attrs_bytes_concat(ats.take(k), seq![ats[k]] + ats.skip(k + 1));
    lemma_attrs_bytes_concat(seq![ats[k]], ats.skip(k + 1));
    lemma_attrs_bytes_single(ats[k]);
    assert(ats.take(k + 1) =~= ats.take(k) + seq![ats[k]]);
    lemma_attrs_bytes_concat(ats.take(k), seq![ats[k]]);
    assert forall|j: int|
        0 <= j < spec_attr_bytes(ats[k]).len() implies bytes[off + j] == spec_attr_bytes(
        ats[k],
    )[j] by {
        assert(spec_attrs_bytes(ats)[(off - 10) + j] == spec_attr_bytes(ats[k])[j]);
    }
}

/// The fixed prefix of a row encoding: the rowid and the attribute count.
proof fn lemma_row_parse_prefix(bytes: Seq<u8>, rid: u64, ats: Seq<SQLType>)
    requires
        spec_row_encodable(rid, ats),
        bytes == spec_row_bytes(rid, ats),
    ensures
        bytes.len() == 10 + spec_attrs_bytes(ats).len(),
        bytes.subrange(0, 8) == spec_u64_to_be(rid),
        bytes.subrange(8, 10) == spec_u16_to_be(ats.len() as u16),
{
    assert(bytes.subrange(0, 8) =~= spec_u64_to_be(rid));
    assert(bytes.subrange(8, 10) =~= spec_u16_to_be(ats.len() as u16));
}

/// Some attribute's encoding starts at `off` in `b`.
pub open spec fn spec_attr_encoding_at(b: Seq<u8>, off: int) -> bool {
    exists|a: SQLType|
        spec_attr_encodable(a) && off + spec_attr_bytes(a).len() <= b.len()
            && #[trigger] spec_attr_bytes(a) == b.subrange(off, off + spec_attr_bytes(a).len())
}

/// From any claimed attribute encoding at `off`, read off its tag byte,
/// its length and its bytes; used to refute such a claim against what the
/// parser saw.
proof fn refute_attr_encoding_at(b: Seq<u8>, off: int)
    requires
        0 <= off,
    ensures
        spec_attr_encoding_at(b, off) ==> exists|a: SQLType|
            {
                &&& spec_attr_encodable(a)
                &&& off + spec_attr_bytes(a).len() <= b.len()
                &&& #[trigger] spec_attr_bytes(a) == b.subrange(off, off + spec_attr_bytes(a).len())
                &&& off < b.len()
                &&& b[off] == spec_attr_bytes(a)[0]
                &&& (a matches SQLType::UBigInt(_) ==> b[off] == 1 && spec_attr_bytes(a).len() == 9)
                &&& (a matches SQLType::Integer(_) ==> b[off] == 2 && spec_attr_bytes(a).len() == 5)
                &&& (a matches SQLType::Text(t) ==> b[off] == 3 && spec_attr_bytes(a).len() == 3
                    + encode_utf8(t@).len() && b.subrange(off + 1, off + 3) == spec_u16_to_be(
                    encode_utf8(t@).len() as u16,
                ) && b.subrange(off + 3, off + spec_attr_bytes(a).len()) == encode_utf8(t@)
                    && valid_utf8(b.subrange(off + 3, off + spec_attr_bytes(a).len())))
            },
{
    if spec_attr_encoding_at(b, off) {
        let a = choose|a: SQLType|
            spec_attr_encodable(a) && off + spec_attr_bytes(a).len() <= b.len()
                && #[trigger] spec_attr_bytes(a) == b.subrange(off, off + spec_attr_bytes(a).len());
        let n = spec_attr_bytes(a).len() as int;
        assert(b[off] == spec_attr_bytes(a)[0]);
        match a {
            SQLType::UBigInt(_) => {},
            SQLType::Integer(_) => {},
            SQLType::Text(t) => {
                let enc = encode_utf8(t@);
                assert(spec_attr_bytes(a) == seq![3u8] + spec_u16_to_be(enc.len() as u16) + enc);
                assert(n == 3 + enc.len());
                assert forall|i: int| 0 <= i < 2 implies #[trigger] b.subrange(
                    off + 1,
                    off + 3,
                )[i] == spec_u16_to_be(enc.len() as u16)[i] by {
                    assert(b[off + 1 + i] == spec_attr_bytes(a)[1 + i]);
                }
                assert(b.subrange(off + 1, off + 3) =~= spec_u16_to_be(enc.len() as u16));
                assert forall|i: int| 0 <= i < enc.len() implies #[trigger] b.subrange(
                    off + 3,
                    off + n,
                )[i] == enc[i] by {
                    assert(b[off + 3 + i] == spec_attr_bytes(a)[3 + i]);
                }
                assert(b.subrange(off + 3, off + n) =~= enc);
                vstd::utf8::encode_utf8_valid_utf8(t@);
            },
        }
    }
}

/// Two attribute encodings starting at the same place have the same
/// length: the tag byte fixes the kind, and for text the two-byte prefix
/// fixes the byte count.
proof fn lemma_attr_encoding_unique_len(b: Seq<u8>, off: int, a1: SQLType, a2: SQLType)
    requires
        0 <= off,
        spec_attr_encodable(a1),
        spec_attr_encodable(a2),
        off + spec_attr_bytes(a1).len() <= b.len(),
        off + spec_attr_bytes(a2).len() <= b.len(),
        spec_attr_bytes(a1) == b.subrange(off, off + spec_attr_bytes(a1).len()),
        spec_attr_bytes(a2) == b.subrange(off, off + spec_attr_bytes(a2).len()),
    ensures
        spec_attr_bytes(a1).len() == spec_attr_bytes(a2).len(),
{
    assert(spec_attr_bytes(a1)[0] == b[off]);
    assert(spec_attr_bytes(a2)[0] == b[off]);
    match (a1, a2) {
        (SQLType::Text(t1), SQLType::Text(t2)) => {
            let e1 = encode_utf8(t1@);
            let e2 = encode_utf8(t2@);
            assert(spec_attr_bytes(a1) == seq![3u8] + spec_u16_to_be(e1.len() as u16) + e1);
            assert(spec_attr_bytes(a2) == seq![3u8] + spec_u16_to_be(e2.len() as u16) + e2);
            assert forall|i: int| 0 <= i < 2 implies #[trigger] spec_u16_to_be(
                e1.len() as u16,
            )[i] == spec_u16_to_be(e2.len() as u16)[i] by {
                assert(spec_attr_bytes(a1)[1 + i] == b[off + 1 + i]);
                assert(spec_attr_bytes(a2)[1 + i] == b[off + 1 + i]);
            }
            assert(spec_u16_to_be(e1.len() as u16) =~= spec_u16_to_be(e2.len() as u16));
            crate::bytes::lemma_u16_be_round_trip(e1.len() as u16);
            crate::bytes::lemma_u16_be_round_trip(e2.len() as u16);
        },
        _ => {},
    }
}

/// A row encoding opens with its rowid: two encodings that agree as byte
/// strings belong to the same key, so a decoded row's rowid is exactly the
/// rowid that was serialized into the payload.
pub proof fn lemma_row_bytes_fix_rowid(
    rid1: u64,
    a1: Seq<SQLType>,
    rid2: u64,
    a2: Seq<SQLType>,
)
    requires
        spec_row_bytes(rid1, a1) == spec_row_bytes(rid2, a2),
    ensures
        rid1 == rid2,
{
    assert(spec_row_bytes(rid1, a1).subrange(0, 8) =~= spec_u64_to_be(rid1));
    assert(spec_row_bytes(rid2, a2).subrange(0, 8) =~= spec_u64_to_be(rid2));
    crate::bytes::lemma_u64_be_round_trip(rid1);
    crate::bytes::lemma_u64_be_round_trip(rid2);
}

/// Attribute values agree: same variant and same inner value, comparing
/// text by its characters.
pub open spec fn spec_attr_equal(x: SQLType, y: SQLType) -> bool {
    match (x, y) {
        (SQLType::UBigInt(a), SQLType::UBigInt(b)) => a == b,
        (SQLType::Integer(a), SQLType::Integer(b)) => a == b,
        (SQLType::Text(s), SQLType::Text(t)) => s@ == t@,
        _ => false,
    }
}

/// The tag byte that starts an attribute's encoding.
pub open spec fn spec_tag_of(a: SQLType) -> u8 {
    match a {
        SQLType::UBigInt(_) => 1u8,
        SQLType::Integer(_) => 2u8,
        SQLType::Text(_) => 3u8,
    }
}

/// Attribute lists agree value for value.
pub open spec fn spec_attrs_equal(a1: Seq<SQLType>, a2: Seq<SQLType>) -> bool {
    &&& a1.len() == a2.len()
    &&& forall|i: int| 0 <= i < a1.len() ==> spec_attr_equal(#[trigger] a1[i], a2[i])
}

/// Equal attribute encodings decode the same values.
proof fn lemma_attr_bytes_injective(x: SQLType, y: SQLType)
    requires
        spec_attr_encodable(x),
        spec_attr_encodable(y),
        spec_attr_bytes(x) == spec_attr_bytes(y),
    ensures
        spec_attr_equal(x, y),
{
    assert(spec_attr_bytes(x)[0] == spec_attr_bytes(y)[0]);
    match (x, y) {
        (SQLType::UBigInt(a), SQLType::UBigInt(b)) => {
            assert(spec_u64_to_be(a) =~= spec_u64_to_be(b)) by {
                assert forall|i: int| 0 <= i < 8 implies #[trigger] spec_u64_to_be(a)[i]
                    == spec_u64_to_be(b)[i] by {
                    assert(spec_attr_bytes(x) == seq![1u8] + spec_u64_to_be(a));
                    assert(spec_attr_bytes(y) == seq![1u8] + spec_u64_to_be(b));
                    assert((seq![1u8] + spec_u64_to_be(a))[1 + i] == spec_u64_to_be(a)[i]);
                    assert((seq![1u8] + spec_u64_to_be(b))[1 + i] == spec_u64_to_be(b)[i]);
                    assert(spec_attr_bytes(x)[1 + i] == spec_attr_bytes(y)[1 + i]);
                }
            }
            crate::bytes::lemma_u64_be_round_trip(a);
            crate::bytes::lemma_u64_be_round_trip(b);
        },
        (SQLType::Integer(a), SQLType::Integer(b)) => {
            assert(spec_u32_to_be(a as u32) =~= spec_u32_to_be(b as u32)) by {
                assert forall|i: int| 0 <= i < 4 implies #[trigger] spec_u32_to_be(a as u32)[i]
                    == spec_u32_to_be(b as u32)[i] by {
                    assert(spec_attr_bytes(x) == seq![2u8] + spec_u32_to_be(a as u32));
                    assert(spec_attr_bytes(y) == seq![2u8] + spec_u32_to_be(b as u32));
                    assert((seq![2u8] + spec_u32_to_be(a as u32))[1 + i] == spec_u32_to_be(
                        a as u32,
                    )[i]);
                    assert((seq![2u8] + spec_u32_to_be(b as u32))[1 + i] == spec_u32_to_be(
                        b as u32,
                    )[i]);
                    assert(spec_attr_bytes(x)[1 + i] == spec_attr_bytes(y)[1 + i]);
                }
            }
            crate::bytes::lemma_u32_be_round_trip(a as u32);
            crate::bytes::lemma_u32_be_round_trip(b as u32);
            assert((a as u32) as i32 == a) by (bit_vector);
            assert((b as u32) as i32 == b) by (bit_vector);
        },
        (SQLType::Text(s), SQLType::Text(t)) => {
            let es = encode_utf8(s@);
            let et = encode_utf8(t@);
            assert(spec_attr_bytes(x).len() == 3 + es.len());
            assert(spec_attr_bytes(y).len() == 3 + et.len());
            assert(es =~= et) by {
                assert forall|i: int| 0 <= i < es.len() implies #[trigger] es[i] == et[i] by {
                    assert(spec_attr_bytes(x) == seq![3u8] + spec_u16_to_be(es.len() as u16)
                        + es);
                    assert(spec_attr_bytes(y) == seq![3u8] + spec_u16_to_be(et.len() as u16)
                        + et);
                    assert((seq![3u8] + spec_u16_to_be(es.len() as u16) + es)[3 + i] == es[i]);
                    assert((seq![3u8] + spec_u16_to_be(et.len() as u16) + et)[3 + i] == et[i]);
                    assert(spec_attr_bytes(x)[3 + i] == spec_attr_bytes(y)[3 + i]);
                }
            }
            vstd::utf8::encode_utf8_decode_utf8(s@);
            vstd::utf8::encode_utf8_decode_utf8(t@);
        },
        _ => {
            assert(spec_attr_bytes(x)[0] == spec_tag_of(x));
            assert(spec_attr_bytes(y)[0] == spec_tag_of(y));
        },
    }
}

/// Equal attribute-list encodings decode the same value lists.
proof fn lemma_attrs_bytes_injective(a1: Seq<SQLType>, a2: Seq<SQLType>)
    requires
        forall|i: int| 0 <= i < a1.len() ==> spec_attr_encodable(#[trigger] a1[i]),
        forall|i: int| 0 <= i < a2.len() ==> spec_attr_encodable(#[trigger] a2[i]),
        a1.len() == a2.len(),
        spec_attrs_bytes(a1) == spec_attrs_bytes(a2),
    ensures
        spec_attrs_equal(a1, a2),
    decreases a1.len(),
{
    if a1.len() > 0 {
        let b = spec_attrs_bytes(a1);
        // Both encodings start with their first attribute's bytes.
        assert(a1 =~= seq![a1[0]] + a1.drop_first());
        assert(a2 =~= seq![a2[0]] + a2.drop_first());
        lemma_attrs_bytes_concat(seq![a1[0]], a1.drop_first());
        lemma_attrs_bytes_concat(seq![a2[0]], a2.drop_first());
        lemma_attrs_bytes_single(a1[0]);
        lemma_attrs_bytes_single(a2[0]);
        let l1 = spec_attr_bytes(a1[0]).len() as int;
        let l2 = spec_attr_bytes(a2[0]).len() as int;
        assert(spec_attr_bytes(a1[0]) =~= b.subrange(0, l1));
        assert(spec_attr_bytes(a2[0]) =~= b.subrange(0, l2));
        lemma_attr_encoding_unique_len(b, 0, a1[0], a2[0]);
        assert(spec_attr_bytes(a1[0]) == spec_attr_bytes(a2[0]));
        lemma_attr_bytes_injective(a1[0], a2[0]);
        assert(spec_attrs_bytes(a1.drop_first()) =~= b.subrange(l1, b.len() as int));
        assert(spec_attrs_bytes(a2.drop_first()) =~= b.subrange(l1, b.len() as int));
        lemma_attrs_bytes_injective(a1.drop_first(), a2.drop_first());
        assert forall|i: int| 0 <= i < a1.len() implies spec_attr_equal(
            #[trigger] a1[i],
            a2[i],
        ) by {
            if i > 0 {
                assert(spec_attr_equal(a1.drop_first()[i - 1], a2.drop_first()[i - 1]));
            }
        }
    }
}

/// Round-trip law of the row codec: the encoding decides the row. Equal
/// payload byte strings carry the same rowid and the same attribute
/// values, so serialising a row and decoding the bytes gives the original
/// back, value for value.
pub proof fn lemma_row_encoding_injective(
    rid1: u64,
    a1: Seq<SQLType>,
    rid2: u64,
    a2: Seq<SQLType>,
)
    requires
        spec_row_encodable(rid1, a1),
        spec_row_encodable(rid2, a2),
        spec_row_bytes(rid1, a1) == spec_row_bytes(rid2, a2),
    ensures
        rid1 == rid2,
        spec_attrs_equal(a1, a2),
{
    lemma_row_bytes_fix_rowid(rid1, a1, rid2, a2);
    let b = spec_row_bytes(rid1, a1);
    assert(b.subrange(8, 10) =~= spec_u16_to_be(a1.len() as u16));
    assert(spec_row_bytes(rid2, a2).subrange(8, 10) =~= spec_u16_to_be(a2.len() as u16));
    crate::bytes::lemma_u16_be_round_trip(a1.len() as u16);
    crate::bytes::lemma_u16_be_round_trip(a2.len() as u16);
    assert(a1.len() == a2.len());
    assert(spec_attrs_bytes(a1) =~= b.subrange(10, b.len() as int));
    assert(spec_attrs_bytes(a2) =~= b.subrange(10, b.len() as int));
    lemma_attrs_bytes_injective(a1, a2);
}

/// Relies on `String::from_utf8`: it succeeds exactly on valid UTF-8 input
/// and the returned string holds exactly the input bytes.
#[verifier::external_body]
fn bytes_to_string(v: Vec<u8>) -> (r: Option<String>)
    ensures
        r is Some <==> valid_utf8(v@),
        r matches Some(s) ==> encode_utf8(s@) == v@,
{
    match String::from_utf8(v) {
        Ok(s) => Some(s),
        Err(_) => None,
    }
}

/// A record: its key and its attribute values.
#[derive(Debug, Clone)]
pub struct Row {
    pub rowid: u64,
    pub attributes: Vec<SQLType>,
}

impl Row {
    /// Build a row from its key and attribute values.
    pub fn new(rowid: u64, attributes: Vec<SQLType>) -> (r: Row)
        ensures
            r.rowid == rowid,
            r.attributes == attributes,
    {
        Row { rowid, attributes }
    }

    /// The row's key.
    pub fn rowid(&self) -> (r: u64)
        ensures
            r == self.rowid,
    {
        self.rowid
    }

    /// Serialize the row into its payload bytes. Fails exactly when an
    /// attribute count or a text length overflows its two-byte prefix.
    #[verifier::rlimit(60)]
    pub fn serialize(&self) -> (r: Result<Vec<u8>, ()>)
        ensures
            r is Ok <==> spec_row_encodable(self.rowid, self.attributes@),
            r matches Ok(v) ==> v@ == spec_row_bytes(self.rowid, self.attributes@),
    {
        if self.attributes.len() > MAX_FIELD_LEN {
            return Err(());
        }
        let mut out: Vec<u8> = vec![0u8; 10];
        write_u64_be(&mut out, 0, self.rowid);
        write_u16_be(&mut out, 8, self.attributes.len() as u16);
        proof {
            assert(out@ =~= spec_u64_to_be(self.rowid) + spec_u16_to_be(
                self.attributes@.len() as u16,
            ) + spec_attrs_bytes(self.attributes@.take(0)));
        }
        let n = self.attributes.len();
        let mut i: usize = 0;
        while i < n
            invariant
                i <= n,
                n == self.attributes@.len(),
                out@ == spec_u64_to_be(self.rowid) + spec_u16_to_be(self.attributes@.len() as u16)
                    + spec_attrs_bytes(self.attributes@.take(i as int)),
                forall|j: int| 0 <= j < i ==> spec_attr_encodable(#[trigger] self.attributes@[j]),
            decreases n - i,
        {
            match &self.attributes[i] {
                SQLType::UBigInt(x) => {
                    out.push(1);
                    let mut b: Vec<u8> = vec![0u8; 8];
                    write_u64_be(&mut b, 0, *x);
                    proof {
                        assert(b@ =~= spec_u64_to_be(*x));
                    }
                    out.append(&mut b);
                },
                SQLType::Integer(x) => {
                    out.push(2);
                    let mut b: Vec<u8> = vec![0u8; 4];
                    write_u32_be(&mut b, 0, *x as u32);
                    proof {
                        assert(b@ =~= spec_u32_to_be(*x as u32));
                    }
                    out.append(&mut b);
                },
                SQLType::Text(s) => {
                    let text_bytes = s.as_str().as_bytes();
                    if text_bytes.len() > MAX_FIELD_LEN {
                        return Err(());
                    }
                    out.push(3);
                    let mut b: Vec<u8> = vec![0u8; 2];
                    write_u16_be(&mut b, 0, text_bytes.len() as u16);
                    proof {
                        assert(b@ =~= spec_u16_to_be(encode_utf8(s@).len() as u16));
                    }
                    out.append(&mut b);
                    let mut tb = slice_to_vec(text_bytes);
                    out.append(&mut tb);
                },
            }
            proof {
                assert(self.attributes@.take(i + 1).drop_last() =~= self.attributes@.take(
                    i as int,
                ));
                assert(out@ =~= spec_u64_to_be(self.rowid) + spec_u16_to_be(
                    self.attributes@.len() as u16,
                ) + spec_attrs_bytes(self.attributes@.take(i + 1)));
            }
            i += 1;
        }
        proof {
            assert(self.attributes@.take(n as int) =~= self.attributes@);
        }
        Ok(out)
    }

    /// Decode a row from its payload bytes. On success the input is exactly
    /// the returned row's encoding.
    #[verifier::rlimit(60)]
    /// Decode the attribute whose encoding starts at `off`, returning it
    /// with the offset just past it. Fails exactly when no attribute
    /// encoding starts there.
    #[verifier::rlimit(100)]
    fn parse_attr(v: &Vec<u8>, off: usize) -> (r: Result<(SQLType, usize), ()>)
        requires
            off <= v@.len(),
        ensures
            r matches Ok(p) ==> {
                &&& spec_attr_encodable(p.0)
                &&& off < p.1 <= v@.len()
                &&& p.1 - off == spec_attr_bytes(p.0).len()
                &&& v@.subrange(off as int, p.1 as int) == spec_attr_bytes(p.0)
            },
            r is Err ==> !spec_attr_encoding_at(v@, off as int),
    {
        let total = v.len();
        if off >= total {
            proof {
                refute_attr_encoding_at(v@, off as int);
            }
            return Err(());
        }
        let tag = v[off];
        if tag == 1 {
            if total - off < 9 {
                proof {
                    refute_attr_encoding_at(v@, off as int);
                }
                return Err(());
            }
            let x = read_u64_be(v, off + 1);
            proof {
                lemma_u64_be_bytes_round_trip(v@.subrange(off + 1, off + 9));
                assert(v@.subrange(off as int, off + 9) =~= seq![1u8] + spec_u64_to_be(x));
            }
            Ok((SQLType::UBigInt(x), off + 9))
        } else if tag == 2 {
            if total - off < 5 {
                proof {
                    refute_attr_encoding_at(v@, off as int);
                }
                return Err(());
            }
            let x = read_u32_be(v, off + 1);
            proof {
                lemma_u32_be_bytes_round_trip(v@.subrange(off + 1, off + 5));
                assert((x as i32) as u32 == x) by (bit_vector);
                assert(v@.subrange(off as int, off + 5) =~= seq![2u8] + spec_u32_to_be(
                    (x as i32) as u32,
                ));
            }
            Ok((SQLType::Integer(x as i32), off + 5))
        } else if tag == 3 {
            if total - off < 3 {
                proof {
                    refute_attr_encoding_at(v@, off as int);
                }
                return Err(());
            }
            let text_len = read_u16_be(v, off + 1) as usize;
            proof {
                lemma_u16_be_bytes_round_trip(v@.subrange(off + 1, off + 3));
            }
            if total - off - 3 < text_len {
                proof {
                    refute_attr_encoding_at(v@, off as int);
                }
                return Err(());
            }
            let mut tb: Vec<u8> = Vec::new();
            let mut j: usize = 0;
            while j < text_len
                invariant
                    j <= text_len,
                    off + 3 + text_len <= total,
                    total == v@.len(),
                    tb@ =~= v@.subrange(off + 3, off + 3 + j),
                decreases text_len - j,
            {
                tb.push(v[off + 3 + j]);
                proof {
                    assert(tb@ =~= v@.subrange(off + 3, off + 3 + j + 1));
                }
                j += 1;
            }
            let ghost tbview = tb@;
            let s = match bytes_to_string(tb) {
                Some(s) => s,
                None => {
                    proof {
                        refute_attr_encoding_at(v@, off as int);
                    }
                    return Err(());
                },
            };
            proof {
                assert(encode_utf8(s@) == tbview);
                assert(v@.subrange(off + 1, off + 3) == spec_u16_to_be(
                    encode_utf8(s@).len() as u16,
                ));
                assert(v@.subrange(off as int, off + 3 + text_len) =~= seq![3u8] + v@.subrange(
                    off + 1,
                    off + 3,
                ) + encode_utf8(s@));
            }
            Ok((SQLType::Text(s), off + 3 + text_len))
        } else {
            proof {
                refute_attr_encoding_at(v@, off as int);
            }
            return Err(());
        }
    }

    /// Decode a row from its payload bytes: succeeds exactly when the
    /// bytes are the encoding of some row, and then the input is exactly
    /// the returned row's encoding.
    #[verifier::loop_isolation(false)]
    #[verifier::rlimit(100)]
    pub fn deserialize(bytes: &[u8]) -> (r: Result<Row, ()>)
        ensures
            r is Ok <==> spec_is_row_encoding(bytes@),
            r matches Ok(row) ==> spec_row_encodable(row.rowid, row.attributes@) && bytes@
                == spec_row_bytes(row.rowid, row.attributes@),
    {
        let v = slice_to_vec(bytes);
        let total = v.len();
        if total < 10 {
            proof {
                assert(!spec_is_row_encoding(bytes@)) by {
                    if spec_is_row_encoding(bytes@) {
                        let (rid, ats) = choose|rid: u64, ats: Seq<SQLType>|
                            spec_row_encodable(rid, ats) && bytes@ == spec_row_bytes(rid, ats);
                        lemma_row_parse_prefix(bytes@, rid, ats);
                    }
                }
            }
            return Err(());
        }
        let rowid = read_u64_be(&v, 0);
        let count = read_u16_be(&v, 8);
        proof {
            lemma_u64_be_bytes_round_trip(v@.subrange(0, 8));
            lemma_u16_be_bytes_round_trip(v@.subrange(8, 10));
            assert forall|rid: u64, ats: Seq<SQLType>|
                spec_row_encodable(rid, ats) && bytes@ == #[trigger] spec_row_bytes(rid, ats)
                    implies rid == rowid && ats.len() == count by {
                lemma_row_parse_prefix(bytes@, rid, ats);
                crate::bytes::lemma_u64_be_round_trip(rid);
                crate::bytes::lemma_u16_be_round_trip(ats.len() as u16);
            }
            assert(spec_attrs_bytes(Seq::<SQLType>::empty()) =~= Seq::<u8>::empty());
        }
        let mut attrs: Vec<SQLType> = Vec::new();
        let mut off: usize = 10;
        let mut k: usize = 0;
        while k < count as usize
            invariant
                k <= count,
                10 <= off <= total,
                total == v@.len(),
                v@ == bytes@,
                rowid == crate::bytes::spec_u64_from_be(v@.subrange(0, 8)),
                v@.subrange(0, 8) == spec_u64_to_be(rowid),
                v@.subrange(8, 10) == spec_u16_to_be(count),
                attrs@.len() == k,
                v@.subrange(10, off as int) == spec_attrs_bytes(attrs@),
                forall|j: int| 0 <= j < k ==> spec_attr_encodable(#[trigger] attrs@[j]),
                forall|rid: u64, ats: Seq<SQLType>|
                    spec_row_encodable(rid, ats) && bytes@ == #[trigger] spec_row_bytes(rid, ats)
                        ==> rid == rowid && ats.len() == count && off == 10 + spec_attrs_bytes(
                        ats.take(k as int),
                    ).len(),
            decreases count - k,
        {
            let ghost off0 = off as int;
            let ghost attrs0 = attrs@;
            match Self::parse_attr(&v, off) {
                Ok((attr, new_off)) => {
                    proof {
                        // Any row this byte string encodes steps over the
                        // same attribute bytes here.
                        assert forall|rid: u64, ats: Seq<SQLType>|
                            spec_row_encodable(rid, ats) && bytes@ == #[trigger] spec_row_bytes(
                                rid,
                                ats,
                            ) implies new_off == 10 + spec_attrs_bytes(ats.take(k + 1)).len() by {
                            lemma_row_parse_step(bytes@, rid, ats, k as int, off0);
                            assert(spec_attr_bytes(ats[k as int]) =~= bytes@.subrange(
                                off0,
                                off0 + spec_attr_bytes(ats[k as int]).len(),
                            ));
                            lemma_attr_encoding_unique_len(bytes@, off0, attr, ats[k as int]);
                        }
                    }
                    attrs.push(attr);
                    off = new_off;
                    proof {
                        assert(attrs@.drop_last() =~= attrs0);
                        assert(v@.subrange(10, off as int) =~= v@.subrange(10, off0) + v@.subrange(
                            off0,
                            off as int,
                        ));
                        assert(v@.subrange(10, off as int) == spec_attrs_bytes(attrs@));
                    }
                },
                Err(()) => {
                    proof {
                        assert(!spec_is_row_encoding(bytes@)) by {
                            if spec_is_row_encoding(bytes@) {
                                let (rid, ats) = choose|rid: u64, ats: Seq<SQLType>|
                                    spec_row_encodable(rid, ats) && bytes@ == spec_row_bytes(
                                        rid,
                                        ats,
                                    );
                                lemma_row_parse_step(bytes@, rid, ats, k as int, off0);
                                assert(spec_attr_bytes(ats[k as int]) =~= bytes@.subrange(
                                    off0,
                                    off0 + spec_attr_bytes(ats[k as int]).len(),
                                ));
                                assert(spec_attr_encoding_at(bytes@, off0));
                            }
                        }
                    }
                    return Err(());
                },
            }
            k += 1;
        }
        if off != total {
            proof {
                assert(!spec_is_row_encoding(bytes@)) by {
                    if spec_is_row_encoding(bytes@) {
                        let (rid, ats) = choose|rid: u64, ats: Seq<SQLType>|
                            spec_row_encodable(rid, ats) && bytes@ == spec_row_bytes(rid, ats);
                        lemma_row_parse_prefix(bytes@, rid, ats);
                        assert(ats.take(count as int) =~= ats);
                    }
                }
            }
            return Err(());
        }
        let row = Row { rowid, attributes: attrs };
        proof {
            assert(bytes@ =~= v@.subrange(0, 8) + v@.subrange(8, 10) + v@.subrange(10, total as int));
            assert(attrs@.len() == count);
            assert(bytes@ == spec_row_bytes(row.rowid, row.attributes@));
        }
        Ok(row)
    }

    /// The attribute values rendered as text, in order: decimal digits for
    /// numbers (with a leading minus sign when negative), the text itself
    /// for text attributes.
    pub fn to_printable(&self) -> (r: Vec<String>)
        ensures
            r@.len() == self.attributes@.len(),
            forall|i: int|
                0 <= i < r@.len() ==> encode_utf8((#[trigger] r@[i])@) == spec_attr_display_bytes(
                    self.attributes@[i],
                ),
    {
        let mut out: Vec<String> = Vec::new();
        let n = self.attributes.len();
        let mut i: usize = 0;
        while i < n
            invariant
                i <= n,
                n == self.attributes@.len(),
                out@.len() == i,
                forall|j: int|
                    0 <= j < i ==> encode_utf8((#[trigger] out@[j])@) == spec_attr_display_bytes(
                        self.attributes@[j],
                    ),
            decreases n - i,
        {
            match &self.attributes[i] {
                SQLType::UBigInt(x) => {
                    let mut b: Vec<u8> = Vec::new();
                    push_dec_digits(&mut b, *x);
                    proof {
                        lemma_dec_digits_ascii(*x as int);
                        lemma_ascii_bytes_valid_utf8(b@);
                    }
                    match bytes_to_string(b) {
                        Some(s) => {
                            out.push(s);
                        },
                        None => {
                            proof {
                                assert(false);
                            }
                            return out;
                        },
                    }
                },
                SQLType::Integer(x) => {
                    let mut b: Vec<u8> = Vec::new();
                    if *x < 0 {
                        b.push(45);
                        let m = (-(*x as i64)) as u64;
                        proof {
                            assert(m as int == -(*x as int));
                        }
                        push_dec_digits(&mut b, m);
                        proof {
                            lemma_dec_digits_ascii(m as int);
                            assert(b@ =~= seq![45u8] + spec_dec_digits(m as int));
                            lemma_ascii_bytes_valid_utf8(b@);
                        }
                    } else {
                        push_dec_digits(&mut b, *x as u64);
                        proof {
                            lemma_dec_digits_ascii(*x as int);
                            assert(b@ =~= spec_dec_digits(*x as int));
                            lemma_ascii_bytes_valid_utf8(b@);
                        }
                    }
                    match bytes_to_string(b) {
                        Some(s) => {
                            out.push(s);
                        },
                        None => {
                            proof {
                                assert(false);
                            }
                            return out;
                        },
                    }
                },
                SQLType::Text(s) => {
                    out.push(s.clone());
                },
            }
            i += 1;
        }
        out
    }
}

} // verus!
