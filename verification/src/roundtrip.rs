//! Decoding undoes encoding, and a record cut short is never mistaken for a
//! whole one.

use vstd::prelude::*;
use vstd::bytes::{
    lemma_auto_spec_u128_to_from_le_bytes, lemma_auto_spec_u32_to_from_le_bytes,
    spec_u128_to_le_bytes, spec_u32_to_le_bytes,
};
use vstd::utf8::{encode_utf8, encode_utf8_decode_utf8, encode_utf8_valid_utf8};
use crate::codec::{
    encode_record, encode_text, length_field, lossy_text, parse_record, parse_text, text_fits, Parsed, Record,
    HEADER_LEN, NEWLINE, OP_DELETE, OP_SET,
};
use crate::decoder::{fed, leading_newlines, pulled, DecoderState, Pulled};
use crate::stream::drained;

verus! {

/// The opcode and the timestamp of a record.
pub open spec fn encode_header(r: Record) -> Seq<u8> {
    match r {
        Record::Put { timestamp, .. } => seq![OP_SET] + spec_u128_to_le_bytes(timestamp),
        Record::Delete { timestamp, .. } => seq![OP_DELETE] + spec_u128_to_le_bytes(timestamp),
    }
}

/// The encodings of `records`, one after the other.
pub open spec fn encode_log(records: Seq<Record>) -> Seq<u8>
    decreases records.len(),
{
    if records.len() == 0 {
        Seq::empty()
    } else {
        encode_record(records.first()) + encode_log(records.drop_first())
    }
}

/// A text that fits its length field is read back as it was written, whatever
/// stands before and behind it.
proof fn lemma_text_roundtrip(pre: Seq<u8>, text: Seq<char>, post: Seq<u8>)
    requires
        text_fits(text),
    ensures
        encode_text(text).len() == 4 + encode_utf8(text).len(),
        parse_text(pre + encode_text(text) + post, pre.len() as int) == Some(
            (encode_utf8(text), (pre.len() + encode_text(text).len()) as int),
        ),
        lossy_text(encode_utf8(text)) == text,
{
    lemma_auto_spec_u32_to_from_le_bytes();
    encode_utf8_valid_utf8(text);
    encode_utf8_decode_utf8(text);
    let body = encode_utf8(text);
    let field = length_field(body.len());
    let prefix = spec_u32_to_le_bytes(field);
    assert(field == body.len());
    assert(prefix.len() == 4);
    let u = pre + encode_text(text) + post;
    let at = pre.len() as int;
    assert(u.subrange(at, at + 4) =~= prefix);
    assert(u.subrange(at + 4, at + 4 + body.len()) =~= body);
}

/// A text whose bytes are not all there is not read.
proof fn lemma_text_cut_short(pre: Seq<u8>, text: Seq<char>, k: int)
    requires
        text_fits(text),
        pre.len() <= k < pre.len() + encode_text(text).len(),
    ensures
        parse_text((pre + encode_text(text)).subrange(0, k), pre.len() as int) is None,
{
    lemma_auto_spec_u32_to_from_le_bytes();
    let body = encode_utf8(text);
    let field = length_field(body.len());
    let prefix = spec_u32_to_le_bytes(field);
    assert(field == body.len());
    assert(prefix.len() == 4);
    let whole = pre + encode_text(text);
    let u = whole.subrange(0, k);
    let at = pre.len() as int;
    if at + 4 <= k {
        assert(u.subrange(at, at + 4) =~= prefix);
    }
}

/// The header is seventeen bytes and starts with the opcode.
proof fn lemma_header(r: Record)
    ensures
        encode_header(r).len() == HEADER_LEN,
        encode_header(r)[0] == (if r is Put { OP_SET } else { OP_DELETE }),
        encode_header(r).subrange(1, HEADER_LEN as int) == spec_u128_to_le_bytes(r.timestamp()),
{
    lemma_auto_spec_u128_to_from_le_bytes();
    assert(encode_header(r).subrange(1, HEADER_LEN as int) =~= spec_u128_to_le_bytes(
        r.timestamp(),
    ));
}

/// An encoded record is parsed back as the record, line feed included,
/// whatever follows it.
pub proof fn lemma_parse_encoded(r: Record, tail: Seq<u8>)
    requires
        r.representable(),
    ensures
        parse_record(encode_record(r) + tail) == (Parsed::Complete {
            record: r,
            len: encode_record(r).len(),
        }),
        encode_record(r).len() > HEADER_LEN,
        encode_record(r)[0] != NEWLINE,
{
    lemma_auto_spec_u128_to_from_le_bytes();
    lemma_header(r);
    let h = encode_header(r);
    let e = encode_record(r);
    let u = e + tail;
    match r {
        Record::Put { timestamp, key, value } => {
            let k = encode_text(key);
            let v = encode_text(value);
            lemma_text_roundtrip(h, key, v + seq![NEWLINE] + tail);
            lemma_text_roundtrip(h + k, value, seq![NEWLINE] + tail);
            assert(u =~= h + k + (v + seq![NEWLINE] + tail));
            assert(u =~= (h + k) + v + (seq![NEWLINE] + tail));
            assert(e =~= h + k + v + seq![NEWLINE]);
            assert(u.subrange(1, HEADER_LEN as int) =~= h.subrange(1, HEADER_LEN as int));
            assert(u[0] == h[0]);
            assert(u[(h.len() + k.len() + v.len()) as int] == NEWLINE);
        },
        Record::Delete { timestamp, key } => {
            let k = encode_text(key);
            lemma_text_roundtrip(h, key, seq![NEWLINE] + tail);
            assert(u =~= h + k + (seq![NEWLINE] + tail));
            assert(e =~= h + k + seq![NEWLINE]);
            assert(u.subrange(1, HEADER_LEN as int) =~= h.subrange(1, HEADER_LEN as int));
            assert(u[0] == h[0]);
            assert(u[(h.len() + k.len()) as int] == NEWLINE);
        },
    }
}

/// Decoding undoes encoding: a decoder at a record boundary that holds the
/// encoding of a record, followed by anything, yields that record and keeps
/// what followed.
pub proof fn lemma_decode_encode(r: Record, tail: Seq<u8>)
    requires
        r.representable(),
    ensures
        pulled(DecoderState { pending: encode_record(r) + tail, failed: false }) == (
            Pulled::Record(r),
            DecoderState { pending: tail, failed: false },
        ),
{
    lemma_parse_encoded(r, tail);
    let e = encode_record(r);
    let u = e + tail;
    assert(u[0] == e[0]);
    assert(leading_newlines(u) == 0);
    assert(u.skip(0) =~= u);
    assert(u.skip(e.len() as int) =~= tail);
}

/// A log of encoded records is decoded to those records, in order, and
/// nothing is left over.
pub proof fn lemma_log_replays(records: Seq<Record>)
    requires
        forall|i: int| 0 <= i < records.len() ==> (#[trigger] records[i]).representable(),
    ensures
        drained(DecoderState { pending: encode_log(records), failed: false }) == (
            records.map_values(|r: Record| Pulled::Record(r)),
            DecoderState { pending: Seq::<u8>::empty(), failed: false },
        ),
    decreases records.len(),
{
    let wrap = |r: Record| Pulled::Record(r);
    let st = DecoderState { pending: encode_log(records), failed: false };
    if records.len() == 0 {
        assert(leading_newlines(st.pending) == 0);
        assert(st.pending.skip(0) =~= st.pending);
        assert(records.map_values(wrap) =~= Seq::<Pulled>::empty());
    } else {
        let rest = records.drop_first();
        assert forall|i: int| 0 <= i < rest.len() implies (#[trigger] rest[i]).representable() by {
            assert(rest[i] == records[i + 1]);
        }
        lemma_decode_encode(records.first(), encode_log(rest));
        lemma_log_replays(rest);
        assert(records.map_values(wrap) =~= seq![Pulled::Record(records.first())]
            + rest.map_values(wrap));
    }
}

/// A decoder that holds only the first `k` bytes of an encoded record, short
/// of the record proper, yields nothing and stays as it is; once the
/// remaining bytes are fed in, it yields the record.
///
/// The record proper ends before its closing line feed: with all bytes but
/// that one the record is whole, see [`lemma_line_feed_is_optional`].
pub proof fn lemma_cut_short_then_completed(r: Record, k: int)
    requires
        r.representable(),
        0 <= k < encode_record(r).len() - 1,
    ensures
        ({
            let e = encode_record(r);
            let st = DecoderState { pending: e.subrange(0, k), failed: false };
            &&& pulled(st) == (Pulled::Nothing, st)
            &&& pulled(fed(st, e.subrange(k, e.len() as int))) == (
                Pulled::Record(r),
                DecoderState { pending: Seq::<u8>::empty(), failed: false },
            )
        }),
{
    let e = encode_record(r);
    let p = e.subrange(0, k);
    let st = DecoderState { pending: p, failed: false };
    lemma_header(r);
    let h = encode_header(r);
    // The second half: the two parts make up the encoding again.
    lemma_decode_encode(r, Seq::<u8>::empty());
    assert(p + e.subrange(k, e.len() as int) =~= e + Seq::<u8>::empty());
    // The first half.
    if k == 0 {
        assert(leading_newlines(p) == 0);
        assert(p.skip(0) =~= p);
    } else {
        lemma_parse_encoded(r, Seq::<u8>::empty());
        assert(p[0] == e[0]);
        assert(leading_newlines(p) == 0);
        assert(p.skip(0) =~= p);
        match r {
            Record::Put { timestamp, key, value } => {
                let kt = encode_text(key);
                let vt = encode_text(value);
                assert(e =~= h + kt + vt + seq![NEWLINE]);
                lemma_text_roundtrip(h, key, Seq::<u8>::empty());
                lemma_text_roundtrip(h + kt, value, Seq::<u8>::empty());
                if k < HEADER_LEN {
                } else if k < HEADER_LEN + kt.len() {
                    lemma_text_cut_short(h, key, k);
                    assert(p =~= (h + kt).subrange(0, k));
                } else {
                    let part = vt.subrange(0, k - HEADER_LEN - kt.len());
                    lemma_text_roundtrip(h, key, part);
                    assert(p =~= h + kt + part);
                    lemma_text_cut_short(h + kt, value, k);
                    assert(p =~= (h + kt + vt).subrange(0, k));
                }
            },
            Record::Delete { timestamp, key } => {
                let kt = encode_text(key);
                assert(e =~= h + kt + seq![NEWLINE]);
                lemma_text_roundtrip(h, key, Seq::<u8>::empty());
                if k < HEADER_LEN {
                } else {
                    lemma_text_cut_short(h, key, k);
                    assert(p =~= (h + kt).subrange(0, k));
                }
            },
        }
    }
}

/// A record is whole without its closing line feed: a decoder that holds all
/// bytes of an encoded record but the last yields the record at once.
pub proof fn lemma_line_feed_is_optional(r: Record)
    requires
        r.representable(),
    ensures
        ({
            let e = encode_record(r);
            pulled(DecoderState { pending: e.drop_last(), failed: false }) == (
                Pulled::Record(r),
                DecoderState { pending: Seq::<u8>::empty(), failed: false },
            )
        }),
{
    lemma_auto_spec_u128_to_from_le_bytes();
    lemma_header(r);
    let h = encode_header(r);
    let e = encode_record(r);
    let u = e.drop_last();
    match r {
        Record::Put { timestamp, key, value } => {
            let k = encode_text(key);
            let v = encode_text(value);
            lemma_text_roundtrip(h, key, v);
            lemma_text_roundtrip(h + k, value, Seq::<u8>::empty());
            assert(u =~= h + k + v);
            assert(u =~= (h + k) + v + Seq::<u8>::empty());
        },
        Record::Delete { timestamp, key } => {
            let k = encode_text(key);
            lemma_text_roundtrip(h, key, Seq::<u8>::empty());
            assert(u =~= h + k + Seq::<u8>::empty());
        },
    }
    assert(u.subrange(1, HEADER_LEN as int) =~= h.subrange(1, HEADER_LEN as int));
    assert(u[0] == h[0]);
    assert(leading_newlines(u) == 0);
    assert(u.skip(0) =~= u);
    assert(u.skip(u.len() as int) =~= Seq::<u8>::empty());
}

} // verus!
