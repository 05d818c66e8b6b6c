//! The binary layout of a log record.
//!
//! ```text
//! SET   : 'S' | T(16) | klen(4) | key(klen) | vlen(4) | value(vlen) | '\n'
//! DELETE: 'D' | T(16) | klen(4) | key(klen)                         | '\n'
//! ```
//!
//! All integers are little-endian. Keys and values travel as UTF-8.

use vstd::prelude::*;
use vstd::bytes::{
    spec_u128_from_le_bytes, spec_u128_to_le_bytes, spec_u32_from_le_bytes, spec_u32_to_le_bytes,
    u128_to_le_bytes, u32_from_le_bytes, u32_to_le_bytes,
};
use vstd::slice::slice_subrange;
use vstd::utf8::{decode_utf8, encode_utf8, valid_utf8};

verus! {

/// Opcode of a SET record, the letter `S`.
pub const OP_SET: u8 = 0x53;

/// Opcode of a DELETE record, the letter `D`.
pub const OP_DELETE: u8 = 0x44;

/// The line feed that closes a record and may stand alone between records.
pub const NEWLINE: u8 = 0x0a;

/// Bytes taken by the opcode and the timestamp.
pub const HEADER_LEN: usize = 17;

/// One mutation, stamped with nanoseconds since the Unix epoch.
#[derive(Debug, Clone, PartialEq, Eq)]
pub enum WALOperation {
    Put { timestamp: u128, key: String, value: String },
    Delete { timestamp: u128, key: String },
}

/// The mathematical value of a [`WALOperation`]: texts are character sequences.
pub enum Record {
    Put { timestamp: u128, key: Seq<char>, value: Seq<char> },
    Delete { timestamp: u128, key: Seq<char> },
}

impl View for WALOperation {
    type V = Record;

    open spec fn view(&self) -> Record {
        match *self {
            WALOperation::Put { timestamp, key, value } => Record::Put {
                timestamp,
                key: key@,
                value: value@,
            },
            WALOperation::Delete { timestamp, key } => Record::Delete { timestamp, key: key@ },
        }
    }
}

impl Record {
    /// The key that the record is about.
    pub open spec fn key(self) -> Seq<char> {
        match self {
            Record::Put { key, .. } => key,
            Record::Delete { key, .. } => key,
        }
    }

    /// The time at which the mutation was made.
    pub open spec fn timestamp(self) -> u128 {
        match self {
            Record::Put { timestamp, .. } => timestamp,
            Record::Delete { timestamp, .. } => timestamp,
        }
    }

    /// Whether the layout can hold the record: each text, as UTF-8, must be
    /// short enough for its 32-bit length field.
    pub open spec fn representable(self) -> bool {
        match self {
            Record::Put { key, value, .. } => text_fits(key) && text_fits(value),
            Record::Delete { key, .. } => text_fits(key),
        }
    }
}

/// Whether the UTF-8 form of `text` has a length that a `u32` can hold.
pub open spec fn text_fits(text: Seq<char>) -> bool {
    encode_utf8(text).len() <= u32::MAX
}

/// The value written into a length field for a text of `n` bytes. Lengths
/// beyond 32 bits keep their low 32 bits only.
pub open spec fn length_field(n: nat) -> u32 {
    (n % 0x1_0000_0000) as u32
}

/// A length-prefixed text: four bytes of length, then the UTF-8 bytes.
pub open spec fn encode_text(text: Seq<char>) -> Seq<u8> {
    spec_u32_to_le_bytes(length_field(encode_utf8(text).len())) + encode_utf8(text)
}

/// The bytes of one record, trailing line feed included.
pub open spec fn encode_record(r: Record) -> Seq<u8> {
    match r {
        Record::Put { timestamp, key, value } => seq![OP_SET] + spec_u128_to_le_bytes(timestamp)
            + encode_text(key) + encode_text(value) + seq![NEWLINE],
        Record::Delete { timestamp, key } => seq![OP_DELETE] + spec_u128_to_le_bytes(timestamp)
            + encode_text(key) + seq![NEWLINE],
    }
}

/// Appends a length-prefixed text to `out`.
fn push_text(out: &mut Vec<u8>, text: &str)
    ensures
        final(out)@ == old(out)@ + encode_text(text@),
{
    let bytes = text.as_bytes();
    let len = bytes.len();
    let field: u32 = ((len as u64) % 0x1_0000_0000u64) as u32;
    let prefix = u32_to_le_bytes(field);
    let ghost before = out@;
    out.extend_from_slice(prefix.as_slice());
    assert(out@ =~= before + prefix@);
    out.extend_from_slice(bytes);
    assert(out@ =~= before + encode_text(text@));
}

/// Encodes a SET record.
pub fn encode_set(timestamp: u128, key: &str, value: &str) -> (out: Vec<u8>)
    ensures
        out@ == encode_record(Record::Put { timestamp, key: key@, value: value@ }),
{
    let mut out: Vec<u8> = Vec::new();
    out.push(OP_SET);
    let stamp = u128_to_le_bytes(timestamp);
    out.extend_from_slice(stamp.as_slice());
    assert(out@ =~= seq![OP_SET] + spec_u128_to_le_bytes(timestamp));
    push_text(&mut out, key);
    push_text(&mut out, value);
    out.push(NEWLINE);
    assert(out@ =~= encode_record(Record::Put { timestamp, key: key@, value: value@ }));
    out
}

/// Encodes a DELETE record.
pub fn encode_delete(timestamp: u128, key: &str) -> (out: Vec<u8>)
    ensures
        out@ == encode_record(Record::Delete { timestamp, key: key@ }),
{
    let mut out: Vec<u8> = Vec::new();
    out.push(OP_DELETE);
    let stamp = u128_to_le_bytes(timestamp);
    out.extend_from_slice(stamp.as_slice());
    assert(out@ =~= seq![OP_DELETE] + spec_u128_to_le_bytes(timestamp));
    push_text(&mut out, key);
    out.push(NEWLINE);
    assert(out@ =~= encode_record(Record::Delete { timestamp, key: key@ }));
    out
}

impl WALOperation {
    /// The bytes of the record.
    pub fn encode(&self) -> (out: Vec<u8>)
        ensures
            out@ == encode_record(self@),
    {
        match self {
            WALOperation::Put { timestamp, key, value } => encode_set(
                *timestamp,
                key.as_str(),
                value.as_str(),
            ),
            WALOperation::Delete { timestamp, key } => encode_delete(*timestamp, key.as_str()),
        }
    }
}

/// The text that `String::from_utf8_lossy` makes of bytes that are not
/// well-formed UTF-8, with each ill-formed run replaced as that function
/// replaces it.
pub uninterp spec fn utf8_repaired(bytes: Seq<u8>) -> Seq<char>;

/// The text read from `bytes`: the decoded characters where the bytes are
/// well-formed UTF-8, and the repaired text otherwise.
pub open spec fn lossy_text(bytes: Seq<u8>) -> Seq<char> {
    if valid_utf8(bytes) {
        decode_utf8(bytes)
    } else {
        utf8_repaired(bytes)
    }
}

/// Calls `String::from_utf8_lossy`. Of well-formed UTF-8 the standard
/// library returns the text that the bytes encode; of anything else the
/// result is only named, by [`utf8_repaired`].
#[verifier::external_body]
pub(crate) fn text_from_bytes(bytes: &[u8]) -> (text: String)
    ensures
        valid_utf8(bytes@) ==> text@ == decode_utf8(bytes@),
        !valid_utf8(bytes@) ==> text@ == utf8_repaired(bytes@),
{
    String::from_utf8_lossy(bytes).into_owned()
}

/// What the bytes at a record boundary amount to.
pub enum Parsed {
    /// A whole record, and the number of bytes it takes. A line feed that
    /// directly follows the record is counted with it.
    Complete { record: Record, len: nat },
    /// A known opcode, but the buffer ends before the record does.
    Incomplete,
    /// The first byte is no opcode.
    Invalid,
}

/// A length-prefixed text read at `at`: its bytes and the position behind
/// them, or `None` where the buffer ends first.
pub open spec fn parse_text(s: Seq<u8>, at: int) -> Option<(Seq<u8>, int)> {
    if at + 4 > s.len() {
        None
    } else {
        let n = spec_u32_from_le_bytes(s.subrange(at, at + 4)) as int;
        if at + 4 + n > s.len() {
            None
        } else {
            Some((s.subrange(at + 4, at + 4 + n), at + 4 + n))
        }
    }
}

/// The position behind a record that ends at `end`: one further where a
/// line feed stands there.
pub open spec fn past_newline(s: Seq<u8>, end: int) -> nat {
    if end < s.len() && s[end] == NEWLINE {
        (end + 1) as nat
    } else {
        end as nat
    }
}

/// Reads the record whose opcode is `s[0]`.
pub open spec fn parse_record(s: Seq<u8>) -> Parsed {
    if s.len() == 0 {
        Parsed::Incomplete
    } else if s[0] == OP_SET {
        if s.len() < HEADER_LEN {
            Parsed::Incomplete
        } else {
            let timestamp = spec_u128_from_le_bytes(s.subrange(1, HEADER_LEN as int));
            match parse_text(s, HEADER_LEN as int) {
                None => Parsed::Incomplete,
                Some((key, key_end)) => match parse_text(s, key_end) {
                    None => Parsed::Incomplete,
                    Some((value, value_end)) => Parsed::Complete {
                        record: Record::Put {
                            timestamp,
                            key: lossy_text(key),
                            value: lossy_text(value),
                        },
                        len: past_newline(s, value_end),
                    },
                },
            }
        }
    } else if s[0] == OP_DELETE {
        if s.len() < HEADER_LEN {
            Parsed::Incomplete
        } else {
            let timestamp = spec_u128_from_le_bytes(s.subrange(1, HEADER_LEN as int));
            match parse_text(s, HEADER_LEN as int) {
                None => Parsed::Incomplete,
                Some((key, key_end)) => Parsed::Complete {
                    record: Record::Delete { timestamp, key: lossy_text(key) },
                    len: past_newline(s, key_end),
                },
            }
        }
    } else {
        Parsed::Invalid
    }
}

/// Reads a length-prefixed text at `at`.
pub(crate) fn read_text(s: &[u8], at: usize) -> (res: Option<(String, usize)>)
    requires
        at <= s@.len(),
    ensures
        match parse_text(s@, at as int) {
            None => res is None,
            Some((bytes, end)) => res matches Some((text, stop)) && text@ == lossy_text(bytes)
                && stop == end,
        },
{
    let total = s.len();
    if total - at < 4 {
        return None;
    }
    let n = u32_from_le_bytes(slice_subrange(s, at, at + 4)) as usize;
    let start = at + 4;
    if total - start < n {
        return None;
    }
    let text = text_from_bytes(slice_subrange(s, start, start + n));
    Some((text, start + n))
}

/// Steps over a line feed at `end`, if one stands there.
pub(crate) fn skip_newline(s: &[u8], end: usize) -> (stop: usize)
    requires
        end <= s@.len(),
    ensures
        stop == past_newline(s@, end as int),
        stop <= s@.len(),
{
    if end < s.len() && s[end] == NEWLINE {
        end + 1
    } else {
        end
    }
}

} // verus!
