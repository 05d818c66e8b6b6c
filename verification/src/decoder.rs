//! A pull-style decoder over a growing byte buffer.
//!
//! Bytes are fed in as they arrive; records are pulled out one at a time. A
//! record that the buffer does not yet hold in full is left untouched until
//! more bytes come. A byte that is no opcode at a record boundary is reported
//! once; from then on the decoder yields nothing, since nothing tells where
//! the next record would begin.

use vstd::prelude::*;
use vstd::bytes::u128_from_le_bytes;
use vstd::slice::slice_subrange;
use vstd::string::StringExecFns;
use crate::codec::{
    parse_record, read_text, skip_newline, Parsed, Record, WALOperation, HEADER_LEN, NEWLINE,
    OP_DELETE, OP_SET,
};

verus! {

/// What the decoder has still to read, and whether it has given up.
pub struct DecoderState {
    /// The bytes fed in and not yet consumed.
    pub pending: Seq<u8>,
    /// Set once an invalid opcode has been reported.
    pub failed: bool,
}

/// What one pull yields.
pub enum Pulled {
    /// Nothing: the buffer is exhausted, ends inside a record, or the decoder
    /// has failed before.
    Nothing,
    /// The next record.
    Record(Record),
    /// An invalid opcode, reported now.
    Invalid,
}

/// The text of the error that reports an invalid opcode.
pub open spec fn invalid_opcode_text() -> Seq<char> {
    "invalid opcode"@
}

/// The number of line feeds that `s` begins with.
pub open spec fn leading_newlines(s: Seq<u8>) -> nat
    decreases s.len(),
{
    if s.len() > 0 && s[0] == NEWLINE {
        1 + leading_newlines(s.skip(1))
    } else {
        0
    }
}

/// The state after `data` has been fed in.
pub open spec fn fed(st: DecoderState, data: Seq<u8>) -> DecoderState {
    DecoderState { pending: st.pending + data, failed: st.failed }
}

/// One pull: what it yields and the state it leaves.
///
/// Line feeds at the boundary are consumed first. A whole record is consumed
/// and yielded. A record cut short stays pending. An invalid opcode stays
/// pending too and marks the state as failed.
pub open spec fn pulled(st: DecoderState) -> (Pulled, DecoderState) {
    if st.failed {
        (Pulled::Nothing, st)
    } else {
        let rest = st.pending.skip(leading_newlines(st.pending) as int);
        if rest.len() == 0 {
            (Pulled::Nothing, DecoderState { pending: rest, failed: false })
        } else {
            match parse_record(rest) {
                Parsed::Complete { record, len } => (
                    Pulled::Record(record),
                    DecoderState { pending: rest.skip(len as int), failed: false },
                ),
                Parsed::Incomplete => (
                    Pulled::Nothing,
                    DecoderState { pending: rest, failed: false },
                ),
                Parsed::Invalid => (Pulled::Invalid, DecoderState { pending: rest, failed: true }),
            }
        }
    }
}

/// Whether the value handed out by a pull stands for `p`.
pub open spec fn yields(res: Option<Result<WALOperation, String>>, p: Pulled) -> bool {
    match p {
        Pulled::Nothing => res is None,
        Pulled::Record(record) => res matches Some(Ok(op)) && op@ == record,
        Pulled::Invalid => res matches Some(Err(text)) && text@ == invalid_opcode_text(),
    }
}

/// `leading_newlines` counts exactly the line feeds before the first other byte.
pub proof fn lemma_leading_newlines(s: Seq<u8>, k: nat)
    requires
        k <= s.len(),
        forall|i: int| 0 <= i < k ==> s[i] == NEWLINE,
        k < s.len() ==> s[k as int] != NEWLINE,
    ensures
        leading_newlines(s) == k,
    decreases k,
{
    if k > 0 {
        let t = s.skip(1);
        assert forall|i: int| 0 <= i < k - 1 implies t[i] == NEWLINE by {
            assert(t[i] == s[i + 1]);
        }
        lemma_leading_newlines(t, (k - 1) as nat);
    }
}

/// The streaming decoder.
pub struct WALDecoder {
    buffer: Vec<u8>,
    offset: usize,
    failed: bool,
}

impl View for WALDecoder {
    type V = DecoderState;

    closed spec fn view(&self) -> DecoderState {
        DecoderState {
            pending: self.buffer@.subrange(self.offset as int, self.buffer@.len() as int),
            failed: self.failed,
        }
    }
}

impl WALDecoder {
    #[verifier::type_invariant]
    spec fn cursor_in_buffer(&self) -> bool {
        self.offset <= self.buffer@.len()
    }

    /// The number of bytes that the decoder holds in memory, consumed ones
    /// included.
    pub closed spec fn held(&self) -> nat {
        self.buffer@.len()
    }

    /// A decoder that holds nothing.
    pub fn new() -> (d: Self)
        ensures
            d@ == (DecoderState { pending: Seq::<u8>::empty(), failed: false }),
            d.held() == 0,
    {
        let d = Self { buffer: Vec::new(), offset: 0, failed: false };
        assert(d.buffer@.subrange(0, 0) =~= Seq::<u8>::empty());
        d
    }

    /// Appends `data` to what is pending.
    pub fn feed(&mut self, data: &[u8])
        ensures
            final(self)@ == fed(old(self)@, data@),
            final(self).held() == old(self).held() + data@.len(),
    {
        proof {
            use_type_invariant(&*self);
        }
        let ghost before = self.buffer@;
        let offset = self.offset;
        let mut buffer = self.take_buffer();
        buffer.extend_from_slice(data);
        assert(buffer@ =~= before + data@);
        assert(buffer@.subrange(offset as int, buffer@.len() as int) =~= before.subrange(
            offset as int,
            before.len() as int,
        ) + data@);
        *self = WALDecoder { buffer, offset, failed: self.failed };
    }

    /// Moves the buffer out, leaving an empty one and the cursor at its start.
    fn take_buffer(&mut self) -> (buffer: Vec<u8>)
        ensures
            buffer == old(self).buffer,
            final(self).buffer@.len() == 0,
            final(self).offset == 0,
            final(self).failed == old(self).failed,
    {
        let mut buffer: Vec<u8> = Vec::new();
        self.offset = 0;
        core::mem::swap(&mut self.buffer, &mut buffer);
        buffer
    }

    /// The number of bytes held in memory.
    pub fn buffered_len(&self) -> (n: usize)
        ensures
            n == self.held(),
    {
        self.buffer.len()
    }

    /// Reads the SET record whose opcode is `s[0]`: the record and the number
    /// of bytes it takes, or `None` where `s` ends first.
    fn decode_set(s: &[u8]) -> (res: Option<(WALOperation, usize)>)
        requires
            s@.len() > 0,
            s@[0] == OP_SET,
        ensures
            match parse_record(s@) {
                Parsed::Complete { record, len } => res matches Some((op, n)) && op@ == record
                    && n == len && 0 < n <= s@.len(),
                _ => res is None,
            },
    {
        if s.len() < HEADER_LEN {
            return None;
        }
        let timestamp = u128_from_le_bytes(slice_subrange(s, 1, HEADER_LEN));
        match read_text(s, HEADER_LEN) {
            None => None,
            Some((key, key_end)) => match read_text(s, key_end) {
                None => None,
                Some((value, value_end)) => {
                    let stop = skip_newline(s, value_end);
                    Some((WALOperation::Put { timestamp, key, value }, stop))
                },
            },
        }
    }

    /// Reads the DELETE record whose opcode is `s[0]`: the record and the
    /// number of bytes it takes, or `None` where `s` ends first.
    fn decode_delete(s: &[u8]) -> (res: Option<(WALOperation, usize)>)
        requires
            s@.len() > 0,
            s@[0] == OP_DELETE,
        ensures
            match parse_record(s@) {
                Parsed::Complete { record, len } => res matches Some((op, n)) && op@ == record
                    && n == len && 0 < n <= s@.len(),
                _ => res is None,
            },
    {
        if s.len() < HEADER_LEN {
            return None;
        }
        let timestamp = u128_from_le_bytes(slice_subrange(s, 1, HEADER_LEN));
        match read_text(s, HEADER_LEN) {
            None => None,
            Some((key, key_end)) => {
                let stop = skip_newline(s, key_end);
                Some((WALOperation::Delete { timestamp, key }, stop))
            },
        }
    }

    /// Pulls the next record.
    ///
    /// Returns `Some(Ok(..))` with the next whole record, `Some(Err(..))` once
    /// for an invalid opcode, and `None` where the buffer is exhausted, ends
    /// inside a record, or an invalid opcode was reported before.
    pub fn next_operation(&mut self) -> (res: Option<Result<WALOperation, String>>)
        ensures
            yields(res, pulled(old(self)@).0),
            final(self)@ == pulled(old(self)@).1,
            final(self).held() == old(self).held(),
    {
        proof {
            use_type_invariant(&*self);
        }
        if self.failed {
            return None;
        }
        let total = self.buffer.len();
        let ghost pending = self@.pending;
        let start = self.offset;
        let mut at = self.offset;
        while at < total && self.buffer[at] == NEWLINE
            invariant
                start <= at <= total,
                total == self.buffer@.len(),
                self.offset == start,
                forall|i: int| start <= i < at ==> self.buffer@[i] == NEWLINE,
            decreases total - at,
        {
            at += 1;
        }
        proof {
            assert forall|i: int| 0 <= i < at - start implies pending[i] == NEWLINE by {
                assert(pending[i] == self.buffer@[start + i]);
            }
            lemma_leading_newlines(pending, (at - start) as nat);
        }
        let ghost rest = pending.skip((at - start) as int);
        assert(rest =~= self.buffer@.subrange(at as int, total as int));
        self.offset = at;
        if at >= total {
            return None;
        }
        let s = slice_subrange(self.buffer.as_slice(), at, total);
        let opcode = s[0];
        let decoded = if opcode == OP_SET {
            Self::decode_set(s)
        } else if opcode == OP_DELETE {
            Self::decode_delete(s)
        } else {
            self.failed = true;
            return Some(Err(String::from_str("invalid opcode")));
        };
        match decoded {
            None => None,
            Some((op, n)) => {
                self.offset = at + n;
                assert(rest.skip(n as int) =~= self.buffer@.subrange(
                    (at + n) as int,
                    total as int,
                ));
                Some(Ok(op))
            },
        }
    }

    /// Drops the consumed bytes from memory. What is pending stays as it is.
    pub fn compact(&mut self)
        ensures
            final(self)@ == old(self)@,
            final(self).held() == old(self)@.pending.len(),
    {
        proof {
            use_type_invariant(&*self);
        }
        if self.offset > 0 {
            let ghost before = self.buffer@;
            let offset = self.offset;
            let mut buffer = self.take_buffer();
            let rest = buffer.split_off(offset);
            assert(rest@.subrange(0, rest@.len() as int) =~= before.subrange(
                offset as int,
                before.len() as int,
            ));
            *self = WALDecoder { buffer: rest, offset: 0, failed: self.failed };
        } else {
            assert(self.buffer@.subrange(0, self.buffer@.len() as int) =~= self.buffer@);
        }
    }
}

} // verus!
