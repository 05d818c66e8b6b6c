//! What a decoder yields over a whole stream, and why the way the stream is
//! cut into chunks does not matter.

use vstd::prelude::*;
use crate::codec::{parse_record, parse_text, Parsed, HEADER_LEN, NEWLINE};
use crate::decoder::{fed, leading_newlines, pulled, DecoderState, Pulled};

verus! {

/// A bound on the pulls that can still yield something.
pub open spec fn budget(st: DecoderState) -> nat {
    if st.failed {
        0
    } else {
        st.pending.len() + 1
    }
}

/// The leading line feeds lie within the sequence, and the byte behind them
/// is no line feed.
pub proof fn lemma_leading_newlines_bound(s: Seq<u8>)
    ensures
        leading_newlines(s) <= s.len(),
        forall|i: int| 0 <= i < leading_newlines(s) ==> s[i] == NEWLINE,
        leading_newlines(s) < s.len() ==> s[leading_newlines(s) as int] != NEWLINE,
    decreases s.len(),
{
    if s.len() > 0 && s[0] == NEWLINE {
        let t = s.skip(1);
        lemma_leading_newlines_bound(t);
        assert forall|i: int| 0 <= i < leading_newlines(s) implies s[i] == NEWLINE by {
            if i > 0 {
                assert(s[i] == t[i - 1]);
            }
        }
        if leading_newlines(s) < s.len() {
            assert(s[leading_newlines(s) as int] == t[leading_newlines(t) as int]);
        }
    }
}

/// A whole record takes at least its header and lies within the buffer.
pub proof fn lemma_parse_bounds(s: Seq<u8>)
    ensures
        parse_record(s) matches Parsed::Complete { len, .. } ==> HEADER_LEN < len <= s.len(),
{
}

/// A pull that yields something leaves less to do.
pub proof fn lemma_pull_shrinks(st: DecoderState)
    ensures
        !(pulled(st).0 is Nothing) ==> budget(pulled(st).1) < budget(st),
        pulled(st).1.pending.len() <= st.pending.len(),
{
    lemma_leading_newlines_bound(st.pending);
    if !st.failed {
        let rest = st.pending.skip(leading_newlines(st.pending) as int);
        lemma_parse_bounds(rest);
    }
}

/// Everything that repeated pulls yield until one yields nothing, and the
/// state that is left.
pub open spec fn drained(st: DecoderState) -> (Seq<Pulled>, DecoderState)
    decreases budget(st),
{
    let step = pulled(st);
    if step.0 is Nothing {
        (Seq::empty(), step.1)
    } else {
        proof {
            lemma_pull_shrinks(st);
        }
        let more = drained(step.1);
        (seq![step.0] + more.0, more.1)
    }
}

/// The chunks laid end to end.
pub open spec fn joined(chunks: Seq<Seq<u8>>) -> Seq<u8>
    decreases chunks.len(),
{
    if chunks.len() == 0 {
        Seq::empty()
    } else {
        joined(chunks.drop_last()) + chunks.last()
    }
}

/// What a decoder yields when it is drained at the start and again after
/// each chunk is fed in.
pub open spec fn streamed(st: DecoderState, chunks: Seq<Seq<u8>>) -> (Seq<Pulled>, DecoderState)
    decreases chunks.len(),
{
    if chunks.len() == 0 {
        drained(st)
    } else {
        let before = streamed(st, chunks.drop_last());
        let after = drained(fed(before.1, chunks.last()));
        (before.0 + after.0, after.1)
    }
}

/// A line feed at the boundary changes nothing about a pull.
proof fn lemma_pull_skips_newline(p: Seq<u8>)
    requires
        p.len() > 0,
        p[0] == NEWLINE,
    ensures
        pulled(DecoderState { pending: p, failed: false }) == pulled(
            DecoderState { pending: p.skip(1), failed: false },
        ),
{
    let k = leading_newlines(p.skip(1));
    assert(leading_newlines(p) == k + 1);
    lemma_leading_newlines_bound(p.skip(1));
    assert(p.skip(k + 1 as int) =~= p.skip(1).skip(k as int));
}

/// The line feeds that a pull would step over may as well be gone before
/// more bytes arrive.
proof fn lemma_pull_after_newlines(p: Seq<u8>, b: Seq<u8>)
    ensures
        pulled(DecoderState { pending: p + b, failed: false }) == pulled(
            DecoderState { pending: p.skip(leading_newlines(p) as int) + b, failed: false },
        ),
    decreases p.len(),
{
    if p.len() > 0 && p[0] == NEWLINE {
        let t = p.skip(1);
        lemma_leading_newlines_bound(t);
        assert((p + b)[0] == NEWLINE);
        assert((p + b).skip(1) =~= t + b);
        lemma_pull_skips_newline(p + b);
        lemma_pull_after_newlines(t, b);
        assert(p.skip(leading_newlines(p) as int) =~= t.skip(leading_newlines(t) as int));
    } else {
        assert(p.skip(0) =~= p);
    }
}

/// States from which a pull does the same are drained alike.
proof fn lemma_drained_alike(x: DecoderState, y: DecoderState)
    requires
        pulled(x) == pulled(y),
    ensures
        drained(x) == drained(y),
{
}

/// More bytes behind a whole record leave the record as it is; they can only
/// add the line feed that closes it. More bytes behind an invalid opcode
/// leave it invalid.
proof fn lemma_parse_extended(s: Seq<u8>, t: Seq<u8>)
    ensures
        match parse_record(s) {
            Parsed::Complete { record, len } => parse_record(s + t) matches Parsed::Complete {
                record: again,
                len: longer,
            } && again == record && (longer == len || (longer == len + 1 && len == s.len()
                && t.len() > 0 && t[0] == NEWLINE)),
            Parsed::Invalid => parse_record(s + t) is Invalid,
            Parsed::Incomplete => true,
        },
{
    let u = s + t;
    if s.len() >= HEADER_LEN {
        assert(u.subrange(1, HEADER_LEN as int) =~= s.subrange(1, HEADER_LEN as int));
        lemma_text_extended(s, t, HEADER_LEN as int);
        if let Some((key, key_end)) = parse_text(s, HEADER_LEN as int) {
            lemma_text_extended(s, t, key_end);
        }
    }
}

/// A text that the buffer holds in full reads the same with more bytes
/// behind it.
proof fn lemma_text_extended(s: Seq<u8>, t: Seq<u8>, at: int)
    requires
        0 <= at,
    ensures
        parse_text(s, at) is Some ==> parse_text(s + t, at) == parse_text(s, at),
        parse_text(s, at) matches Some((_, end)) ==> at + 4 <= end <= s.len(),
{
    let u = s + t;
    if at + 4 <= s.len() {
        assert(u.subrange(at, at + 4) =~= s.subrange(at, at + 4));
        if let Some((bytes, end)) = parse_text(s, at) {
            assert(u.subrange(at + 4, end) =~= s.subrange(at + 4, end));
        }
    }
}

/// What more bytes do to a pull from a state that has not failed: a pull
/// that yielded nothing is simply made again; a record or an invalid opcode
/// is yielded as before, and what follows is drained alike.
proof fn lemma_pull_extended(x: DecoderState, b: Seq<u8>)
    requires
        !x.failed,
    ensures
        ({
            let step = pulled(x);
            let next = pulled(fed(x, b));
            match step.0 {
                Pulled::Nothing => next == pulled(fed(step.1, b)),
                Pulled::Invalid => next == (Pulled::Invalid, fed(step.1, b)),
                Pulled::Record(_) => next.0 == step.0 && pulled(next.1) == pulled(
                    fed(step.1, b),
                ),
            }
        }),
{
    let step = pulled(x);
    let k = leading_newlines(x.pending);
    let rest = x.pending.skip(k as int);
    lemma_leading_newlines_bound(x.pending);
    lemma_pull_after_newlines(x.pending, b);
    let y = DecoderState { pending: rest + b, failed: false };
    assert(pulled(fed(x, b)) == pulled(y));
    if step.0 is Nothing {
        assert(fed(step.1, b) == y);
    } else {
        lemma_parse_bounds(rest);
        lemma_parse_extended(rest, b);
        assert(rest.len() > 0);
        assert((rest + b)[0] == rest[0]);
        assert(leading_newlines(rest + b) == 0);
        assert((rest + b).skip(0) =~= rest + b);
        let next = pulled(y);
        if step.0 is Invalid {
            assert(next.1 == fed(step.1, b));
        } else {
            let len = parse_record(rest)->len;
            let longer = parse_record(rest + b)->len;
            if longer == len {
                assert((rest + b).skip(len as int) =~= rest.skip(len as int) + b);
                assert(next.1 == fed(step.1, b));
            } else {
                assert(rest.skip(len as int) =~= Seq::<u8>::empty());
                assert(fed(step.1, b).pending =~= b);
                assert((rest + b).skip(longer as int) =~= b.skip(1));
                lemma_pull_skips_newline(b);
            }
        }
    }
}

/// Draining, feeding a chunk and draining again yields what feeding the
/// chunk and draining once yields.
pub proof fn lemma_drain_then_feed(x: DecoderState, b: Seq<u8>)
    ensures
        ({
            let first = drained(x);
            let second = drained(fed(first.1, b));
            drained(fed(x, b)) == (first.0 + second.0, second.1)
        }),
    decreases budget(x),
{
    let first = drained(x);
    let second = drained(fed(first.1, b));
    let step = pulled(x);
    let next = pulled(fed(x, b));
    if x.failed {
        assert(first.0 + second.0 =~= second.0);
    } else {
        lemma_pull_extended(x, b);
        match step.0 {
            Pulled::Nothing => {
                lemma_drained_alike(fed(x, b), fed(step.1, b));
                assert(first.0 + second.0 =~= second.0);
            },
            Pulled::Invalid => {
                assert(step.1.failed);
                assert(first.0 =~= seq![step.0]);
                assert(first.0 + second.0 =~= seq![step.0] + Seq::<Pulled>::empty());
            },
            Pulled::Record(_) => {
                lemma_pull_shrinks(x);
                lemma_drain_then_feed(step.1, b);
                lemma_drained_alike(next.1, fed(step.1, b));
                let inner = drained(step.1);
                assert(seq![step.0] + (inner.0 + second.0) =~= (seq![step.0] + inner.0)
                    + second.0);
            },
        }
    }
}

/// Feeding two chunks one after the other, draining after each, yields what
/// feeding both at once yields.
pub proof fn lemma_two_chunks(st: DecoderState, a: Seq<u8>, b: Seq<u8>)
    ensures
        ({
            let first = drained(fed(st, a));
            let second = drained(fed(first.1, b));
            drained(fed(st, a + b)) == (first.0 + second.0, second.1)
        }),
{
    lemma_drain_then_feed(fed(st, a), b);
    assert(st.pending + (a + b) =~= (st.pending + a) + b);
}

/// However a stream is cut into chunks, a decoder that is drained after each
/// chunk yields the records, and is left in the state, that it would reach
/// had the whole stream been fed in at once. Feeding byte by byte is the
/// case of chunks of one byte each.
pub proof fn lemma_chunking_is_invisible(st: DecoderState, chunks: Seq<Seq<u8>>)
    ensures
        streamed(st, chunks) == drained(fed(st, joined(chunks))),
    decreases chunks.len(),
{
    if chunks.len() == 0 {
        assert(st.pending + Seq::<u8>::empty() =~= st.pending);
    } else {
        let front = chunks.drop_last();
        lemma_chunking_is_invisible(st, front);
        lemma_drain_then_feed(fed(st, joined(front)), chunks.last());
        assert(st.pending + (joined(front) + chunks.last()) =~= (st.pending + joined(front))
            + chunks.last());
    }
}

} // verus!
