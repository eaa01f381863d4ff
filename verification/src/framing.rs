//! The framer over a stream that arrives in pieces: what is reported does not
//! depend on how the stream is cut.

use vstd::prelude::*;
use crate::consistency::{consistent, lemma_stream_consistent};
use crate::context::{Machine, Outcome, MAX_MSG_SIZE};
use crate::nmea0183_codec::{frame, frame_once, scan, Framer};
use crate::stream::{
    lemma_count_of_unfinished, lemma_pending_run, lemma_run_concat, lemma_scan,
    lemma_split_at_ending, results, run, unfinished,
};

verus! {

/// The framer and the buffer after some bytes have been delivered, and what was
/// reported on the way.
#[verifier::ext_equal]
pub struct Delivery {
    pub codec: Framer,
    pub buf: Seq<u8>,
    pub outcomes: Seq<Outcome>,
}

/// What the reader of the stream does with the buffer: it calls the framer again
/// and again, until the framer has nothing more to report.
pub open spec fn drain(f: Framer, buf: Seq<u8>) -> Delivery
    decreases buf.len(),
    when f.machine.acc.event_count <= buf.len()
{
    let called = frame(f, buf);
    if called.outcome is Pending {
        Delivery { codec: called.codec, buf: called.buf, outcomes: Seq::empty() }
    } else {
        proof {
            lemma_frame_shrinks(f, buf);
        }
        let rest = drain(called.codec, called.buf);
        Delivery { outcomes: seq![called.outcome] + rest.outcomes, ..rest }
    }
}

/// A piece of the stream arrives: it is appended to the buffer, and the buffer
/// is drained.
pub open spec fn deliver(f: Framer, buf: Seq<u8>, chunk: Seq<u8>) -> Delivery {
    drain(f, buf + chunk)
}

/// The pieces arrive one after the other.
pub open spec fn deliver_all(f: Framer, buf: Seq<u8>, chunks: Seq<Seq<u8>>) -> Delivery
    decreases chunks.len(),
{
    if chunks.len() == 0 {
        Delivery { codec: f, buf, outcomes: Seq::empty() }
    } else {
        let before = deliver_all(f, buf, chunks.drop_last());
        let last = deliver(before.codec, before.buf, chunks.last());
        Delivery { outcomes: before.outcomes + last.outcomes, ..last }
    }
}

/// The endings that are reported: all, or all but the first if that is an error
/// and the framer is to drop it.
pub open spec fn reported(first: bool, endings: Seq<Outcome>) -> Seq<Outcome> {
    if first && endings.len() > 0 && endings[0] is Error {
        endings.skip(1)
    } else {
        endings
    }
}

/// Where a framer that had taken all of the buffer stands after `bytes` have
/// been delivered, in whatever pieces: the decoder has taken every byte once,
/// the endings among the bytes have been reported in order, and the buffer
/// holds the sentence in flight.
pub open spec fn delivered(f: Framer, buf: Seq<u8>, bytes: Seq<u8>) -> Delivery {
    let endings = results(f.machine, bytes);
    Delivery {
        codec: Framer { machine: run(f.machine, bytes), first: f.first && endings.len() == 0 },
        buf: if endings.len() == 0 {
            buf + bytes
        } else {
            unfinished(f.machine, bytes)
        },
        outcomes: reported(f.first, endings),
    }
}

/// A call that reports something takes at least one byte off the buffer and
/// leaves the decoder at the start of a sentence. A call that reports nothing
/// leaves the decoder with all of the buffer taken.
pub proof fn lemma_frame_shrinks(f: Framer, buf: Seq<u8>)
    requires
        f.machine.acc.event_count <= buf.len(),
    ensures
        frame(f, buf).buf.len() <= buf.len(),
        frame(f, buf).outcome is Pending ==> frame(f, buf).codec.machine.acc.event_count == frame(
            f,
            buf,
        ).buf.len(),
        !(frame(f, buf).outcome is Pending) ==> frame(f, buf).buf.len() < buf.len() && frame(
            f,
            buf,
        ).codec.machine == Machine::init(),
{
    let offset = f.machine.acc.event_count as int;
    let unread = buf.skip(offset);
    lemma_scan(f.machine, unread);
    let (s, rest) = frame_once(f.machine, buf);
    if s.outcome is Pending {
        lemma_pending_run(f.machine, unread);
        assert(unread.take(unread.len() as int) =~= unread);
    } else {
        assert(rest.skip(0) =~= rest);
        lemma_scan(s.next, rest);
        let again = scan(s.next, rest);
        if again.outcome is Pending {
            lemma_pending_run(s.next, rest);
            assert(rest.take(rest.len() as int) =~= rest);
        }
    }
}

/// Where draining leaves a framer that had taken the first bytes of the buffer.
spec fn drained(f: Framer, buf: Seq<u8>) -> Delivery {
    let unread = buf.skip(f.machine.acc.event_count as int);
    let endings = results(f.machine, unread);
    Delivery {
        codec: Framer { machine: run(f.machine, unread), first: f.first && endings.len() == 0 },
        buf: if endings.len() == 0 {
            buf
        } else {
            unfinished(f.machine, unread)
        },
        outcomes: reported(f.first, endings),
    }
}

proof fn lemma_drain(f: Framer, buf: Seq<u8>)
    requires
        f.machine.acc.event_count <= buf.len(),
    ensures
        drain(f, buf) == drained(f, buf),
    decreases buf.len(),
{
    let init = Machine::init();
    let unread = buf.skip(f.machine.acc.event_count as int);
    let found = scan(f.machine, unread);
    lemma_scan(f.machine, unread);
    if found.outcome is Pending {
        assert(unread.take(unread.len() as int) =~= unread);
        assert(drain(f, buf) =~= drained(f, buf));
    } else {
        lemma_split_at_ending(f.machine, unread);
        lemma_frame_shrinks(f, buf);
        let rest = buf.skip((f.machine.acc.event_count + found.consumed) as int);
        assert(rest =~= unread.skip(found.consumed as int));
        assert(rest.skip(0) =~= rest);
        let restart = Framer { machine: init, first: false };
        if f.first && found.outcome is Error {
            let again = scan(init, rest);
            lemma_scan(init, rest);
            if again.outcome is Pending {
                assert(rest.take(rest.len() as int) =~= rest);
                lemma_pending_run(init, rest);
                assert(reported(true, seq![found.outcome] + results(init, rest)) =~= Seq::<
                    Outcome,
                >::empty());
                assert(drain(f, buf) =~= drained(f, buf));
            } else {
                lemma_split_at_ending(init, rest);
                let later = rest.skip(again.consumed as int);
                assert(later.skip(0) =~= later);
                lemma_drain(restart, later);
                assert(reported(true, seq![found.outcome] + results(init, rest)) =~= seq![
                    again.outcome,
                ] + reported(false, results(init, later)));
                if results(init, later).len() == 0 {
                    lemma_pending_run(init, later);
                }
                assert(drain(f, buf) =~= drained(f, buf));
            }
        } else {
            lemma_drain(restart, rest);
            assert(reported(f.first, seq![found.outcome] + results(init, rest)) =~= seq![
                found.outcome,
            ] + reported(false, results(init, rest)));
            if results(init, rest).len() == 0 {
                lemma_pending_run(init, rest);
            }
            assert(drain(f, buf) =~= drained(f, buf));
        }
    }
}

/// One piece, delivered to a framer that had taken all of the buffer.
proof fn lemma_deliver(f: Framer, buf: Seq<u8>, chunk: Seq<u8>)
    requires
        f.machine.acc.event_count == buf.len(),
    ensures
        deliver(f, buf, chunk) == delivered(f, buf, chunk),
        delivered(f, buf, chunk).codec.machine.acc.event_count == delivered(
            f,
            buf,
            chunk,
        ).buf.len(),
{
    assert((buf + chunk).skip(buf.len() as int) =~= chunk);
    lemma_drain(f, buf + chunk);
    if results(f.machine, chunk).len() == 0 {
        lemma_pending_run(f.machine, chunk);
    } else {
        lemma_count_of_unfinished(f.machine, chunk);
    }
}

/// Delivering `a` and then `b` comes to the same as delivering them joined.
proof fn lemma_delivered_twice(f: Framer, buf: Seq<u8>, a: Seq<u8>, b: Seq<u8>)
    ensures
        ({
            let first = delivered(f, buf, a);
            let second = delivered(first.codec, first.buf, b);
            delivered(f, buf, a + b) == (Delivery {
                outcomes: first.outcomes + second.outcomes,
                ..second
            })
        }),
{
    lemma_run_concat(f.machine, a, b);
    let first = delivered(f, buf, a);
    let second = delivered(first.codec, first.buf, b);
    let ra = results(f.machine, a);
    let rb = results(run(f.machine, a), b);
    assert(reported(f.first, ra + rb) =~= first.outcomes + second.outcomes);
    assert((buf + a) + b =~= buf + (a + b));
    assert(delivered(f, buf, a + b) =~= (Delivery {
        outcomes: first.outcomes + second.outcomes,
        ..second
    }));
}

/// However the stream is cut into pieces, the framer ends up where the bytes
/// taken together lead.
pub proof fn lemma_deliver_all(f: Framer, buf: Seq<u8>, chunks: Seq<Seq<u8>>)
    requires
        f.machine.acc.event_count == buf.len(),
    ensures
        deliver_all(f, buf, chunks) == delivered(f, buf, chunks.flatten()),
        delivered(f, buf, chunks.flatten()).codec.machine.acc.event_count == delivered(
            f,
            buf,
            chunks.flatten(),
        ).buf.len(),
    decreases chunks.len(),
{
    chunks.lemma_flatten_and_flatten_alt_are_equivalent();
    if chunks.len() == 0 {
        assert(buf + chunks.flatten() =~= buf);
        assert(deliver_all(f, buf, chunks) =~= delivered(f, buf, chunks.flatten()));
    } else {
        let front = chunks.drop_last();
        front.lemma_flatten_and_flatten_alt_are_equivalent();
        assert(chunks.flatten() =~= front.flatten() + chunks.last());
        lemma_deliver_all(f, buf, front);
        let before = delivered(f, buf, front.flatten());
        lemma_deliver(before.codec, before.buf, chunks.last());
        lemma_delivered_twice(f, buf, front.flatten(), chunks.last());
    }
}

/// Framing does not depend on how the stream is cut into pieces.
///
/// A framer that has taken all that is in its buffer reports the same endings
/// in the same order, and is left in the same state with the same buffer,
/// whether the bytes that follow arrive one at a time, all at once, or in any
/// other pieces: every byte passes through the decoder exactly once.
pub proof fn lemma_chunking_is_immaterial(
    f: Framer,
    buf: Seq<u8>,
    a: Seq<Seq<u8>>,
    b: Seq<Seq<u8>>,
)
    requires
        f.machine.acc.event_count == buf.len(),
        a.flatten() == b.flatten(),
    ensures
        deliver_all(f, buf, a) == deliver_all(f, buf, b),
        deliver_all(f, buf, a).outcomes == reported(f.first, results(f.machine, a.flatten())),
{
    lemma_deliver_all(f, buf, a);
    lemma_deliver_all(f, buf, b);
}

/// The stream cut into pieces of one byte each.
pub open spec fn one_by_one(bytes: Seq<u8>) -> Seq<Seq<u8>> {
    Seq::new(bytes.len(), |i: int| seq![bytes[i]])
}

proof fn lemma_one_by_one(bytes: Seq<u8>)
    ensures
        one_by_one(bytes).flatten() == bytes,
    decreases bytes.len(),
{
    let pieces = one_by_one(bytes);
    pieces.lemma_flatten_and_flatten_alt_are_equivalent();
    if bytes.len() > 0 {
        let front = bytes.drop_last();
        lemma_one_by_one(front);
        one_by_one(front).lemma_flatten_and_flatten_alt_are_equivalent();
        assert(pieces.drop_last() =~= one_by_one(front));
        assert(pieces.flatten() =~= front + seq![bytes.last()]);
        assert(front + seq![bytes.last()] =~= bytes);
    }
}

/// Byte by byte or all at once: the framer reports the same, and so it does for
/// every way of cutting the stream in between.
pub proof fn lemma_one_by_one_or_at_once(
    f: Framer,
    buf: Seq<u8>,
    bytes: Seq<u8>,
    chunks: Seq<Seq<u8>>,
)
    requires
        f.machine.acc.event_count == buf.len(),
        chunks.flatten() == bytes,
    ensures
        deliver_all(f, buf, one_by_one(bytes)) == deliver_all(f, buf, seq![bytes]),
        deliver_all(f, buf, chunks) == deliver_all(f, buf, seq![bytes]),
{
    lemma_one_by_one(bytes);
    let whole = seq![bytes];
    whole.lemma_flatten_one_element();
    lemma_chunking_is_immaterial(f, buf, one_by_one(bytes), whole);
    lemma_chunking_is_immaterial(f, buf, chunks, whole);
}

/// Between two deliveries the buffer holds the sentence in flight and nothing
/// else, so it is never longer than a sentence may be.
pub proof fn lemma_buffer_is_bounded(f: Framer, buf: Seq<u8>, chunks: Seq<Seq<u8>>)
    requires
        f.machine.acc.event_count == buf.len(),
        consistent(f.machine),
    ensures
        deliver_all(f, buf, chunks).buf.len() == deliver_all(
            f,
            buf,
            chunks,
        ).codec.machine.acc.event_count,
        deliver_all(f, buf, chunks).buf.len() <= MAX_MSG_SIZE,
        consistent(deliver_all(f, buf, chunks).codec.machine),
{
    lemma_deliver_all(f, buf, chunks);
    lemma_stream_consistent(f.machine, chunks.flatten());
}

} // verus!
