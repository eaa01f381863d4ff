//! The decoder over runs of bytes: where it ends up and which sentences end on
//! the way.

use vstd::prelude::*;
use crate::context::{step, too_long_text, Machine, Outcome, MAX_MSG_SIZE};
use crate::nmea0183_codec::{scan, Scan};
use crate::state::LF;

verus! {

/// The decoder after it has taken all of the bytes.
pub open spec fn run(m: Machine, bytes: Seq<u8>) -> Machine
    decreases bytes.len(),
{
    if bytes.len() == 0 {
        m
    } else {
        step(run(m, bytes.drop_last()), bytes.last()).next
    }
}

/// What the sentences that end among the bytes come to, in the order in which
/// they end.
pub open spec fn results(m: Machine, bytes: Seq<u8>) -> Seq<Outcome>
    decreases bytes.len(),
{
    if bytes.len() == 0 {
        Seq::empty()
    } else {
        let before = results(m, bytes.drop_last());
        let last = step(run(m, bytes.drop_last()), bytes.last()).outcome;
        if last is Pending {
            before
        } else {
            before.push(last)
        }
    }
}

/// The bytes of the sentence that is still in flight after the decoder has taken
/// all of the bytes: those after the last ending.
pub open spec fn unfinished(m: Machine, bytes: Seq<u8>) -> Seq<u8>
    decreases bytes.len(),
{
    if bytes.len() == 0 {
        Seq::empty()
    } else if step(run(m, bytes.drop_last()), bytes.last()).outcome is Pending {
        unfinished(m, bytes.drop_last()).push(bytes.last())
    } else {
        Seq::empty()
    }
}

/// Whatever ends a sentence leaves the decoder as it was before the first byte:
/// nothing of the sentence, accepted or rejected, is carried over.
pub proof fn lemma_ending_starts_afresh(m: Machine, b: u8)
    ensures
        !(step(m, b).outcome is Pending) ==> step(m, b).next == Machine::init(),
        step(m, b).outcome is Pending ==> step(m, b).next.acc.event_count == m.acc.event_count
            + 1,
        step(m, b).outcome is Pending ==> b != LF && m.acc.event_count < MAX_MSG_SIZE,
{
}

/// A line feed ends the sentence in every state, so the decoder finds its way
/// back into the stream at the next line feed whatever came before.
pub proof fn lemma_line_feed_ends(m: Machine)
    ensures
        !(step(m, LF).outcome is Pending),
        step(m, LF).next == Machine::init(),
{
}

/// One more byte is one more step.
pub proof fn lemma_run_push(m: Machine, bytes: Seq<u8>, b: u8)
    ensures
        run(m, bytes.push(b)) == step(run(m, bytes), b).next,
        results(m, bytes.push(b)) == if step(run(m, bytes), b).outcome is Pending {
            results(m, bytes)
        } else {
            results(m, bytes).push(step(run(m, bytes), b).outcome)
        },
        unfinished(m, bytes.push(b)) == if step(run(m, bytes), b).outcome is Pending {
            unfinished(m, bytes).push(b)
        } else {
            Seq::empty()
        },
{
    assert(bytes.push(b).drop_last() =~= bytes);
}

/// A single byte is a single step.
pub proof fn lemma_run_one(m: Machine, b: u8)
    ensures
        run(m, seq![b]) == step(m, b).next,
        results(m, seq![b]) == if step(m, b).outcome is Pending {
            Seq::<Outcome>::empty()
        } else {
            seq![step(m, b).outcome]
        },
{
    lemma_run_push(m, Seq::empty(), b);
    assert(Seq::<u8>::empty().push(b) =~= seq![b]);
    assert(Seq::<Outcome>::empty().push(step(m, b).outcome) =~= seq![step(m, b).outcome]);
}

/// Feeding two runs of bytes one after the other is feeding them joined.
pub proof fn lemma_run_concat(m: Machine, a: Seq<u8>, b: Seq<u8>)
    ensures
        run(m, a + b) == run(run(m, a), b),
        results(m, a + b) == results(m, a) + results(run(m, a), b),
        unfinished(m, a + b) == if results(run(m, a), b).len() == 0 {
            unfinished(m, a) + b
        } else {
            unfinished(run(m, a), b)
        },
    decreases b.len(),
{
    if b.len() == 0 {
        assert(a + b =~= a);
        assert(results(m, a) + results(run(m, a), b) =~= results(m, a));
        assert(unfinished(m, a) + b =~= unfinished(m, a));
    } else {
        lemma_run_concat(m, a, b.drop_last());
        assert((a + b).drop_last() =~= a + b.drop_last());
        assert((a + b).last() == b.last());
        let before = results(run(m, a), b.drop_last());
        let last = step(run(m, a + b.drop_last()), b.last()).outcome;
        if last is Pending {
            assert(unfinished(m, a + b) =~= unfinished(m, a + b.drop_last()).push(b.last()));
            if before.len() == 0 {
                assert((unfinished(m, a) + b.drop_last()).push(b.last()) =~= unfinished(m, a)
                    + b) by {
                    assert(b.drop_last().push(b.last()) =~= b);
                }
            }
        } else {
            assert(results(m, a) + before.push(last) =~= (results(m, a) + before).push(last));
        }
    }
}

/// As long as nothing ends, the byte count of the decoder goes up by one with
/// each byte, and all the bytes belong to the sentence in flight.
pub proof fn lemma_pending_run(m: Machine, bytes: Seq<u8>)
    requires
        results(m, bytes).len() == 0,
    ensures
        run(m, bytes).acc.event_count == m.acc.event_count + bytes.len(),
        unfinished(m, bytes) == bytes,
        forall|i: int| 0 <= i < bytes.len() ==> bytes[i] != LF,
    decreases bytes.len(),
{
    if bytes.len() > 0 {
        let front = bytes.drop_last();
        lemma_pending_run(m, front);
        lemma_ending_starts_afresh(run(m, front), bytes.last());
        assert(front.push(bytes.last()) =~= bytes);
    }
}

/// What the search for the first ending finds, said by way of `run` and `results`.
///
/// If no sentence ends among the bytes, all are taken. If one does, the bytes up
/// to and including the one that ends it are taken, that ending is the only one
/// among them, and the decoder is left as before the first byte of a sentence.
pub proof fn lemma_scan(m: Machine, bytes: Seq<u8>)
    ensures
        scan(m, bytes).consumed <= bytes.len(),
        scan(m, bytes).next == run(m, bytes.take(scan(m, bytes).consumed as int)),
        scan(m, bytes).outcome is Pending ==> scan(m, bytes).consumed == bytes.len() && results(
            m,
            bytes,
        ).len() == 0,
        !(scan(m, bytes).outcome is Pending) ==> {
            &&& scan(m, bytes).consumed >= 1
            &&& scan(m, bytes).next == Machine::init()
            &&& results(m, bytes.take(scan(m, bytes).consumed as int)) == seq![
                scan(m, bytes).outcome,
            ]
            &&& unfinished(m, bytes.take(scan(m, bytes).consumed as int)).len() == 0
        },
    decreases bytes.len(),
{
    if bytes.len() == 0 {
        assert(bytes.take(0) =~= bytes);
    } else {
        let head = seq![bytes[0]];
        let first = step(m, bytes[0]);
        lemma_run_one(m, bytes[0]);
        if first.outcome is Pending {
            let tail = bytes.skip(1);
            lemma_scan(first.next, tail);
            let n = scan(first.next, tail).consumed as int;
            assert(bytes.take(n + 1) =~= head + tail.take(n));
            lemma_run_concat(m, head, tail.take(n));
            assert(results(m, head) + results(first.next, tail.take(n)) =~= results(
                first.next,
                tail.take(n),
            ));
            if scan(m, bytes).outcome is Pending {
                assert(tail.take(n) =~= tail);
                assert(bytes.take(n + 1) =~= bytes);
            }
        } else {
            assert(bytes.take(1) =~= head);
        }
    }
}

/// A line of more than 82 bytes is cut off at its 83rd byte, whatever it holds.
///
/// If the decoder has taken `m.acc.event_count` bytes of a sentence and none of
/// the bytes that would take it to the maximum length is a line feed, then the
/// byte after them ends the sentence with the length error, which keeps the
/// reason of an earlier rejection in front. No message comes of such a line.
pub proof fn lemma_overlong_is_cut_off(m: Machine, bytes: Seq<u8>)
    requires
        m.acc.event_count <= MAX_MSG_SIZE,
        bytes.len() > MAX_MSG_SIZE - m.acc.event_count,
        forall|i: int| 0 <= i < MAX_MSG_SIZE - m.acc.event_count ==> bytes[i] != LF,
    ensures
        scan(m, bytes) == (Scan {
            consumed: (MAX_MSG_SIZE - m.acc.event_count + 1) as nat,
            next: Machine::init(),
            outcome: Outcome::Error(
                too_long_text(run(m, bytes.take(MAX_MSG_SIZE - m.acc.event_count)).acc.error),
            ),
        }),
    decreases MAX_MSG_SIZE - m.acc.event_count,
{
    let room = MAX_MSG_SIZE - m.acc.event_count;
    if room == 0 {
        assert(bytes.take(0) =~= Seq::<u8>::empty());
    } else {
        let first = step(m, bytes[0]);
        let tail = bytes.skip(1);
        lemma_overlong_is_cut_off(first.next, tail);
        let head = seq![bytes[0]];
        lemma_run_one(m, bytes[0]);
        assert(bytes.take(room) =~= head + tail.take(room - 1));
        lemma_run_concat(m, head, tail.take(room - 1));
    }
}

/// If the last of the bytes is the first to end a sentence, the search for the
/// first ending takes them all and finds that ending.
pub proof fn lemma_scan_to_first_ending(m: Machine, bytes: Seq<u8>)
    requires
        bytes.len() > 0,
        results(m, bytes.drop_last()).len() == 0,
        !(step(run(m, bytes.drop_last()), bytes.last()).outcome is Pending),
    ensures
        scan(m, bytes) == (Scan {
            consumed: bytes.len(),
            next: Machine::init(),
            outcome: step(run(m, bytes.drop_last()), bytes.last()).outcome,
        }),
        results(m, bytes) == seq![step(run(m, bytes.drop_last()), bytes.last()).outcome],
        run(m, bytes) == Machine::init(),
{
    let front = bytes.drop_last();
    let last = step(run(m, front), bytes.last()).outcome;
    assert(results(m, bytes) =~= seq![last]);
    lemma_scan(m, bytes);
    let found = scan(m, bytes);
    let c = found.consumed as int;
    assert(!(found.outcome is Pending));
    if c < bytes.len() {
        assert(front =~= bytes.take(c) + front.skip(c));
        lemma_run_concat(m, bytes.take(c), front.skip(c));
        assert(false);
    }
    assert(bytes.take(c) =~= bytes);
    assert(seq![found.outcome][0] == seq![last][0]);
}

/// What follows the first ending is decoded as if the stream began there.
pub proof fn lemma_split_at_ending(m: Machine, bytes: Seq<u8>)
    requires
        !(scan(m, bytes).outcome is Pending),
    ensures
        1 <= scan(m, bytes).consumed <= bytes.len(),
        scan(m, bytes).next == Machine::init(),
        run(m, bytes) == run(Machine::init(), bytes.skip(scan(m, bytes).consumed as int)),
        results(m, bytes) == seq![scan(m, bytes).outcome] + results(
            Machine::init(),
            bytes.skip(scan(m, bytes).consumed as int),
        ),
        unfinished(m, bytes) == unfinished(
            Machine::init(),
            bytes.skip(scan(m, bytes).consumed as int),
        ),
{
    lemma_scan(m, bytes);
    let c = scan(m, bytes).consumed as int;
    let rest = bytes.skip(c);
    assert(bytes =~= bytes.take(c) + rest);
    lemma_run_concat(m, bytes.take(c), rest);
    if results(Machine::init(), rest).len() == 0 {
        lemma_pending_run(Machine::init(), rest);
        assert(unfinished(m, bytes.take(c)) + rest =~= rest);
    }
}

/// The byte count of the decoder is the length of the sentence in flight.
pub proof fn lemma_count_of_unfinished(m: Machine, bytes: Seq<u8>)
    requires
        results(m, bytes).len() > 0,
    ensures
        run(m, bytes).acc.event_count == unfinished(m, bytes).len(),
    decreases bytes.len(),
{
    if bytes.len() > 0 {
        let front = bytes.drop_last();
        lemma_ending_starts_afresh(run(m, front), bytes.last());
        if step(run(m, front), bytes.last()).outcome is Pending {
            lemma_count_of_unfinished(m, front);
        }
    }
}

/// What comes after the first ending has no part in finding it.
pub proof fn lemma_scan_stops_at_ending(m: Machine, bytes: Seq<u8>, more: Seq<u8>)
    requires
        !(scan(m, bytes).outcome is Pending),
    ensures
        scan(m, bytes + more) == scan(m, bytes),
    decreases bytes.len(),
{
    if bytes.len() > 0 {
        assert((bytes + more)[0] == bytes[0]);
        if step(m, bytes[0]).outcome is Pending {
            assert((bytes + more).skip(1) =~= bytes.skip(1) + more);
            lemma_scan_stops_at_ending(step(m, bytes[0]).next, bytes.skip(1), more);
        }
    }
}

} // verus!
