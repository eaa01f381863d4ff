//! The framer: finds the sentences in a buffer that grows as bytes arrive.

use vstd::prelude::*;
use bytes::BytesMut;
use crate::buffer::contents;
use crate::consistency::{consistent, lemma_frame_consistent};
use crate::context::{outcome_of, step, Context, Machine, Outcome};
use crate::framing::lemma_frame_shrinks;
use crate::msg::Nmea0183Msg;

verus! {

/// How far a run of bytes takes the decoder: to the end of the first sentence
/// that ends among them, or through all of them.
#[verifier::ext_equal]
pub struct Scan {
    /// The number of bytes taken.
    pub consumed: nat,
    /// The decoder after them.
    pub next: Machine,
    /// What the last of them brought about.
    pub outcome: Outcome,
}

/// Feeds the bytes one by one until a sentence ends or the bytes run out.
pub open spec fn scan(m: Machine, bytes: Seq<u8>) -> Scan
    decreases bytes.len(),
{
    if bytes.len() == 0 {
        Scan { consumed: 0, next: m, outcome: Outcome::Pending }
    } else {
        let first = step(m, bytes[0]);
        if first.outcome is Pending {
            let rest = scan(first.next, bytes.skip(1));
            Scan { consumed: rest.consumed + 1, ..rest }
        } else {
            Scan { consumed: 1, next: first.next, outcome: first.outcome }
        }
    }
}

/// What the framer holds, as mathematical values.
#[verifier::ext_equal]
pub struct Framer {
    /// The decoder. Its byte count is the number of bytes at the front of the
    /// buffer that it has taken already.
    pub machine: Machine,
    /// Whether an error is to be dropped if it is the first ending seen.
    pub first: bool,
}

/// The framer and the buffer after a call, and what the call returns.
#[verifier::ext_equal]
pub struct Frame {
    pub codec: Framer,
    pub buf: Seq<u8>,
    pub outcome: Outcome,
}

/// One pass over the buffer. The bytes that the decoder has taken before are
/// skipped, the others are fed to it. If a sentence ends, the buffer loses
/// everything up to that point; if none does, the buffer stays as it is.
pub open spec fn frame_once(machine: Machine, buf: Seq<u8>) -> (Scan, Seq<u8>) {
    let offset = machine.acc.event_count as int;
    let s = scan(machine, buf.skip(offset));
    if s.outcome is Pending {
        (s, buf)
    } else {
        (s, buf.skip(offset + s.consumed))
    }
}

/// A call of the framer: one pass, and a second one if the first found an error
/// that is to be dropped.
pub open spec fn frame(f: Framer, buf: Seq<u8>) -> Frame {
    let (s, rest) = frame_once(f.machine, buf);
    if s.outcome is Pending {
        Frame { codec: Framer { machine: s.next, first: f.first }, buf: rest, outcome: s.outcome }
    } else if f.first && s.outcome is Error {
        let (again, rest) = frame_once(s.next, rest);
        Frame {
            codec: Framer { machine: again.next, first: false },
            buf: rest,
            outcome: again.outcome,
        }
    } else {
        Frame { codec: Framer { machine: s.next, first: false }, buf: rest, outcome: s.outcome }
    }
}

/// Feeds `bytes[from..]` to the decoder until a sentence ends. Returns how many
/// bytes were taken and what the last one brought.
fn scan_bytes(ctx: &mut Context, bytes: &[u8], from: usize) -> (r: (
    usize,
    Result<Option<Nmea0183Msg>, String>,
))
    requires
        from <= bytes@.len(),
    ensures
        r.0 == scan(old(ctx)@, bytes@.skip(from as int)).consumed,
        final(ctx)@ == scan(old(ctx)@, bytes@.skip(from as int)).next,
        outcome_of(r.1) == scan(old(ctx)@, bytes@.skip(from as int)).outcome,
        from + r.0 <= bytes@.len() <= usize::MAX,
        !(r.1 matches Ok(None)) ==> final(ctx)@ == Machine::init(),
{
    let mut i: usize = from;
    while i < bytes.len()
        invariant
            from <= i <= bytes@.len(),
            scan(old(ctx)@, bytes@.skip(from as int)).consumed == scan(
                ctx@,
                bytes@.skip(i as int),
            ).consumed + (i - from),
            scan(old(ctx)@, bytes@.skip(from as int)).next == scan(
                ctx@,
                bytes@.skip(i as int),
            ).next,
            scan(old(ctx)@, bytes@.skip(from as int)).outcome == scan(
                ctx@,
                bytes@.skip(i as int),
            ).outcome,
        decreases bytes@.len() - i,
    {
        assert(bytes@.skip(i as int).skip(1) =~= bytes@.skip(i + 1));
        let result = ctx.handle_event(&bytes[i]);
        i += 1;
        match result {
            Ok(None) => {},
            _ => {
                return (i - from, result);
            },
        }
    }
    (i - from, Ok(None))
}

/// Finds NMEA 0183 sentences in a buffer to which the received bytes are appended.
pub struct Nmea0183Codec {
    ctx: Context,
    first: bool,
}

impl View for Nmea0183Codec {
    type V = Framer;

    closed spec fn view(&self) -> Framer {
        Framer { machine: self.ctx@, first: self.first }
    }
}

impl Default for Nmea0183Codec {
    /// A framer that drops the first ending if it is an error: the stream may have
    /// been joined in the middle of a sentence.
    fn default() -> (codec: Self)
        ensures
            codec@ == (Framer { machine: Machine::init(), first: true }),
            consistent(codec@.machine),
    {
        Self { ctx: Context::new(), first: true }
    }
}

impl Nmea0183Codec {
    /// A framer that drops an error at the very start of the stream if
    /// `suppress_first_error` is set, and reports every ending otherwise.
    pub fn new(suppress_first_error: bool) -> (codec: Self)
        ensures
            codec@ == (Framer { machine: Machine::init(), first: suppress_first_error }),
            consistent(codec@.machine),
    {
        Self { ctx: Context::new(), first: suppress_first_error }
    }

    /// The number of bytes at the front of the buffer that have been taken already.
    pub fn scanned(&self) -> (count: usize)
        ensures
            count == self@.machine.acc.event_count,
    {
        self.ctx.get_event_count()
    }

    /// One pass over the buffer, from where the last one stopped.
    fn next_sentence(&mut self, src: &mut BytesMut) -> (result: Result<
        Option<Nmea0183Msg>,
        String,
    >)
        requires
            old(self)@.machine.acc.event_count <= contents(*old(src)).len(),
        ensures
            final(self)@.first == old(self)@.first,
            final(self)@.machine == frame_once(old(self)@.machine, contents(*old(src))).0.next,
            outcome_of(result) == frame_once(old(self)@.machine, contents(*old(src))).0.outcome,
            contents(*final(src)) == frame_once(old(self)@.machine, contents(*old(src))).1,
            !(result matches Ok(None)) ==> final(self)@.machine == Machine::init(),
    {
        let offset: usize = self.ctx.get_event_count();
        let bytes: &[u8] = (*src).as_ref();
        let (taken, result) = scan_bytes(&mut self.ctx, bytes, offset);
        match result {
            Ok(None) => {},
            _ => {
                let _ = src.split_to(offset + taken);
            },
        }
        result
    }

    /// Looks for the next sentence in `src`, to which the bytes received since the
    /// last call have been appended.
    ///
    /// Returns the message or the reason of the first sentence that ends in the
    /// buffer, and removes it from the buffer. Returns `Ok(None)` and leaves the
    /// buffer as it is if no sentence ends in it. An error at the very start of
    /// the stream is dropped, once, if the framer was made to do so, and the call
    /// goes on to the next sentence.
    pub fn decode(&mut self, src: &mut BytesMut) -> (result: Result<Option<Nmea0183Msg>, String>)
        requires
            old(self)@.machine.acc.event_count <= contents(*old(src)).len(),
        ensures
            final(self)@ == frame(old(self)@, contents(*old(src))).codec,
            contents(*final(src)) == frame(old(self)@, contents(*old(src))).buf,
            outcome_of(result) == frame(old(self)@, contents(*old(src))).outcome,
            final(self)@.machine.acc.event_count <= contents(*final(src)).len(),
            consistent(old(self)@.machine) ==> consistent(final(self)@.machine),
            consistent(old(self)@.machine) ==> (result matches Ok(Some(msg))
                ==> msg@.well_formed()),
    {
        proof {
            lemma_frame_shrinks(self@, contents(*src));
            if consistent(self@.machine) {
                lemma_frame_consistent(self@, contents(*src));
            }
        }
        let result = self.next_sentence(src);
        match result {
            Ok(None) => result,
            _ => {
                if self.first {
                    self.first = false;
                    if result.is_err() {
                        return self.next_sentence(src);
                    }
                }
                result
            },
        }
    }
}

} // verus!
