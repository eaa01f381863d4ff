//! The accumulator of the sentence being read, and the driver that feeds it one
//! byte at a time.

use vstd::prelude::*;
use vstd::string::*;
use crate::consistency::{consistent, lemma_step_consistent};
use crate::msg::{MsgView, Nmea0183Msg};
use crate::state::{
    take, transition, Checksum, Invalid, Linefeed, MsgType, Params, Phase, Start, State, Talker, LF,
};

verus! {

/// The largest number of bytes a sentence may have, from its first byte through
/// the line feed.
pub const MAX_MSG_SIZE: usize = 82;

/// What the accumulator holds, as mathematical values.
#[verifier::ext_equal]
pub struct Accumulator {
    pub event_count: nat,
    pub error: Seq<char>,
    pub msg: MsgView,
    pub chksum: u8,
    pub collect: Seq<char>,
}

impl Accumulator {
    /// The accumulator at the start of a sentence.
    pub open spec fn fresh() -> Accumulator {
        Accumulator {
            event_count: 0,
            error: Seq::empty(),
            msg: MsgView::empty(),
            chksum: 0,
            collect: Seq::empty(),
        }
    }
}

/// What has been gathered of the sentence in flight.
pub struct InnerContext {
    /// The number of bytes of this sentence seen so far.
    pub event_count: usize,
    /// Why the sentence was rejected; empty while it has not been.
    pub error: String,
    /// The parts of the sentence committed so far.
    pub msg: Nmea0183Msg,
    /// The exclusive-or of the bytes between the lead character and the checksum marker.
    pub chksum: u8,
    /// The characters of the part being read.
    pub collect: String,
}

impl View for InnerContext {
    type V = Accumulator;

    open spec fn view(&self) -> Accumulator {
        Accumulator {
            event_count: self.event_count as nat,
            error: self.error@,
            msg: self.msg@,
            chksum: self.chksum,
            collect: self.collect@,
        }
    }
}

impl InnerContext {
    pub fn new() -> (ctx: Self)
        ensures
            ctx@ == Accumulator::fresh(),
    {
        Self {
            event_count: 0,
            error: String::new(),
            msg: Nmea0183Msg::default(),
            chksum: 0,
            collect: String::new(),
        }
    }

    /// Clears everything for the next sentence.
    pub fn reset(&mut self)
        ensures
            final(self)@ == Accumulator::fresh(),
    {
        self.msg = Nmea0183Msg::default();
        self.error = String::new();
        self.event_count = 0;
        self.chksum = 0;
        self.collect = String::new();
    }
}

/// The decoder between two bytes: the state it is in and what it has gathered.
#[verifier::ext_equal]
pub struct Machine {
    pub phase: Phase,
    pub acc: Accumulator,
}

impl Machine {
    /// The decoder before the first byte of a sentence.
    pub open spec fn init() -> Machine {
        Machine { phase: Phase::Start, acc: Accumulator::fresh() }
    }
}

/// What a byte brought about.
#[verifier::ext_equal]
pub enum Outcome {
    /// The sentence goes on.
    Pending,
    /// The sentence ended and was decoded.
    Message(MsgView),
    /// The sentence ended, or was cut off, and is rejected for the reason given.
    Error(Seq<char>),
}

/// The decoder after a byte, and what the byte brought about.
#[verifier::ext_equal]
pub struct Step {
    pub next: Machine,
    pub outcome: Outcome,
}

/// The reason given for a sentence that grew beyond the maximum length, after
/// whatever was already held against it.
pub open spec fn too_long_text(error: Seq<char>) -> Seq<char> {
    if error.len() == 0 {
        "Message too long"@
    } else {
        error + " + Message too long"@
    }
}

/// One byte through the decoder.
///
/// The byte is counted first. A byte beyond the maximum length cuts the sentence
/// off at once. Otherwise the current state takes the byte, and a line feed then
/// ends the sentence whatever the state: with the message if nothing is held
/// against it, with the reason otherwise. After either ending the decoder starts
/// afresh.
pub open spec fn step(m: Machine, b: u8) -> Step {
    if m.acc.event_count + 1 > MAX_MSG_SIZE {
        Step { next: Machine::init(), outcome: Outcome::Error(too_long_text(m.acc.error)) }
    } else {
        let counted = Accumulator { event_count: m.acc.event_count + 1, ..m.acc };
        let (phase, acc) = transition(m.phase, b, counted);
        if b == LF {
            Step {
                next: Machine::init(),
                outcome: if acc.error.len() == 0 {
                    Outcome::Message(acc.msg)
                } else {
                    Outcome::Error(acc.error)
                },
            }
        } else {
            Step { next: Machine { phase, acc }, outcome: Outcome::Pending }
        }
    }
}

/// What a result of the decoder says, as mathematical values.
pub open spec fn outcome_of(r: Result<Option<Nmea0183Msg>, String>) -> Outcome {
    match r {
        Ok(None) => Outcome::Pending,
        Ok(Some(msg)) => Outcome::Message(msg@),
        Err(error) => Outcome::Error(error@),
    }
}

/// The decoder of one stream of sentences.
pub struct Context {
    current_state: Phase,
    inner: InnerContext,
}

impl View for Context {
    type V = Machine;

    closed spec fn view(&self) -> Machine {
        Machine { phase: self.current_state, acc: self.inner@ }
    }
}

impl Context {
    pub fn new() -> (ctx: Self)
        ensures
            ctx@ == Machine::init(),
            consistent(ctx@),
    {
        Self { current_state: Phase::Start, inner: InnerContext::new() }
    }

    /// Takes the next byte of the stream. Returns `Ok(None)` while the sentence
    /// goes on, the message when a line feed ends a sentence that was accepted,
    /// and the reason when a line feed ends one that was rejected or when the
    /// sentence grows beyond the maximum length.
    pub fn handle_event(&mut self, event: &u8) -> (result: Result<Option<Nmea0183Msg>, String>)
        ensures
            final(self)@ == step(old(self)@, *event).next,
            outcome_of(result) == step(old(self)@, *event).outcome,
            !(result matches Ok(None)) ==> final(self)@ == Machine::init(),
            consistent(old(self)@) ==> consistent(final(self)@),
            consistent(old(self)@) ==> (result matches Ok(Some(msg)) ==> msg@.well_formed()),
    {
        proof {
            if consistent(self@) {
                lemma_step_consistent(self@, *event);
            }
        }
        if self.inner.event_count >= MAX_MSG_SIZE {
            let result = if self.inner.error.as_str().is_empty() {
                Err(String::from_str("Message too long"))
            } else {
                let mut error = take(&mut self.inner.error);
                error.append(" + Message too long");
                Err(error)
            };
            self.inner.reset();
            self.current_state = Phase::Start;
            result
        } else {
            self.inner.event_count += 1;
            self.current_state = match self.current_state {
                Phase::Start => Start.handle_event(event, &mut self.inner),
                Phase::Talker => Talker.handle_event(event, &mut self.inner),
                Phase::MsgType => MsgType.handle_event(event, &mut self.inner),
                Phase::Params => Params.handle_event(event, &mut self.inner),
                Phase::Checksum => Checksum.handle_event(event, &mut self.inner),
                Phase::Linefeed => Linefeed.handle_event(event, &mut self.inner),
                Phase::Invalid => Invalid.handle_event(event, &mut self.inner),
            };
            if *event == LF {
                let result = if self.inner.error.as_str().is_empty() {
                    Ok(Some(take_msg(&mut self.inner.msg)))
                } else {
                    Err(take(&mut self.inner.error))
                };
                self.inner.reset();
                self.current_state = Phase::Start;
                result
            } else {
                Ok(None)
            }
        }
    }

    /// The number of bytes of the sentence in flight that have been taken.
    pub fn get_event_count(&self) -> (count: usize)
        ensures
            count == self@.acc.event_count,
    {
        self.inner.event_count
    }
}

/// Moves the message out and leaves an empty one.
fn take_msg(msg: &mut Nmea0183Msg) -> (taken: Nmea0183Msg)
    ensures
        taken@ == old(msg)@,
{
    let mut taken = Nmea0183Msg::default();
    std::mem::swap(msg, &mut taken);
    taken
}

} // verus!
