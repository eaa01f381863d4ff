//! What holds of the decoder at every point of every stream, and of every
//! message that it hands out.

use vstd::prelude::*;
use crate::context::{step, Accumulator, Machine, Outcome, MAX_MSG_SIZE};
use crate::msg::{is_field_char, is_hex_char, is_upper_char, MsgView};
use crate::state::{
    checksum_event, is_hex, is_upper, linefeed_event, msgtype_event, params_event, start_event,
    talker_event, transition, Phase, AST, CR, FIELD, LF,
};
use crate::nmea0183_codec::{frame, frame_once, scan, Framer};
use crate::stream::{results, run};
use crate::text::{byte_char, byte_text};

verus! {

/// Whether the characters are capital letters, at most `limit` of them.
pub open spec fn letters(text: Seq<char>, limit: nat) -> bool {
    text.len() <= limit && forall|i: int| 0 <= i < text.len() ==> is_upper_char(#[trigger] text[i])
}

/// Whether the characters are hexadecimal digits, at most `limit` of them.
pub open spec fn digits(text: Seq<char>, limit: nat) -> bool {
    text.len() <= limit && forall|i: int| 0 <= i < text.len() ==> is_hex_char(#[trigger] text[i])
}

/// Whether none of the characters is a separator.
pub open spec fn clean(text: Seq<char>) -> bool {
    forall|i: int| 0 <= i < text.len() ==> is_field_char(#[trigger] text[i])
}

/// Whether the message holds a talker of `n` capital letters and nothing else.
pub open spec fn talker_only(msg: MsgView, n: nat) -> bool {
    &&& msg.talker.len() == n
    &&& letters(msg.talker, n)
    &&& msg.msgtype.len() == 0
    &&& msg.params.len() == 0
    &&& msg.chksum.len() == 0
    &&& msg.chksum_valid is None
}

/// Whether what has been gathered fits the state.
///
/// Each part that has been committed keeps to the wire format, the parts that
/// are still to come are empty, and the characters collected are a beginning
/// of the part that the state is reading.
pub open spec fn gathered(p: Phase, a: Accumulator) -> bool {
    match p {
        Phase::Start => talker_only(a.msg, 0) && a.collect.len() == 0,
        Phase::Talker => talker_only(a.msg, 0) && letters(a.collect, 1),
        Phase::MsgType => talker_only(a.msg, 2) && letters(a.collect, 3),
        Phase::Params => a.msg.well_formed() && a.msg.chksum_valid is None && clean(a.collect),
        Phase::Checksum => a.msg.well_formed() && a.msg.chksum_valid is None && digits(
            a.collect,
            2,
        ),
        Phase::Linefeed => a.msg.well_formed(),
        Phase::Invalid => true,
    }
}

/// Whether the state and what has been gathered belong together: the sentence
/// is held to be rejected exactly when a reason is recorded, no more bytes
/// have been counted than a sentence may have, and what has been gathered fits
/// the state.
pub open spec fn consistent(m: Machine) -> bool {
    &&& m.acc.event_count <= MAX_MSG_SIZE
    &&& (m.phase == Phase::Invalid <==> m.acc.error.len() > 0)
    &&& gathered(m.phase, m.acc)
}

/// Whether a byte has been taken as the state allows: what holds of the state
/// and the accumulator that `transition` hands back.
spec fn taken_well(b: u8, next: (Phase, Accumulator)) -> bool {
    &&& (next.0 == Phase::Invalid <==> next.1.error.len() > 0)
    &&& b != LF ==> gathered(next.0, next.1)
    &&& b == LF && next.1.error.len() == 0 ==> next.1.msg.well_formed()
}

proof fn lemma_byte_text_len(b: u8)
    ensures
        byte_text(b).len() == 6,
{
}

proof fn lemma_start(b: u8, a: Accumulator)
    requires
        gathered(Phase::Start, a),
        a.error.len() == 0,
    ensures
        taken_well(b, start_event(b, a)),
{
    lemma_byte_text_len(b);
}

proof fn lemma_talker(b: u8, a: Accumulator)
    requires
        gathered(Phase::Talker, a),
        a.error.len() == 0,
    ensures
        taken_well(b, talker_event(b, a)),
{
    lemma_byte_text_len(b);
    if is_upper(b) {
        assert(is_upper_char(byte_char(b)));
    }
}

proof fn lemma_msgtype(b: u8, a: Accumulator)
    requires
        gathered(Phase::MsgType, a),
        a.error.len() == 0,
    ensures
        taken_well(b, msgtype_event(b, a)),
{
    lemma_byte_text_len(b);
    if is_upper(b) {
        assert(is_upper_char(byte_char(b)));
    }
}

proof fn lemma_params(b: u8, a: Accumulator)
    requires
        gathered(Phase::Params, a),
        a.error.len() == 0,
    ensures
        taken_well(b, params_event(b, a)),
{
    let next = params_event(b, a).1;
    if b == FIELD || b == AST || b == CR {
        assert forall|i: int, j: int|
            0 <= i < next.msg.params.len() && 0 <= j < next.msg.params[i].len() implies is_field_char(
            #[trigger] next.msg.params[i][j],
        ) by {
            if i < a.msg.params.len() {
                assert(is_field_char(a.msg.params[i][j]));
            } else {
                assert(is_field_char(a.collect[j]));
            }
        }
    } else if b != LF {
        assert(is_field_char(byte_char(b)));
    }
}

proof fn lemma_checksum(b: u8, a: Accumulator)
    requires
        gathered(Phase::Checksum, a),
        a.error.len() == 0,
    ensures
        taken_well(b, checksum_event(b, a)),
{
    lemma_byte_text_len(b);
    if is_hex(b) {
        assert(is_hex_char(byte_char(b)));
    }
}

proof fn lemma_linefeed(b: u8, a: Accumulator)
    requires
        gathered(Phase::Linefeed, a),
        a.error.len() == 0,
    ensures
        taken_well(b, linefeed_event(b, a)),
{
    lemma_byte_text_len(b);
}

/// A step keeps the state and what has been gathered together, and a message
/// that it hands out keeps to the wire format: no message is handed out that
/// is filled in part only.
pub proof fn lemma_step_consistent(m: Machine, b: u8)
    requires
        consistent(m),
    ensures
        consistent(step(m, b).next),
        step(m, b).outcome matches Outcome::Message(msg) ==> msg.well_formed(),
{
    if m.acc.event_count + 1 <= MAX_MSG_SIZE {
        let counted = Accumulator { event_count: m.acc.event_count + 1, ..m.acc };
        match m.phase {
            Phase::Start => lemma_start(b, counted),
            Phase::Talker => lemma_talker(b, counted),
            Phase::MsgType => lemma_msgtype(b, counted),
            Phase::Params => lemma_params(b, counted),
            Phase::Checksum => lemma_checksum(b, counted),
            Phase::Linefeed => lemma_linefeed(b, counted),
            Phase::Invalid => {},
        }
        assert(taken_well(b, transition(m.phase, b, counted)));
    }
}

/// Whatever the stream holds, the decoder stays consistent, and every message
/// among the endings keeps to the wire format.
pub proof fn lemma_stream_consistent(m: Machine, bytes: Seq<u8>)
    requires
        consistent(m),
    ensures
        consistent(run(m, bytes)),
        forall|i: int|
            0 <= i < results(m, bytes).len() ==> (#[trigger] results(m, bytes)[i] matches Outcome::Message(
                msg,
            ) ==> msg.well_formed()),
    decreases bytes.len(),
{
    if bytes.len() > 0 {
        let front = bytes.drop_last();
        lemma_stream_consistent(m, front);
        lemma_step_consistent(run(m, front), bytes.last());
    }
}

/// The search for the first ending keeps the decoder consistent, and a message
/// that it finds keeps to the wire format.
pub proof fn lemma_scan_consistent(m: Machine, bytes: Seq<u8>)
    requires
        consistent(m),
    ensures
        consistent(scan(m, bytes).next),
        scan(m, bytes).outcome matches Outcome::Message(msg) ==> msg.well_formed(),
    decreases bytes.len(),
{
    if bytes.len() > 0 {
        lemma_step_consistent(m, bytes[0]);
        if step(m, bytes[0]).outcome is Pending {
            lemma_scan_consistent(step(m, bytes[0]).next, bytes.skip(1));
        }
    }
}

/// A call of the framer keeps the decoder consistent, and a message that it
/// returns keeps to the wire format.
pub proof fn lemma_frame_consistent(f: Framer, buf: Seq<u8>)
    requires
        consistent(f.machine),
    ensures
        consistent(frame(f, buf).codec.machine),
        frame(f, buf).outcome matches Outcome::Message(msg) ==> msg.well_formed(),
{
    lemma_scan_consistent(f.machine, buf.skip(f.machine.acc.event_count as int));
    let (s, rest) = frame_once(f.machine, buf);
    lemma_scan_consistent(s.next, rest.skip(s.next.acc.event_count as int));
}

} // verus!
