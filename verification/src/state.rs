//! The states a sentence passes through, and what each does with a byte.

use vstd::prelude::*;
use vstd::string::*;
use crate::context::{Accumulator, InnerContext};
use crate::msg::MsgView;
use crate::text::{byte_2_print, byte_char, byte_text, decimal, hex_byte, push_decimal, push_hex};

verus! {

/// The line feed, which ends every sentence.
pub const LF: u8 = 0x0A;

/// The carriage return, which comes before the line feed.
pub const CR: u8 = 0x0D;

/// The asterisk, which comes before the checksum.
pub const AST: u8 = 0x2A;

/// The exclamation mark, which opens an encapsulated sentence.
pub const XCL: u8 = 0x21;

/// The dollar sign, which opens a standard sentence.
pub const START: u8 = 0x24;

/// The comma, which comes before each field.
pub const FIELD: u8 = 0x2C;

/// Where in a sentence the decoder stands.
#[derive(Clone, Copy, Debug, PartialEq, Eq, Structural)]
pub enum Phase {
    Start,
    Talker,
    MsgType,
    Params,
    Checksum,
    Linefeed,
    Invalid,
}

/// The name under which a state appears in a diagnostic.
pub open spec fn phase_name(p: Phase) -> Seq<char> {
    match p {
        Phase::Start => "Start"@,
        Phase::Talker => "Talker"@,
        Phase::MsgType => "MsgType"@,
        Phase::Params => "Params"@,
        Phase::Checksum => "Checksum"@,
        Phase::Linefeed => "Linefeed"@,
        Phase::Invalid => "Invalid"@,
    }
}

/// Whether the byte is a capital letter.
pub open spec fn is_upper(b: u8) -> bool {
    0x41 <= b && b <= 0x5A
}

/// Whether the byte is an upper-case hexadecimal digit.
pub open spec fn is_hex(b: u8) -> bool {
    (0x30 <= b && b <= 0x39) || (0x41 <= b && b <= 0x46)
}

/// The diagnostic for a byte that a state does not accept.
pub open spec fn invalid_event_text(b: u8, state: Seq<char>) -> Seq<char> {
    "Invalid event "@ + byte_text(b) + " in state "@ + state
}

/// The diagnostic for a byte that a state does not accept, with its position in the sentence.
pub open spec fn invalid_event_at_text(b: u8, count: nat, state: Seq<char>) -> Seq<char> {
    "Invalid event "@ + byte_text(b) + " @"@ + decimal(count) + " in state "@ + state
}

/// The diagnostic for a byte that came where something else was due.
pub open spec fn unexpected_event_text(
    count: nat,
    state: Seq<char>,
    expected: Seq<char>,
    b: u8,
) -> Seq<char> {
    "Invalid event @"@ + decimal(count) + " in state "@ + state + ", expected "@ + expected
        + ", got "@ + byte_text(b)
}

/// The accumulator after it has been marked as rejected.
pub open spec fn rejected(a: Accumulator, error: Seq<char>) -> (Phase, Accumulator) {
    (Phase::Invalid, Accumulator { error, ..a })
}

/// What the first byte of a sentence does: `$` opens a standard sentence, `!` an
/// encapsulated one, anything else is rejected.
pub open spec fn start_event(b: u8, a: Accumulator) -> (Phase, Accumulator) {
    if b == XCL {
        (Phase::Talker, Accumulator { msg: MsgView { encapsulation: true, ..a.msg }, ..a })
    } else if b == START {
        (Phase::Talker, Accumulator { msg: MsgView { encapsulation: false, ..a.msg }, ..a })
    } else {
        rejected(a, invalid_event_text(b, phase_name(Phase::Start)))
    }
}

/// What a byte does while the talker is read: a capital letter is added to the
/// checksum and collected, and the second one completes the talker.
pub open spec fn talker_event(b: u8, a: Accumulator) -> (Phase, Accumulator) {
    if is_upper(b) {
        let collect = a.collect.push(byte_char(b));
        if collect.len() > 1 {
            (
                Phase::MsgType,
                Accumulator {
                    chksum: a.chksum ^ b,
                    msg: MsgView { talker: collect, ..a.msg },
                    collect: Seq::empty(),
                    ..a
                },
            )
        } else {
            (Phase::Talker, Accumulator { chksum: a.chksum ^ b, collect, ..a })
        }
    } else {
        rejected(a, invalid_event_text(b, phase_name(Phase::Talker)))
    }
}

/// What a byte does while the sentence type is read: up to three capital letters
/// are added to the checksum and collected; after the third, a comma (which
/// counts for the checksum) opens the fields and an asterisk (which does not)
/// opens the checksum.
pub open spec fn msgtype_event(b: u8, a: Accumulator) -> (Phase, Accumulator) {
    let name = phase_name(Phase::MsgType);
    if is_upper(b) {
        if a.collect.len() < 3 {
            (
                Phase::MsgType,
                Accumulator { chksum: a.chksum ^ b, collect: a.collect.push(byte_char(b)), ..a },
            )
        } else {
            rejected(a, unexpected_event_text(a.event_count, name, "',' or '*' or CR"@, b))
        }
    } else if b == FIELD {
        if a.collect.len() == 3 {
            (
                Phase::Params,
                Accumulator {
                    chksum: a.chksum ^ b,
                    msg: MsgView { msgtype: a.collect, ..a.msg },
                    collect: Seq::empty(),
                    ..a
                },
            )
        } else {
            rejected(a, unexpected_event_text(a.event_count, name, "'A'-'Z'"@, b))
        }
    } else if b == AST && a.collect.len() == 3 {
        (
            Phase::Checksum,
            Accumulator {
                msg: MsgView { msgtype: a.collect, ..a.msg },
                collect: Seq::empty(),
                ..a
            },
        )
    } else {
        rejected(a, invalid_event_at_text(b, a.event_count, name))
    }
}

/// The accumulator after the collected characters have been added as a field.
pub open spec fn with_field(a: Accumulator) -> Accumulator {
    Accumulator {
        msg: MsgView { params: a.msg.params.push(a.collect), ..a.msg },
        collect: Seq::empty(),
        ..a
    }
}

/// What a byte does while the fields are read: a comma ends a field and counts
/// for the checksum, an asterisk ends the last field and opens the checksum, a
/// carriage return ends the last field of a sentence without checksum, and any
/// other byte is added to the checksum and to the field.
pub open spec fn params_event(b: u8, a: Accumulator) -> (Phase, Accumulator) {
    if b == FIELD {
        (Phase::Params, Accumulator { chksum: a.chksum ^ b, ..with_field(a) })
    } else if b == AST {
        (Phase::Checksum, with_field(a))
    } else if b == CR {
        (Phase::Linefeed, with_field(a))
    } else {
        (
            Phase::Params,
            Accumulator { chksum: a.chksum ^ b, collect: a.collect.push(byte_char(b)), ..a },
        )
    }
}

/// What a byte does while the checksum is read: up to two hexadecimal digits are
/// collected, and a carriage return after the second commits them and compares
/// them with the digits of the checksum computed so far.
pub open spec fn checksum_event(b: u8, a: Accumulator) -> (Phase, Accumulator) {
    let name = phase_name(Phase::Checksum);
    if is_hex(b) {
        if a.collect.len() < 2 {
            (Phase::Checksum, Accumulator { collect: a.collect.push(byte_char(b)), ..a })
        } else {
            rejected(a, unexpected_event_text(a.event_count, name, "CR"@, b))
        }
    } else if b == CR {
        if a.collect.len() == 2 {
            (
                Phase::Linefeed,
                Accumulator {
                    msg: MsgView {
                        chksum: a.collect,
                        chksum_valid: Some(a.collect == hex_byte(a.chksum)),
                        ..a.msg
                    },
                    collect: Seq::empty(),
                    ..a
                },
            )
        } else {
            rejected(a, invalid_event_at_text(b, a.event_count, name) + ", expected CR"@)
        }
    } else {
        rejected(a, invalid_event_at_text(b, a.event_count, name))
    }
}

/// What a byte does after the carriage return: only a line feed is accepted.
pub open spec fn linefeed_event(b: u8, a: Accumulator) -> (Phase, Accumulator) {
    if b == LF {
        (Phase::Start, a)
    } else {
        rejected(a, invalid_event_at_text(b, a.event_count, phase_name(Phase::Linefeed)))
    }
}

/// What a byte does in a given state. A rejected sentence takes no further notice
/// of its bytes.
pub open spec fn transition(p: Phase, b: u8, a: Accumulator) -> (Phase, Accumulator) {
    match p {
        Phase::Start => start_event(b, a),
        Phase::Talker => talker_event(b, a),
        Phase::MsgType => msgtype_event(b, a),
        Phase::Params => params_event(b, a),
        Phase::Checksum => checksum_event(b, a),
        Phase::Linefeed => linefeed_event(b, a),
        Phase::Invalid => (Phase::Invalid, a),
    }
}

/// Moves the string out and leaves an empty one.
pub fn take(s: &mut String) -> (taken: String)
    ensures
        taken@ == old(s)@,
        final(s)@ == Seq::<char>::empty(),
{
    let mut taken = String::new();
    std::mem::swap(s, &mut taken);
    taken
}

fn invalid_event(b: u8, state: &str) -> (s: String)
    ensures
        s@ == invalid_event_text(b, state@),
{
    let mut s = String::from_str("Invalid event ");
    s.append(byte_2_print(&b).as_str());
    s.append(" in state ");
    s.append(state);
    s
}

fn invalid_event_at(b: u8, count: usize, state: &str) -> (s: String)
    ensures
        s@ == invalid_event_at_text(b, count as nat, state@),
{
    let mut s = String::from_str("Invalid event ");
    s.append(byte_2_print(&b).as_str());
    s.append(" @");
    push_decimal(&mut s, count);
    s.append(" in state ");
    s.append(state);
    s
}

fn unexpected_event(count: usize, state: &str, expected: &str, b: u8) -> (s: String)
    ensures
        s@ == unexpected_event_text(count as nat, state@, expected@, b),
{
    let mut s = String::from_str("Invalid event @");
    push_decimal(&mut s, count);
    s.append(" in state ");
    s.append(state);
    s.append(", expected ");
    s.append(expected);
    s.append(", got ");
    s.append(byte_2_print(&b).as_str());
    s
}

/// One state of the decoder.
pub trait State {
    /// Which state this is.
    spec fn phase(&self) -> Phase;

    /// Takes one byte of the sentence and says which state comes next.
    fn handle_event(&self, event: &u8, ctx: &mut InnerContext) -> (next: Phase)
        ensures
            next == transition(self.phase(), *event, old(ctx)@).0,
            final(ctx)@ == transition(self.phase(), *event, old(ctx)@).1,
    ;

    /// The state's name in diagnostics.
    fn name(&self) -> (name: &'static str)
        ensures
            name@ == phase_name(self.phase()),
    ;
}

pub struct Start;

impl State for Start {
    open spec fn phase(&self) -> Phase {
        Phase::Start
    }

    fn handle_event(&self, event: &u8, ctx: &mut InnerContext) -> (next: Phase) {
        match *event {
            XCL => {
                ctx.msg.encapsulation = true;
                Phase::Talker
            },
            START => {
                ctx.msg.encapsulation = false;
                Phase::Talker
            },
            _ => {
                ctx.error = invalid_event(*event, self.name());
                Phase::Invalid
            },
        }
    }

    fn name(&self) -> (name: &'static str) {
        "Start"
    }
}

pub struct Talker;

impl State for Talker {
    open spec fn phase(&self) -> Phase {
        Phase::Talker
    }

    fn handle_event(&self, event: &u8, ctx: &mut InnerContext) -> (next: Phase) {
        match *event {
            0x41..=0x5A => {
                ctx.chksum = ctx.chksum ^ *event;
                ctx.collect.push(*event as char);
                if ctx.collect.as_str().unicode_len() > 1 {
                    ctx.msg.talker = take(&mut ctx.collect);
                    Phase::MsgType
                } else {
                    Phase::Talker
                }
            },
            _ => {
                ctx.error = invalid_event(*event, self.name());
                Phase::Invalid
            },
        }
    }

    fn name(&self) -> (name: &'static str) {
        "Talker"
    }
}

pub struct MsgType;

impl State for MsgType {
    open spec fn phase(&self) -> Phase {
        Phase::MsgType
    }

    fn handle_event(&self, event: &u8, ctx: &mut InnerContext) -> (next: Phase) {
        let collected: usize = ctx.collect.as_str().unicode_len();
        match *event {
            0x41..=0x5A => {
                if collected < 3 {
                    ctx.chksum = ctx.chksum ^ *event;
                    ctx.collect.push(*event as char);
                    Phase::MsgType
                } else {
                    ctx.error =
                    unexpected_event(ctx.event_count, self.name(), "',' or '*' or CR", *event);
                    Phase::Invalid
                }
            },
            FIELD => {
                if collected == 3 {
                    ctx.chksum = ctx.chksum ^ *event;
                    ctx.msg.msgtype = take(&mut ctx.collect);
                    Phase::Params
                } else {
                    ctx.error = unexpected_event(ctx.event_count, self.name(), "'A'-'Z'", *event);
                    Phase::Invalid
                }
            },
            AST if collected == 3 => {
                ctx.msg.msgtype = take(&mut ctx.collect);
                Phase::Checksum
            },
            _ => {
                ctx.error = invalid_event_at(*event, ctx.event_count, self.name());
                Phase::Invalid
            },
        }
    }

    fn name(&self) -> (name: &'static str) {
        "MsgType"
    }
}

/// Moves the collected characters to the end of the fields.
fn push_field(ctx: &mut InnerContext)
    ensures
        final(ctx)@ == with_field(old(ctx)@),
{
    let field = take(&mut ctx.collect);
    ctx.msg.params.push(field);
    assert(final(ctx)@.msg.params =~= old(ctx)@.msg.params.push(field@));
}

pub struct Params;

impl State for Params {
    open spec fn phase(&self) -> Phase {
        Phase::Params
    }

    fn handle_event(&self, event: &u8, ctx: &mut InnerContext) -> (next: Phase) {
        match *event {
            FIELD => {
                ctx.chksum = ctx.chksum ^ *event;
                push_field(ctx);
                Phase::Params
            },
            AST => {
                push_field(ctx);
                Phase::Checksum
            },
            CR => {
                push_field(ctx);
                Phase::Linefeed
            },
            _ => {
                ctx.chksum = ctx.chksum ^ *event;
                ctx.collect.push(*event as char);
                Phase::Params
            },
        }
    }

    fn name(&self) -> (name: &'static str) {
        "Params"
    }
}

pub struct Checksum;

impl State for Checksum {
    open spec fn phase(&self) -> Phase {
        Phase::Checksum
    }

    fn handle_event(&self, event: &u8, ctx: &mut InnerContext) -> (next: Phase) {
        let collected: usize = ctx.collect.as_str().unicode_len();
        match *event {
            0x41..=0x46 | 0x30..=0x39 => {
                if collected < 2 {
                    ctx.collect.push(*event as char);
                    Phase::Checksum
                } else {
                    ctx.error = unexpected_event(ctx.event_count, self.name(), "CR", *event);
                    Phase::Invalid
                }
            },
            CR => {
                if collected == 2 {
                    let mut computed = String::new();
                    push_hex(&mut computed, ctx.chksum);
                    ctx.msg.chksum_valid = Some(ctx.collect == computed);
                    ctx.msg.chksum = take(&mut ctx.collect);
                    Phase::Linefeed
                } else {
                    let mut error = invalid_event_at(*event, ctx.event_count, self.name());
                    error.append(", expected CR");
                    ctx.error = error;
                    Phase::Invalid
                }
            },
            _ => {
                ctx.error = invalid_event_at(*event, ctx.event_count, self.name());
                Phase::Invalid
            },
        }
    }

    fn name(&self) -> (name: &'static str) {
        "Checksum"
    }
}

pub struct Linefeed;

impl State for Linefeed {
    open spec fn phase(&self) -> Phase {
        Phase::Linefeed
    }

    fn handle_event(&self, event: &u8, ctx: &mut InnerContext) -> (next: Phase) {
        if *event == LF {
            Phase::Start
        } else {
            ctx.error = invalid_event_at(*event, ctx.event_count, self.name());
            Phase::Invalid
        }
    }

    fn name(&self) -> (name: &'static str) {
        "Linefeed"
    }
}

pub struct Invalid;

impl State for Invalid {
    open spec fn phase(&self) -> Phase {
        Phase::Invalid
    }

    fn handle_event(&self, _event: &u8, _ctx: &mut InnerContext) -> (next: Phase) {
        Phase::Invalid
    }

    fn name(&self) -> (name: &'static str) {
        "Invalid"
    }
}

} // verus!
