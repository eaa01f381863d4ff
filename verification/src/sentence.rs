//! The wire format of a sentence, and what the decoder makes of a sentence that
//! keeps to it.

use vstd::prelude::*;
use crate::context::{step, Accumulator, Machine, Outcome, Step, MAX_MSG_SIZE};
use crate::msg::MsgView;
use crate::nmea0183_codec::{frame, scan, Frame, Framer, Scan};
use crate::state::{is_hex, is_upper, Phase, AST, CR, FIELD, LF, START, XCL};
use crate::stream::{
    lemma_ending_starts_afresh, lemma_overlong_is_cut_off, lemma_run_concat, lemma_run_one,
    lemma_run_push, lemma_scan_stops_at_ending, lemma_scan_to_first_ending, results, run,
};
use crate::text::{byte_char, hex_byte};

verus! {

/// The characters that stand for the bytes.
pub open spec fn chars(bytes: Seq<u8>) -> Seq<char> {
    Seq::new(bytes.len(), |i: int| byte_char(bytes[i]))
}

/// The fields as texts.
pub open spec fn fields_chars(params: Seq<Seq<u8>>) -> Seq<Seq<char>> {
    Seq::new(params.len(), |i: int| chars(params[i]))
}

/// Whether a byte may stand in a field.
pub open spec fn is_field_byte(b: u8) -> bool {
    b != FIELD && b != AST && b != CR && b != LF
}

/// The fields as they stand on the wire: each with a comma in front of it.
pub open spec fn payload(params: Seq<Seq<u8>>) -> Seq<u8>
    decreases params.len(),
{
    if params.len() == 0 {
        Seq::empty()
    } else {
        payload(params.drop_last()) + seq![FIELD] + params.last()
    }
}

/// The exclusive-or of all the bytes with `acc`.
pub open spec fn xor_fold(acc: u8, bytes: Seq<u8>) -> u8
    decreases bytes.len(),
{
    if bytes.len() == 0 {
        acc
    } else {
        xor_fold(acc, bytes.drop_last()) ^ bytes.last()
    }
}

/// The exclusive-or of all the bytes.
pub open spec fn xor_of(bytes: Seq<u8>) -> u8 {
    xor_fold(0, bytes)
}

/// A sentence by its parts.
pub struct Sentence {
    /// Whether it begins with `!` rather than `$`.
    pub encapsulation: bool,
    pub talker: Seq<u8>,
    pub msgtype: Seq<u8>,
    pub params: Seq<Seq<u8>>,
    /// The two digits after the asterisk.
    pub chksum: Seq<u8>,
}

impl Sentence {
    /// Whether the parts keep to the wire format: two capital letters, three
    /// capital letters, fields free of comma, asterisk, carriage return and line
    /// feed, and two upper-case hexadecimal digits.
    pub open spec fn well_formed(self) -> bool {
        &&& self.talker.len() == 2
        &&& forall|i: int| 0 <= i < self.talker.len() ==> is_upper(#[trigger] self.talker[i])
        &&& self.msgtype.len() == 3
        &&& forall|i: int| 0 <= i < self.msgtype.len() ==> is_upper(#[trigger] self.msgtype[i])
        &&& forall|i: int, j: int|
            0 <= i < self.params.len() && 0 <= j < self.params[i].len() ==> is_field_byte(
                #[trigger] self.params[i][j],
            )
        &&& self.chksum.len() == 2
        &&& forall|i: int| 0 <= i < self.chksum.len() ==> is_hex(#[trigger] self.chksum[i])
    }

    /// The byte the sentence begins with.
    pub open spec fn lead(self) -> u8 {
        if self.encapsulation {
            XCL
        } else {
            START
        }
    }

    /// The bytes that the checksum is taken over: all between the lead character
    /// and the asterisk.
    pub open spec fn body(self) -> Seq<u8> {
        self.talker + self.msgtype + payload(self.params)
    }

    /// The checksum of the sentence as it stands.
    pub open spec fn checksum(self) -> u8 {
        xor_of(self.body())
    }

    /// The sentence on the wire, from the lead character through the line feed.
    pub open spec fn wire(self) -> Seq<u8> {
        seq![self.lead()] + self.body() + seq![AST] + self.chksum + seq![CR, LF]
    }

    /// The message that the sentence stands for.
    pub open spec fn record(self) -> MsgView {
        MsgView {
            encapsulation: self.encapsulation,
            talker: chars(self.talker),
            msgtype: chars(self.msgtype),
            params: fields_chars(self.params),
            chksum: chars(self.chksum),
            chksum_valid: Some(chars(self.chksum) == hex_byte(self.checksum())),
        }
    }
}

proof fn lemma_xor_push(acc: u8, bytes: Seq<u8>, b: u8)
    ensures
        xor_fold(acc, bytes.push(b)) == xor_fold(acc, bytes) ^ b,
{
    assert(bytes.push(b).drop_last() =~= bytes);
}

proof fn lemma_xor_concat(acc: u8, a: Seq<u8>, b: Seq<u8>)
    ensures
        xor_fold(acc, a + b) == xor_fold(xor_fold(acc, a), b),
    decreases b.len(),
{
    if b.len() == 0 {
        assert(a + b =~= a);
    } else {
        lemma_xor_concat(acc, a, b.drop_last());
        assert((a + b).drop_last() =~= a + b.drop_last());
    }
}

proof fn lemma_chars_push(bytes: Seq<u8>, b: u8)
    ensures
        chars(bytes.push(b)) == chars(bytes).push(byte_char(b)),
{
    assert(chars(bytes.push(b)) =~= chars(bytes).push(byte_char(b)));
}

/// The decoder in the middle of a field: after `m`, which stands among the
/// fields, has taken `bytes`, none of which ends the field.
spec fn in_field(m: Machine, bytes: Seq<u8>) -> Machine {
    Machine {
        phase: Phase::Params,
        acc: Accumulator {
            event_count: m.acc.event_count + bytes.len(),
            chksum: xor_fold(m.acc.chksum, bytes),
            collect: m.acc.collect + chars(bytes),
            ..m.acc
        },
    }
}

proof fn lemma_field_bytes(m: Machine, bytes: Seq<u8>)
    requires
        m.phase == Phase::Params,
        m.acc.event_count + bytes.len() <= MAX_MSG_SIZE,
        forall|i: int| 0 <= i < bytes.len() ==> is_field_byte(#[trigger] bytes[i]),
    ensures
        run(m, bytes) == in_field(m, bytes),
        results(m, bytes).len() == 0,
    decreases bytes.len(),
{
    if bytes.len() == 0 {
        assert(m.acc.collect + chars(bytes) =~= m.acc.collect);
        assert(in_field(m, bytes).acc =~= m.acc);
    } else {
        let front = bytes.drop_last();
        let b = bytes.last();
        lemma_field_bytes(m, front);
        assert(is_field_byte(bytes[bytes.len() - 1]));
        assert(front.push(b) =~= bytes);
        lemma_chars_push(front, b);
        assert((m.acc.collect + chars(front)).push(byte_char(b)) =~= m.acc.collect + chars(
            bytes,
        ));
        assert(step(in_field(m, front), b).next.acc =~= in_field(m, bytes).acc);
    }
}

/// The bytes up to the first comma or the asterisk.
spec fn head(s: Sentence) -> Seq<u8> {
    seq![s.lead()] + s.talker + s.msgtype
}

/// The bytes between the lead character and the end of the `k`-th field.
spec fn body_to(s: Sentence, k: int) -> Seq<u8> {
    s.talker + s.msgtype + payload(s.params.take(k))
}

/// The decoder after the lead character, the talker, the type and `k` fields,
/// the last of which is still open.
spec fn reading(s: Sentence, k: int) -> Machine {
    Machine {
        phase: if k == 0 {
            Phase::MsgType
        } else {
            Phase::Params
        },
        acc: Accumulator {
            event_count: 1 + body_to(s, k).len(),
            error: Seq::empty(),
            msg: MsgView {
                encapsulation: s.encapsulation,
                talker: chars(s.talker),
                msgtype: if k == 0 {
                    Seq::empty()
                } else {
                    chars(s.msgtype)
                },
                params: if k == 0 {
                    Seq::empty()
                } else {
                    fields_chars(s.params.take(k - 1))
                },
                chksum: Seq::empty(),
                chksum_valid: None,
            },
            chksum: xor_of(body_to(s, k)),
            collect: if k == 0 {
                chars(s.msgtype)
            } else {
                chars(s.params[k - 1])
            },
        },
    }
}

proof fn lemma_payload_len(params: Seq<Seq<u8>>, k: int)
    requires
        0 <= k <= params.len(),
    ensures
        payload(params.take(k)).len() <= payload(params).len(),
        k > 0 ==> payload(params.take(k)) == payload(params.take(k - 1)) + seq![FIELD]
            + params[k - 1],
    decreases params.len() - k,
{
    if k == params.len() {
        assert(params.take(k) =~= params);
    } else {
        lemma_payload_len(params, k + 1);
    }
    if k > 0 {
        assert(params.take(k).drop_last() =~= params.take(k - 1));
    }
}

proof fn lemma_head(s: Sentence)
    requires
        s.well_formed(),
    ensures
        run(Machine::init(), head(s)) == reading(s, 0),
        results(Machine::init(), head(s)).len() == 0,
{
    let init = Machine::init();
    let (t0, t1) = (s.talker[0], s.talker[1]);
    let (y0, y1, y2) = (s.msgtype[0], s.msgtype[1], s.msgtype[2]);
    assert(is_upper(t0) && is_upper(t1) && is_upper(y0) && is_upper(y1) && is_upper(y2));
    let w1 = seq![s.lead()];
    let w2 = w1.push(t0);
    let w3 = w2.push(t1);
    let w4 = w3.push(y0);
    let w5 = w4.push(y1);
    let w6 = w5.push(y2);
    lemma_run_one(init, s.lead());
    lemma_run_push(init, w1, t0);
    lemma_run_push(init, w2, t1);
    lemma_run_push(init, w3, y0);
    lemma_run_push(init, w4, y1);
    lemma_run_push(init, w5, y2);
    assert(w6 =~= head(s));
    let e0 = Seq::<u8>::empty();
    let e1 = e0.push(t0);
    let e2 = e1.push(t1);
    let e3 = e2.push(y0);
    let e4 = e3.push(y1);
    let e5 = e4.push(y2);
    lemma_xor_push(0, e0, t0);
    lemma_xor_push(0, e1, t1);
    lemma_xor_push(0, e2, y0);
    lemma_xor_push(0, e3, y1);
    lemma_xor_push(0, e4, y2);
    assert(s.params.take(0) =~= Seq::<Seq<u8>>::empty());
    assert(e5 =~= body_to(s, 0));
    let m1 = run(init, w1);
    let m2 = run(init, w2);
    let m3 = run(init, w3);
    let m4 = run(init, w4);
    let m5 = run(init, w5);
    let m6 = run(init, w6);
    assert(m1.phase == Phase::Talker && m1.acc.collect.len() == 0);
    assert(m2.phase == Phase::Talker && m2.acc.collect.len() == 1);
    assert(m3.phase == Phase::MsgType && m3.acc.collect.len() == 0);
    assert(m3.acc.msg.talker =~= chars(s.talker));
    assert(m4.phase == Phase::MsgType && m4.acc.collect.len() == 1);
    assert(m5.phase == Phase::MsgType && m5.acc.collect.len() == 2);
    assert(m6.acc.collect =~= chars(s.msgtype));
    assert(m6.acc.chksum == xor_of(body_to(s, 0)));
    assert(m6.acc =~= reading(s, 0).acc);
}

/// The decoder after the comma that opens the `k`-th field.
spec fn opened(s: Sentence, k: int) -> Machine {
    Machine {
        phase: Phase::Params,
        acc: Accumulator {
            event_count: 2 + body_to(s, k - 1).len(),
            error: Seq::empty(),
            msg: MsgView {
                encapsulation: s.encapsulation,
                talker: chars(s.talker),
                msgtype: chars(s.msgtype),
                params: fields_chars(s.params.take(k - 1)),
                chksum: Seq::empty(),
                chksum_valid: None,
            },
            chksum: xor_of(body_to(s, k - 1)) ^ FIELD,
            collect: Seq::empty(),
        },
    }
}

proof fn lemma_comma(s: Sentence, k: int)
    requires
        s.well_formed(),
        1 <= k <= s.params.len(),
        2 + body_to(s, k - 1).len() <= MAX_MSG_SIZE,
    ensures
        step(reading(s, k - 1), FIELD) == (Step { next: opened(s, k), outcome: Outcome::Pending }),
{
    let next = step(reading(s, k - 1), FIELD).next;
    if k > 1 {
        assert(s.params.take(k - 1).drop_last() =~= s.params.take(k - 2));
        assert(fields_chars(s.params.take(k - 2)).push(chars(s.params[k - 2])) =~= fields_chars(
            s.params.take(k - 1),
        ));
    } else {
        assert(fields_chars(s.params.take(k - 1)) =~= Seq::<Seq<char>>::empty());
    }
    assert(next.acc.msg =~= opened(s, k).acc.msg);
    assert(next.acc =~= opened(s, k).acc);
}

proof fn lemma_field(s: Sentence, k: int)
    requires
        1 <= k <= s.params.len(),
    ensures
        in_field(opened(s, k), s.params[k - 1]) == reading(s, k),
        body_to(s, k) == body_to(s, k - 1).push(FIELD) + s.params[k - 1],
{
    let field = s.params[k - 1];
    lemma_payload_len(s.params, k);
    assert(body_to(s, k) =~= body_to(s, k - 1).push(FIELD) + field);
    lemma_xor_concat(0, body_to(s, k - 1).push(FIELD), field);
    lemma_xor_push(0, body_to(s, k - 1), FIELD);
    assert(Seq::<char>::empty() + chars(field) =~= chars(field));
    assert(in_field(opened(s, k), field).acc =~= reading(s, k).acc);
}

/// The decoder after the comma that opens the `k`-th field and the first `j`
/// bytes of that field.
proof fn lemma_part_of_field(s: Sentence, k: int, j: int)
    requires
        s.well_formed(),
        1 <= k <= s.params.len(),
        0 <= j <= s.params[k - 1].len(),
        2 + body_to(s, k - 1).len() + j <= MAX_MSG_SIZE,
        run(Machine::init(), head(s) + payload(s.params.take(k - 1))) == reading(s, k - 1),
        results(Machine::init(), head(s) + payload(s.params.take(k - 1))).len() == 0,
    ensures
        run(
            Machine::init(),
            (head(s) + payload(s.params.take(k - 1))).push(FIELD) + s.params[k - 1].take(j),
        ) == in_field(opened(s, k), s.params[k - 1].take(j)),
        results(
            Machine::init(),
            (head(s) + payload(s.params.take(k - 1))).push(FIELD) + s.params[k - 1].take(j),
        ).len() == 0,
{
    let init = Machine::init();
    let before = head(s) + payload(s.params.take(k - 1));
    let part = s.params[k - 1].take(j);
    lemma_comma(s, k);
    lemma_run_push(init, before, FIELD);
    assert forall|i: int| 0 <= i < part.len() implies is_field_byte(#[trigger] part[i]) by {
        assert(is_field_byte(s.params[k - 1][i]));
    }
    lemma_field_bytes(opened(s, k), part);
    lemma_run_concat(init, before.push(FIELD), part);
}

proof fn lemma_fields(s: Sentence, k: int)
    requires
        s.well_formed(),
        0 <= k <= s.params.len(),
        1 + body_to(s, k).len() <= MAX_MSG_SIZE,
    ensures
        run(Machine::init(), head(s) + payload(s.params.take(k))) == reading(s, k),
        results(Machine::init(), head(s) + payload(s.params.take(k))).len() == 0,
    decreases k,
{
    if k == 0 {
        lemma_head(s);
        assert(s.params.take(0) =~= Seq::<Seq<u8>>::empty());
        assert(head(s) + payload(s.params.take(k)) =~= head(s));
    } else {
        let field = s.params[k - 1];
        lemma_field(s, k);
        lemma_fields(s, k - 1);
        lemma_payload_len(s.params, k);
        lemma_part_of_field(s, k, field.len() as int);
        assert(field.take(field.len() as int) =~= field);
        assert((head(s) + payload(s.params.take(k - 1))).push(FIELD) + field =~= head(s)
            + payload(s.params.take(k)));
    }
}

/// The bytes between the last field and the line feed.
spec fn tail(s: Sentence) -> Seq<u8> {
    seq![AST] + s.chksum + seq![CR]
}

/// The decoder after all the fields and the first `t` bytes that follow them,
/// for `t` from one to four.
spec fn closing(s: Sentence, t: int) -> Machine {
    Machine {
        phase: if t < 4 {
            Phase::Checksum
        } else {
            Phase::Linefeed
        },
        acc: Accumulator {
            event_count: (1 + s.body().len() + t) as nat,
            error: Seq::empty(),
            msg: MsgView {
                chksum: if t < 4 {
                    Seq::empty()
                } else {
                    chars(s.chksum)
                },
                chksum_valid: if t < 4 {
                    None
                } else {
                    s.record().chksum_valid
                },
                ..s.record()
            },
            chksum: s.checksum(),
            collect: if t < 4 {
                chars(s.chksum.take(t - 1))
            } else {
                Seq::empty()
            },
        },
    }
}

proof fn lemma_tail(s: Sentence, t: int)
    requires
        s.well_formed(),
        1 <= t <= 4,
        1 + s.body().len() + t <= MAX_MSG_SIZE,
    ensures
        run(Machine::init(), head(s) + payload(s.params) + tail(s).take(t)) == closing(s, t),
        results(Machine::init(), head(s) + payload(s.params) + tail(s).take(t)).len() == 0,
    decreases t,
{
    let init = Machine::init();
    let n = s.params.len() as int;
    let fed = head(s) + payload(s.params);
    assert(s.params.take(n) =~= s.params);
    assert(body_to(s, n) =~= s.body());
    assert(is_hex(s.chksum[0]) && is_hex(s.chksum[1]));
    if t == 1 {
        lemma_fields(s, n);
        lemma_run_push(init, fed, AST);
        assert(fed.push(AST) =~= fed + tail(s).take(1));
        let m = step(reading(s, n), AST).next;
        assert(m.acc.msg.params =~= fields_chars(s.params)) by {
            if n > 0 {
                assert(s.params.take(n - 1).push(s.params[n - 1]) =~= s.params);
            }
        }
        assert(m.acc.collect =~= chars(s.chksum.take(0)));
        assert(m.acc.msg =~= closing(s, 1).acc.msg);
        assert(m.acc =~= closing(s, 1).acc);
    } else {
        lemma_tail(s, t - 1);
        let before = fed + tail(s).take(t - 1);
        let b = tail(s)[t - 1];
        lemma_run_push(init, before, b);
        assert(before.push(b) =~= fed + tail(s).take(t));
        let m = step(closing(s, t - 1), b).next;
        if t < 4 {
            assert(b == s.chksum[t - 2]);
            assert(s.chksum.take(t - 2).push(b) =~= s.chksum.take(t - 1));
            lemma_chars_push(s.chksum.take(t - 2), b);
        } else {
            assert(b == CR);
            assert(s.chksum.take(2) =~= s.chksum);
        }
        assert(m.acc.msg =~= closing(s, t).acc.msg);
        assert(m.acc =~= closing(s, t).acc);
    }
}

/// A sentence that keeps to the wire format is decoded, whatever its checksum
/// digits say.
///
/// Fed from the start of a sentence, the bytes are all taken, the line feed ends
/// the sentence, and the message holds the parts of the sentence: the talker,
/// the type, each field between its commas, and the two digits. It is marked
/// valid if and only if the digits are those of the exclusive-or of the bytes
/// between the lead character and the asterisk. A checksum that does not match
/// is no reason to reject the sentence.
pub proof fn lemma_sentence_decodes(s: Sentence)
    requires
        s.well_formed(),
        s.wire().len() <= MAX_MSG_SIZE,
    ensures
        scan(Machine::init(), s.wire()) == (Scan {
            consumed: s.wire().len(),
            next: Machine::init(),
            outcome: Outcome::Message(s.record()),
        }),
        results(Machine::init(), s.wire()) == seq![Outcome::Message(s.record())],
        run(Machine::init(), s.wire()) == Machine::init(),
{
    let init = Machine::init();
    lemma_tail(s, 4);
    let front = head(s) + payload(s.params) + tail(s).take(4);
    assert(front.push(LF) =~= s.wire());
    assert(s.wire().drop_last() =~= front);
    assert(closing(s, 4).acc.msg =~= s.record());
    assert(step(closing(s, 4), LF).outcome == Outcome::Message(s.record()));
    lemma_scan_to_first_ending(init, s.wire());
}

/// A sentence that keeps to the wire format and carries the digits of its own
/// checksum is decoded to a message that is marked valid and holds, as its
/// fields, what stood between the commas.
pub proof fn lemma_matching_checksum_is_valid(s: Sentence)
    requires
        s.well_formed(),
        s.wire().len() <= MAX_MSG_SIZE,
        chars(s.chksum) == hex_byte(s.checksum()),
    ensures
        results(Machine::init(), s.wire()) == seq![Outcome::Message(s.record())],
        s.record().chksum_valid == Some(true),
        s.record().params == fields_chars(s.params),
{
    lemma_sentence_decodes(s);
}

/// A sentence that keeps to the wire format but carries other digits than those
/// of its checksum is decoded all the same: the message is marked invalid, and
/// no error is reported.
pub proof fn lemma_wrong_checksum_is_flagged(s: Sentence)
    requires
        s.well_formed(),
        s.wire().len() <= MAX_MSG_SIZE,
        chars(s.chksum) != hex_byte(s.checksum()),
    ensures
        results(Machine::init(), s.wire()) == seq![Outcome::Message(s.record())],
        s.record().chksum_valid == Some(false),
{
    lemma_sentence_decodes(s);
}

/// A framer at the start of a sentence that finds a sentence at the front of
/// its buffer returns the message, takes the sentence off the buffer and leaves
/// what follows it, and from then on drops no error.
pub proof fn lemma_frame_of_sentence(first: bool, s: Sentence, more: Seq<u8>)
    requires
        s.well_formed(),
        s.wire().len() <= MAX_MSG_SIZE,
    ensures
        frame(Framer { machine: Machine::init(), first }, s.wire() + more) == (Frame {
            codec: Framer { machine: Machine::init(), first: false },
            buf: more,
            outcome: Outcome::Message(s.record()),
        }),
{
    let buf = s.wire() + more;
    lemma_sentence_decodes(s);
    lemma_scan_stops_at_ending(Machine::init(), s.wire(), more);
    assert(buf.skip(0) =~= buf);
    assert(buf.skip(s.wire().len() as int) =~= more);
}

/// After any ending, an error as much as a message, a sentence that keeps to the
/// wire format is decoded at once: nothing of what came before is held against it.
pub proof fn lemma_sentence_after_ending(m: Machine, b: u8, s: Sentence)
    requires
        !(step(m, b).outcome is Pending),
        s.well_formed(),
        s.wire().len() <= MAX_MSG_SIZE,
    ensures
        scan(step(m, b).next, s.wire()) == (Scan {
            consumed: s.wire().len(),
            next: Machine::init(),
            outcome: Outcome::Message(s.record()),
        }),
{
    lemma_ending_starts_afresh(m, b);
    lemma_sentence_decodes(s);
}

/// In a stream, a sentence that keeps to the wire format and follows directly
/// on an ending adds its message to what the stream came to before, whatever
/// that was.
pub proof fn lemma_sentence_in_stream(m: Machine, before: Seq<u8>, s: Sentence)
    requires
        before.len() > 0,
        !(step(run(m, before.drop_last()), before.last()).outcome is Pending),
        s.well_formed(),
        s.wire().len() <= MAX_MSG_SIZE,
    ensures
        results(m, before + s.wire()) == results(m, before).push(Outcome::Message(s.record())),
        run(m, before + s.wire()) == Machine::init(),
{
    lemma_ending_starts_afresh(run(m, before.drop_last()), before.last());
    lemma_sentence_decodes(s);
    lemma_run_concat(m, before, s.wire());
    assert(results(m, before) + seq![Outcome::Message(s.record())] =~= results(m, before).push(
        Outcome::Message(s.record()),
    ));
}

proof fn lemma_payload_has_no_line_feed(params: Seq<Seq<u8>>)
    requires
        forall|i: int, j: int|
            0 <= i < params.len() && 0 <= j < params[i].len() ==> is_field_byte(
                #[trigger] params[i][j],
            ),
    ensures
        forall|k: int| 0 <= k < payload(params).len() ==> #[trigger] payload(params)[k] != LF,
    decreases params.len(),
{
    if params.len() > 0 {
        let front = payload(params.drop_last());
        let last = params.last();
        assert forall|i: int, j: int|
            0 <= i < params.drop_last().len() && 0 <= j < params.drop_last()[i].len() implies is_field_byte(
            #[trigger] params.drop_last()[i][j],
        ) by {
            assert(is_field_byte(params[i][j]));
        }
        lemma_payload_has_no_line_feed(params.drop_last());
        assert forall|k: int| 0 <= k < payload(params).len() implies #[trigger] payload(params)[k]
            != LF by {
            if k < front.len() {
                assert(payload(params)[k] == front[k]);
            } else if k > front.len() {
                assert(is_field_byte(params[params.len() - 1][k - front.len() - 1]));
            }
        }
    }
}

/// Where a cut through the fields as they stand on the wire falls: in which
/// field, and after how many of its bytes.
proof fn lemma_payload_prefix(params: Seq<Seq<u8>>, t: int) -> (at: (int, int))
    requires
        1 <= t <= payload(params).len(),
    ensures
        1 <= at.0 <= params.len(),
        0 <= at.1 <= params[at.0 - 1].len(),
        payload(params.take(at.0 - 1)).len() + 1 + at.1 == t,
        payload(params).take(t) == payload(params.take(at.0 - 1)).push(FIELD) + params[at.0
            - 1].take(at.1),
    decreases params.len(),
{
    let front = params.drop_last();
    let p = payload(front).len() as int;
    if t <= p {
        let at = lemma_payload_prefix(front, t);
        assert(front.take(at.0 - 1) =~= params.take(at.0 - 1));
        assert(payload(params).take(t) =~= payload(front).take(t));
        at
    } else {
        let k = params.len() as int;
        assert(params.take(k - 1) =~= front);
        assert(payload(params).take(t) =~= payload(front).push(FIELD) + params.last().take(
            t - p - 1,
        ));
        (k, t - p - 1)
    }
}

/// Nothing is held against a sentence that keeps to the wire format while its
/// first 82 bytes are read, however long it is.
proof fn lemma_overlong_prefix(s: Sentence)
    requires
        s.well_formed(),
        s.wire().len() > MAX_MSG_SIZE,
    ensures
        run(Machine::init(), s.wire().take(MAX_MSG_SIZE as int)).acc.error.len() == 0,
{
    let p = payload(s.params).len() as int;
    let cut = s.wire().take(MAX_MSG_SIZE as int);
    if p >= 76 {
        let (k, j) = lemma_payload_prefix(s.params, 76);
        lemma_fields(s, k - 1);
        lemma_part_of_field(s, k, j);
        assert(cut =~= (head(s) + payload(s.params.take(k - 1))).push(FIELD) + s.params[k
            - 1].take(j)) by {
            assert(cut =~= head(s) + payload(s.params).take(76));
        }
    } else {
        lemma_tail(s, 76 - p);
        assert(cut =~= head(s) + payload(s.params) + tail(s).take(76 - p));
    }
}

/// A sentence of more than 82 bytes comes to a length error, however well it
/// keeps to the wire format otherwise and whatever its checksum: the decoder
/// cuts it off at its 83rd byte and hands out no message for it.
pub proof fn lemma_overlong_sentence_is_cut_off(s: Sentence)
    requires
        s.well_formed(),
        s.wire().len() > MAX_MSG_SIZE,
    ensures
        scan(Machine::init(), s.wire()) == (Scan {
            consumed: (MAX_MSG_SIZE + 1) as nat,
            next: Machine::init(),
            outcome: Outcome::Error("Message too long"@),
        }),
{
    let wire = s.wire();
    let p = payload(s.params).len() as int;
    lemma_payload_has_no_line_feed(s.params);
    assert forall|i: int| 0 <= i < MAX_MSG_SIZE implies wire[i] != LF by {
        if i == 0 {
        } else if i < 3 {
            assert(is_upper(s.talker[i - 1]));
        } else if i < 6 {
            assert(is_upper(s.msgtype[i - 3]));
        } else if i < 6 + p {
            assert(wire[i] == payload(s.params)[i - 6]);
        } else if i == 6 + p {
        } else if i < 9 + p {
            assert(is_hex(s.chksum[i - 7 - p]));
        } else {
            assert(wire[i] == CR);
        }
    }
    lemma_overlong_is_cut_off(Machine::init(), wire);
    lemma_overlong_prefix(s);
}

} // verus!
