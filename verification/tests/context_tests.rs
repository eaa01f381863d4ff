use nmea0183_feed::context::{Context, InnerContext, MAX_MSG_SIZE};
use nmea0183_feed::msg::Nmea0183Msg;

const CR: u8 = 0xD;
const LF: u8 = 0xA;

const LINES: [&str; 8] = [
    "$GPGLL,4916.45,N,12311.12,W,225444,A,*1D",
    "$GPGGA,123519,4807.038,N,01131.000,E,1,08,0.9,545.4,M,46.9,M,,*47",
    "$GPRMC,123519,A,4807.038,N,01131.000,E,022.4,084.4,230394,003.1,W*6A",
    "!AIVDM,1,1,,A,13aEOK?P00PD2wVMdLDRhgvL289?,0*26",
    "$GPGLL*50",
    "$GPGLL,*7C",
    "$GPGSV,3,1,11,03,03,111,00,04,15,270,00,06,01,010,00,13,06,292,00*74",
    "$GPGSA,A,3,04,05,,09,12,,,24,,,,,2.5,1.3,2.1*39",
];

fn feed(ctx: &mut Context, bytes: &[u8]) -> Vec<Result<Nmea0183Msg, String>> {
    let mut out = Vec::new();
    for b in bytes {
        match ctx.handle_event(b) {
            Ok(None) => {}
            Ok(Some(msg)) => out.push(Ok(msg)),
            Err(error) => out.push(Err(error)),
        }
    }
    out
}

fn decode_one(bytes: &[u8]) -> Result<Nmea0183Msg, String> {
    let mut ctx = Context::new();
    let mut out = feed(&mut ctx, bytes);
    assert_eq!(out.len(), 1, "exactly one sentence ends in the input");
    assert_eq!(ctx.get_event_count(), 0);
    out.pop().unwrap()
}

fn checksum(body: &[u8]) -> u8 {
    body.iter().fold(0, |acc, b| acc ^ b)
}

fn wire(lead: u8, body: &[u8]) -> Vec<u8> {
    let mut bytes = vec![lead];
    bytes.extend_from_slice(body);
    bytes.extend_from_slice(format!("*{:02X}\r\n", checksum(body)).as_bytes());
    bytes
}

fn strings(items: &[&str]) -> Vec<String> {
    items.iter().map(|s| s.to_string()).collect()
}

#[test]
fn test_data() {
    let mut ctx = Context::new();
    for (idx, line) in LINES.iter().enumerate() {
        line.chars().for_each(|ch| match ctx.handle_event(&(ch as u8)) {
            Ok(res) => {
                assert!(res.is_none(), "{} {}", idx + 1, line);
            }
            Err(error) => {
                panic!("error parsing message {} {}: {:?}", idx + 1, line, error);
            }
        });
        match ctx.handle_event(&CR) {
            Ok(res) => {
                assert!(res.is_none(), "{} {}", idx + 1, line)
            }
            Err(error) => {
                panic!("error parsing message {} {}: {:?}", idx, line, error);
            }
        }
        match ctx.handle_event(&LF) {
            Ok(res) => {
                assert!(
                    res.expect(format!("empty result @{}, {}", idx + 1, line).as_str())
                        .chksum_valid
                        .expect(format!("checksum not calculated @{} {}", idx + 1, line).as_str()),
                    "checksum does not match @{} {}",
                    idx + 1,
                    line
                )
            }
            Err(error) => {
                panic!("error parsing message {} {}: {:?}", idx + 1, line, error);
            }
        }
    }
}

#[test]
fn gll_sentence_decodes_with_valid_checksum() {
    let msg = decode_one(b"$GPGLL,4916.45,N,12311.12,W,225444,A,*1D\r\n").unwrap();
    assert!(!msg.encapsulation);
    assert_eq!(msg.talker, "GP");
    assert_eq!(msg.msgtype, "GLL");
    assert_eq!(msg.params, strings(&["4916.45", "N", "12311.12", "W", "225444", "A", ""]));
    assert_eq!(msg.chksum, "1D");
    assert_eq!(msg.chksum_valid, Some(true));
}

#[test]
fn corrupted_payload_keeps_record_but_flags_checksum() {
    let msg = decode_one(b"$GPGLL,4916.45,N,12311.12,W,225444,B,*1D\r\n").unwrap();
    assert_eq!(msg.talker, "GP");
    assert_eq!(msg.msgtype, "GLL");
    assert_eq!(msg.params, strings(&["4916.45", "N", "12311.12", "W", "225444", "B", ""]));
    assert_eq!(msg.chksum, "1D");
    assert_eq!(msg.chksum_valid, Some(false));
}

#[test]
fn missing_lead_character_is_rejected_in_start() {
    let error = decode_one(b"GPGLL,4916.45,N,12311.12,W,225444,A,*1D\r\n").unwrap_err();
    assert_eq!(error, "Invalid event 47:'G' in state Start");
}

#[test]
fn every_well_formed_line_is_valid() {
    for line in LINES {
        let mut bytes = line.as_bytes().to_vec();
        bytes.extend_from_slice(b"\r\n");
        let msg = decode_one(&bytes).unwrap();
        assert_eq!(msg.chksum_valid, Some(true), "{}", line);
        let star = line.rfind('*').unwrap();
        let payload = &line[6..star];
        let expected: Vec<String> = if payload.is_empty() {
            Vec::new()
        } else {
            payload[1..].split(',').map(|s| s.to_string()).collect()
        };
        assert_eq!(msg.params, expected, "{}", line);
        assert_eq!(msg.talker, &line[1..3]);
        assert_eq!(msg.msgtype, &line[3..6]);
        assert_eq!(msg.chksum, &line[star + 1..]);
        assert_eq!(msg.encapsulation, line.starts_with('!'));
    }
}

#[test]
fn flipped_checksum_is_flagged_not_rejected() {
    for line in LINES {
        let star = line.rfind('*').unwrap();
        let value = u8::from_str_radix(&line[star + 1..], 16).unwrap();
        let flipped = format!("{}*{:02X}\r\n", &line[..star], value ^ 0xFF);
        let msg = decode_one(flipped.as_bytes()).unwrap();
        assert_eq!(msg.chksum_valid, Some(false), "{}", line);
        assert_eq!(msg.chksum, format!("{:02X}", value ^ 0xFF));
    }
}

#[test]
fn encapsulated_sentence_is_marked() {
    let msg = decode_one(b"!AIVDM,1,1,,A,13aEOK?P00PD2wVMdLDRhgvL289?,0*26\r\n").unwrap();
    assert!(msg.encapsulation);
    assert_eq!(msg.talker, "AI");
    assert_eq!(msg.msgtype, "VDM");
    assert_eq!(msg.params, strings(&["1", "1", "", "A", "13aEOK?P00PD2wVMdLDRhgvL289?", "0"]));
    assert_eq!(msg.chksum_valid, Some(true));
}

#[test]
fn sentence_without_fields() {
    let msg = decode_one(b"$GPGLL*50\r\n").unwrap();
    assert!(msg.params.is_empty());
    assert_eq!(msg.chksum, "50");
    assert_eq!(msg.chksum_valid, Some(true));
}

#[test]
fn single_empty_field() {
    let msg = decode_one(b"$GPGLL,*7C\r\n").unwrap();
    assert_eq!(msg.params, strings(&[""]));
    assert_eq!(msg.chksum_valid, Some(true));
}

#[test]
fn sentence_without_checksum_is_not_judged() {
    let msg = decode_one(b"$GPGLL,4916.45,N\r\n").unwrap();
    assert_eq!(msg.talker, "GP");
    assert_eq!(msg.msgtype, "GLL");
    assert_eq!(msg.params, strings(&["4916.45", "N"]));
    assert_eq!(msg.chksum, "");
    assert_eq!(msg.chksum_valid, None);
}

#[test]
fn line_feed_among_the_fields_ends_the_sentence() {
    let msg = decode_one(b"$GPGLL,4916.45,N\n").unwrap();
    assert_eq!(msg.talker, "GP");
    assert_eq!(msg.msgtype, "GLL");
    assert_eq!(msg.params, strings(&["4916.45"]));
    assert_eq!(msg.chksum, "");
    assert_eq!(msg.chksum_valid, None);
}

#[test]
fn bytes_above_ascii_are_kept_in_fields() {
    let body = [b'G', b'P', b'T', b'X', b'T', b',', 0xE9, b'~', 0xFF];
    let msg = decode_one(&wire(b'$', &body)).unwrap();
    assert_eq!(msg.params, strings(&["\u{e9}~\u{ff}"]));
    assert_eq!(msg.chksum_valid, Some(true));
}

#[test]
fn lower_case_checksum_digits_are_rejected() {
    let error = decode_one(b"$GPGLL*5a\r\n").unwrap_err();
    assert_eq!(error, "Invalid event 61:'a' @9 in state Checksum");
}

#[test]
fn empty_line_is_rejected_in_start() {
    let error = decode_one(b"\n").unwrap_err();
    assert_eq!(error, "Invalid event 0A:'\u{263a}' in state Start");
}

#[test]
fn talker_must_be_capital_letters() {
    let error = decode_one(b"$gPGLL*50\r\n").unwrap_err();
    assert_eq!(error, "Invalid event 67:'g' in state Talker");
    let error = decode_one(b"$G\n").unwrap_err();
    assert_eq!(error, "Invalid event 0A:'\u{263a}' in state Talker");
}

#[test]
fn fourth_letter_of_the_type_is_rejected() {
    let error = decode_one(b"$GPGLLA,1*00\r\n").unwrap_err();
    assert_eq!(
        error,
        "Invalid event @7 in state MsgType, expected ',' or '*' or CR, got 41:'A'"
    );
}

#[test]
fn comma_before_the_type_is_complete_is_rejected() {
    let error = decode_one(b"$GPGL,1*00\r\n").unwrap_err();
    assert_eq!(error, "Invalid event @6 in state MsgType, expected 'A'-'Z', got 2C:','");
}

#[test]
fn other_bytes_in_the_type_are_rejected() {
    let error = decode_one(b"$GPG1L,1*00\r\n").unwrap_err();
    assert_eq!(error, "Invalid event 31:'1' @5 in state MsgType");
    let error = decode_one(b"$GPGL*00\r\n").unwrap_err();
    assert_eq!(error, "Invalid event 2A:'*' @6 in state MsgType");
    let error = decode_one(b"$GPGLL\r\n").unwrap_err();
    assert_eq!(error, "Invalid event 0D:'\u{263a}' @7 in state MsgType");
}

#[test]
fn third_checksum_digit_is_rejected() {
    let error = decode_one(b"$GPGLL*501\r\n").unwrap_err();
    assert_eq!(error, "Invalid event @10 in state Checksum, expected CR, got 31:'1'");
}

#[test]
fn carriage_return_before_two_digits_is_rejected() {
    let error = decode_one(b"$GPGLL*5\r\n").unwrap_err();
    assert_eq!(error, "Invalid event 0D:'\u{263a}' @9 in state Checksum, expected CR");
}

#[test]
fn other_bytes_in_the_checksum_are_rejected() {
    let error = decode_one(b"$GPGLL*5G\r\n").unwrap_err();
    assert_eq!(error, "Invalid event 47:'G' @9 in state Checksum");
    let error = decode_one(b"$GPGLL*50\n").unwrap_err();
    assert_eq!(error, "Invalid event 0A:'\u{263a}' @10 in state Checksum");
}

#[test]
fn carriage_return_must_be_followed_by_line_feed() {
    let error = decode_one(b"$GPGLL*50\rX\n").unwrap_err();
    assert_eq!(error, "Invalid event 58:'X' @11 in state Linefeed");
}

#[test]
fn first_error_is_kept_until_the_line_feed() {
    let error = decode_one(b"$GP1LL,,,*zz\r\r\n").unwrap_err();
    assert_eq!(error, "Invalid event 31:'1' @4 in state MsgType");
}

#[test]
fn sentence_of_maximum_length_is_accepted() {
    let mut body = b"GPTXT,".to_vec();
    body.resize(MAX_MSG_SIZE - 6, b'x');
    let bytes = wire(b'$', &body);
    assert_eq!(bytes.len(), 82);
    let msg = decode_one(&bytes).unwrap();
    assert_eq!(msg.chksum_valid, Some(true));
    assert_eq!(msg.params, vec!["x".repeat(70)]);
}

#[test]
fn overlong_sentence_is_cut_off_at_byte_83() {
    let mut body = b"GPTXT,".to_vec();
    body.resize(MAX_MSG_SIZE - 5, b'x');
    let bytes = wire(b'$', &body);
    assert_eq!(bytes.len(), 83);
    let mut ctx = Context::new();
    for b in &bytes[..82] {
        assert!(matches!(ctx.handle_event(b), Ok(None)));
    }
    assert_eq!(ctx.get_event_count(), 82);
    assert_eq!(ctx.handle_event(&bytes[82]).unwrap_err(), "Message too long");
    assert_eq!(ctx.get_event_count(), 0);
}

#[test]
fn overlong_line_without_line_feed_is_cut_off() {
    let mut ctx = Context::new();
    let bytes = [b'$'; 200];
    let out = feed(&mut ctx, &bytes);
    let errors: Vec<String> = out.into_iter().map(|r| r.unwrap_err()).collect();
    assert_eq!(
        errors,
        vec![
            "Invalid event 24:'$' in state Talker + Message too long".to_string(),
            "Invalid event 24:'$' in state Talker + Message too long".to_string(),
        ]
    );
    assert_eq!(ctx.get_event_count(), 200 - 2 * 83);
}

#[test]
fn length_error_keeps_the_earlier_reason() {
    let mut ctx = Context::new();
    let mut bytes = vec![b'x'; 82];
    bytes.push(b'\n');
    let out = feed(&mut ctx, &bytes);
    assert_eq!(out.len(), 1);
    assert_eq!(
        out[0].as_ref().unwrap_err(),
        "Invalid event 78:'x' in state Start + Message too long"
    );
}

#[test]
fn sentence_after_an_error_is_decoded() {
    let mut ctx = Context::new();
    let mut stream = b"garbage*,\r\n".to_vec();
    stream.extend_from_slice(b"$GPGLL,4916.45,N,12311.12,W,225444,A,*1D\r\n");
    stream.extend_from_slice(b"$GPGLL*5\r\n");
    stream.extend_from_slice(b"$GPGLL,*7C\r\n");
    let out = feed(&mut ctx, &stream);
    assert_eq!(out.len(), 4);
    assert_eq!(out[0].as_ref().unwrap_err(), "Invalid event 67:'g' in state Start");
    let msg = out[1].as_ref().unwrap();
    assert_eq!(msg.chksum_valid, Some(true));
    assert_eq!(msg.params.len(), 7);
    assert!(out[2].is_err());
    let msg = out[3].as_ref().unwrap();
    assert_eq!(msg.params, strings(&[""]));
    assert_eq!(msg.chksum_valid, Some(true));
    assert!(!msg.encapsulation);
}

#[test]
fn sentence_after_a_length_error_is_decoded() {
    let mut ctx = Context::new();
    let mut stream = vec![b'$'; 82];
    stream.push(b'\n');
    stream.extend_from_slice(b"!AIVDM,1,1,,A,13aEOK?P00PD2wVMdLDRhgvL289?,0*26\r\n");
    let out = feed(&mut ctx, &stream);
    assert_eq!(out.len(), 2);
    assert!(out[0].is_err());
    let msg = out[1].as_ref().unwrap();
    assert!(msg.encapsulation);
    assert_eq!(msg.chksum_valid, Some(true));
}

#[test]
fn encapsulation_does_not_leak_into_the_next_sentence() {
    let mut ctx = Context::new();
    let out = feed(&mut ctx, b"!AIVDM*57\r\n$GPGLL*50\r\n");
    assert_eq!(out.len(), 2);
    assert!(out[0].as_ref().unwrap().encapsulation);
    assert!(!out[1].as_ref().unwrap().encapsulation);
}

#[test]
fn event_count_follows_the_sentence_in_flight() {
    let mut ctx = Context::new();
    assert_eq!(ctx.get_event_count(), 0);
    for (i, b) in b"$GPGLL,49".iter().enumerate() {
        assert!(matches!(ctx.handle_event(b), Ok(None)));
        assert_eq!(ctx.get_event_count(), i + 1);
    }
    assert!(matches!(ctx.handle_event(&b'\n'), Ok(Some(_))));
    assert_eq!(ctx.get_event_count(), 0);
}

#[test]
fn fresh_accumulator_is_empty() {
    let ctx = InnerContext::new();
    assert_eq!(ctx.event_count, 0);
    assert_eq!(ctx.error, "");
    assert_eq!(ctx.chksum, 0);
    assert_eq!(ctx.collect, "");
    assert_eq!(ctx.msg.talker, "");
    assert_eq!(ctx.msg.msgtype, "");
    assert!(ctx.msg.params.is_empty());
    assert_eq!(ctx.msg.chksum, "");
    assert_eq!(ctx.msg.chksum_valid, None);
    assert!(!ctx.msg.encapsulation);
}

#[test]
fn reset_clears_everything() {
    let mut ctx = InnerContext::new();
    ctx.event_count = 17;
    ctx.error.push_str("bad");
    ctx.chksum = 0x5A;
    ctx.collect.push_str("12");
    ctx.msg.encapsulation = true;
    ctx.msg.talker.push_str("GP");
    ctx.msg.params.push("1".to_string());
    ctx.msg.chksum_valid = Some(true);
    ctx.reset();
    assert_eq!(ctx.event_count, 0);
    assert_eq!(ctx.error, "");
    assert_eq!(ctx.chksum, 0);
    assert_eq!(ctx.collect, "");
    assert_eq!(ctx.msg.talker, "");
    assert!(ctx.msg.params.is_empty());
    assert_eq!(ctx.msg.chksum_valid, None);
    assert!(!ctx.msg.encapsulation);
}

#[test]
fn default_message_is_empty() {
    let msg = Nmea0183Msg::default();
    assert!(!msg.encapsulation);
    assert_eq!(msg.talker, "");
    assert_eq!(msg.msgtype, "");
    assert!(msg.params.is_empty());
    assert_eq!(msg.chksum, "");
    assert_eq!(msg.chksum_valid, None);
}
