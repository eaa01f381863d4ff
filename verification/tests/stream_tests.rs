use bytes::BytesMut;
use nmea0183_feed::context::{Context, MAX_MSG_SIZE};
use nmea0183_feed::msg::Nmea0183Msg;
use nmea0183_feed::nmea0183_codec::Nmea0183Codec;

/// A small generator of repeatable pseudo-random numbers.
struct Lcg(u64);

impl Lcg {
    fn next(&mut self) -> u32 {
        self.0 = self.0.wrapping_mul(6364136223846793005).wrapping_add(1442695040888963407);
        (self.0 >> 33) as u32
    }

    fn below(&mut self, n: u32) -> u32 {
        self.next() % n
    }
}

/// A stream of bytes in which sentences, broken sentences and noise alternate.
fn noisy_stream(seed: u64, len: usize) -> Vec<u8> {
    const ALPHABET: &[u8] = b"$!GPLAIVDM,,,**\r\n\r\n0123456789ABCDEFxyz. ";
    let mut rng = Lcg(seed);
    let mut out = Vec::new();
    while out.len() < len {
        match rng.below(4) {
            0 => out.extend_from_slice(b"$GPGLL,4916.45,N,12311.12,W,225444,A,*1D\r\n"),
            1 => out.push(rng.next() as u8),
            _ => {
                for _ in 0..rng.below(30) {
                    out.push(ALPHABET[rng.below(ALPHABET.len() as u32) as usize]);
                }
            }
        }
    }
    out.truncate(len);
    out
}

fn summary(result: Result<Nmea0183Msg, String>) -> String {
    format!("{:?}", result)
}

fn bytewise(bytes: &[u8]) -> Vec<String> {
    let mut ctx = Context::new();
    let mut out = Vec::new();
    for b in bytes {
        match ctx.handle_event(b) {
            Ok(None) => {}
            Ok(Some(msg)) => out.push(summary(Ok(msg))),
            Err(error) => out.push(summary(Err(error))),
        }
    }
    out
}

fn framed(bytes: &[u8], sizes: &mut dyn FnMut() -> usize) -> (Vec<String>, Vec<u8>) {
    let mut codec = Nmea0183Codec::new(false);
    let mut buf = BytesMut::new();
    let mut out = Vec::new();
    let mut at = 0;
    while at < bytes.len() {
        let end = usize::min(bytes.len(), at + sizes());
        buf.extend_from_slice(&bytes[at..end]);
        at = end;
        loop {
            assert!(codec.scanned() <= buf.len());
            match codec.decode(&mut buf) {
                Ok(None) => break,
                Ok(Some(msg)) => out.push(summary(Ok(msg))),
                Err(error) => out.push(summary(Err(error))),
            }
        }
        assert_eq!(codec.scanned(), buf.len());
        assert!(buf.len() <= MAX_MSG_SIZE);
    }
    (out, buf.to_vec())
}

#[test]
fn framer_reports_what_the_decoder_reports_byte_by_byte() {
    for seed in 1..=20u64 {
        let stream = noisy_stream(seed, 3000);
        let expected = bytewise(&stream);
        assert!(expected.len() > 10);
        let (whole, rest) = framed(&stream, &mut || 3000);
        assert_eq!(whole, expected);
        let (single, rest_single) = framed(&stream, &mut || 1);
        assert_eq!(single, expected);
        assert_eq!(rest_single, rest);
        let mut rng = Lcg(seed ^ 0xABCDEF);
        let (random, rest_random) = framed(&stream, &mut || rng.below(200) as usize);
        assert_eq!(random, expected);
        assert_eq!(rest_random, rest);
    }
}

#[test]
fn every_message_keeps_to_the_format() {
    let mut messages = 0;
    for seed in 100..=140u64 {
        let stream = noisy_stream(seed, 4000);
        let mut ctx = Context::new();
        for b in &stream {
            assert!(ctx.get_event_count() <= MAX_MSG_SIZE);
            if let Ok(Some(msg)) = ctx.handle_event(b) {
                messages += 1;
                assert_eq!(msg.talker.len(), 2);
                assert!(msg.talker.bytes().all(|c| c.is_ascii_uppercase()));
                assert_eq!(msg.msgtype.len(), 3);
                assert!(msg.msgtype.bytes().all(|c| c.is_ascii_uppercase()));
                for field in &msg.params {
                    assert!(!field.contains(|c| c == ',' || c == '*' || c == '\r' || c == '\n'));
                }
                match msg.chksum_valid {
                    None => assert_eq!(msg.chksum, ""),
                    Some(_) => {
                        assert_eq!(msg.chksum.len(), 2);
                        assert!(msg.chksum.bytes().all(|c| b"0123456789ABCDEF".contains(&c)));
                    }
                }
            }
        }
    }
    assert!(messages > 100);
}

#[test]
fn every_ending_resets_the_decoder() {
    let stream = noisy_stream(7, 5000);
    let mut ctx = Context::new();
    let mut endings = 0;
    for b in &stream {
        let before = ctx.get_event_count();
        match ctx.handle_event(b) {
            Ok(None) => assert_eq!(ctx.get_event_count(), before + 1),
            _ => {
                endings += 1;
                assert_eq!(ctx.get_event_count(), 0);
                let mut probe = Vec::new();
                for c in b"$GPGLL,*7C\r\n" {
                    if let Ok(Some(msg)) = ctx.handle_event(c) {
                        probe.push(msg);
                    }
                }
                assert_eq!(probe.len(), 1);
                assert_eq!(probe[0].chksum_valid, Some(true));
                assert_eq!(probe[0].params, vec![String::new()]);
                assert!(!probe[0].encapsulation);
            }
        }
    }
    assert!(endings > 50);
}

#[test]
fn lines_longer_than_the_maximum_never_give_a_message() {
    for extra in [1usize, 2, 5, 40, 83, 200] {
        let mut body = b"GPTXT,".to_vec();
        body.resize(MAX_MSG_SIZE - 6 + extra, b'x');
        let sum = body.iter().fold(0u8, |acc, b| acc ^ b);
        let mut wire = vec![b'$'];
        wire.extend_from_slice(&body);
        wire.extend_from_slice(format!("*{:02X}\r\n", sum).as_bytes());
        assert_eq!(wire.len(), MAX_MSG_SIZE + extra);
        let out = bytewise(&wire);
        assert!(!out.is_empty());
        assert_eq!(out[0], format!("{:?}", Err::<Nmea0183Msg, _>("Message too long".to_string())));
        assert!(out.iter().all(|r| r.starts_with("Err(")), "{:?}", out);
    }
}
