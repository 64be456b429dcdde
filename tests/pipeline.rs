use base32768::alphabet::Tables;
use base32768::optimized::{DecoderError, WriteEncoder};
use base32768::pipeline::{
    decode_u15_to_bytes, decode_utf32768_to_u15, encode_bytes_to_base32768_utf8, encode_bytes_to_utf32768,
};
use pipebuf::PipeBuf;

fn pseudo_random(n: usize, seed: u64) -> Vec<u8> {
    let mut x = seed;
    (0..n)
        .map(|_| {
            x = x.wrapping_mul(6364136223846793005).wrapping_add(1442695040888963407);
            (x >> 33) as u8
        })
        .collect()
}

fn one_shot(t: &Tables, b: &[u8]) -> Vec<u16> {
    let mut w = WriteEncoder::new(t, Vec::new());
    w.write_all(b);
    w.finish()
}

fn new_pipe<T: Copy + Default>(cap: Option<usize>) -> PipeBuf<T> {
    match cap {
        Some(c) => PipeBuf::with_fixed_capacity(c),
        None => PipeBuf::new(),
    }
}

/// Runs the three stages to quiescence, feeding the input in pieces and
/// collecting the encoded units as they pass.
fn run(t: &Tables, input: &[u8], piece: usize, u16_cap: Option<usize>, u15_cap: Option<usize>, out_cap: Option<usize>) -> (Vec<u16>, Vec<u8>) {
    let mut bytes_in: PipeBuf<u8> = PipeBuf::new();
    let mut units: PipeBuf<u16> = new_pipe(u16_cap);
    let mut words: PipeBuf<u16> = new_pipe(u15_cap);
    let mut bytes_out: PipeBuf<u8> = new_pipe(out_cap);
    let mut encoded = Vec::new();
    let mut decoded = Vec::new();
    let mut fed = 0;
    loop {
        if fed < input.len() {
            let n = piece.min(input.len() - fed);
            bytes_in.wr().append(&input[fed..fed + n]);
            fed += n;
            if fed == input.len() {
                bytes_in.wr().close();
            }
        } else if fed == 0 {
            bytes_in.wr().close();
            fed = 1;
        }
        let mut activity = true;
        while activity {
            activity = encode_bytes_to_utf32768(t, &mut bytes_in.rd(), &mut units.wr());
            let before = units.rd().len();
            let seen: Vec<u16> = units.rd().data().to_vec();
            activity |= decode_utf32768_to_u15(t, &mut units.rd(), &mut words.wr()).unwrap();
            let taken = before - units.rd().len();
            encoded.extend_from_slice(&seen[..taken]);
            activity |= decode_u15_to_bytes(&mut words.rd(), &mut bytes_out.wr()).unwrap();
            let n = bytes_out.rd().len();
            decoded.extend_from_slice(bytes_out.rd().data());
            bytes_out.rd().consume(n);
            activity |= n > 0;
        }
        if bytes_out.rd().has_pending_eof() || bytes_out.rd().is_eof() {
            break;
        }
        assert!(fed < input.len() || input.is_empty(), "pipeline stalled");
    }
    (encoded, decoded)
}

#[test]
fn streaming_matches_one_shot() {
    let t = Tables::new();
    for len in [0usize, 1, 2, 14, 15, 16, 29, 30, 31, 100, 1000] {
        let b = pseudo_random(len, len as u64);
        for (piece, u16_cap, u15_cap, out_cap) in [
            (1000, None, None, None),
            (1, Some(8), Some(8), Some(15)),
            (7, Some(9), Some(8), Some(16)),
            (15, Some(1024), Some(1024), None),
            (33, Some(8), Some(24), Some(15)),
        ] {
            let (encoded, decoded) = run(&t, &b, piece, u16_cap, u15_cap, out_cap);
            assert_eq!(encoded, one_shot(&t, &b), "len {} piece {}", len, piece);
            assert_eq!(decoded, b);
        }
    }
}

#[test]
fn backpressure_at_minimal_capacities() {
    let t = Tables::new();
    let b = pseudo_random(5000, 1);
    let (encoded, decoded) = run(&t, &b, 5000, Some(8), Some(8), Some(15));
    assert_eq!(encoded.len(), (8 * 5000 + 14) / 15);
    assert_eq!(decoded, b);
}

#[test]
fn encode_stage_waits_for_room() {
    let t = Tables::new();
    let mut bytes_in: PipeBuf<u8> = PipeBuf::new();
    let mut units: PipeBuf<u16> = PipeBuf::with_fixed_capacity(8);
    bytes_in.wr().append(&[0u8; 30]);
    assert!(encode_bytes_to_utf32768(&t, &mut bytes_in.rd(), &mut units.wr()));
    assert_eq!(units.rd().len(), 8);
    assert_eq!(bytes_in.rd().len(), 15);
    assert!(!encode_bytes_to_utf32768(&t, &mut bytes_in.rd(), &mut units.wr()));
}

#[test]
fn stages_pass_on_push_and_abort() {
    let t = Tables::new();
    let mut bytes_in: PipeBuf<u8> = PipeBuf::new();
    let mut units: PipeBuf<u16> = PipeBuf::new();
    bytes_in.wr().append(&[1, 2, 3]);
    bytes_in.wr().push();
    assert!(encode_bytes_to_utf32768(&t, &mut bytes_in.rd(), &mut units.wr()));
    assert!(units.is_push());
    bytes_in.wr().abort();
    assert!(encode_bytes_to_utf32768(&t, &mut bytes_in.rd(), &mut units.wr()));
    assert!(units.rd().is_aborted());
    assert!(units.rd().is_empty());
}

#[test]
fn translate_stage_reports_bad_unit() {
    let t = Tables::new();
    let mut units: PipeBuf<u16> = PipeBuf::new();
    let mut words: PipeBuf<u16> = PipeBuf::new();
    units.wr().append(&[t.long_encode[3], 7]);
    assert_eq!(decode_utf32768_to_u15(&t, &mut units.rd(), &mut words.wr()), Err(DecoderError::InvalidCodePoint(7)));
    assert!(words.rd().is_aborted());
}

#[test]
fn bytes_stage_reports_misplaced_short_word() {
    let mut words: PipeBuf<u16> = PipeBuf::new();
    let mut out: PipeBuf<u8> = PipeBuf::new();
    words.wr().append(&[1, 2, 0x8003, 4, 5, 6, 7, 8, 9]);
    assert_eq!(decode_u15_to_bytes(&mut words.rd(), &mut out.wr()), Err(DecoderError::UnexpectedEndOfStreamMarker));
    assert!(out.rd().is_aborted());
}

#[test]
fn bytes_stage_reports_bad_padding() {
    let mut words: PipeBuf<u16> = PipeBuf::new();
    let mut out: PipeBuf<u8> = PipeBuf::new();
    words.wr().append(&[0x0000]);
    words.wr().close();
    assert_eq!(decode_u15_to_bytes(&mut words.rd(), &mut out.wr()), Err(DecoderError::InvalidPadding(0x00)));
}

#[test]
fn utf8_stage_matches_utf16_text() {
    let t = Tables::new();
    for len in [0usize, 1, 2, 5, 15, 16, 44, 300] {
        let b = pseudo_random(len, 50 + len as u64);
        let mut bytes_in: PipeBuf<u8> = PipeBuf::new();
        let mut text: PipeBuf<u8> = PipeBuf::with_fixed_capacity(30);
        bytes_in.wr().append(&b);
        bytes_in.wr().close();
        let mut out = Vec::new();
        while encode_bytes_to_base32768_utf8(&t, &mut bytes_in.rd(), &mut text.wr()) {
            let n = text.rd().len();
            out.extend_from_slice(text.rd().data());
            text.rd().consume(n);
        }
        let n = text.rd().len();
        out.extend_from_slice(text.rd().data());
        text.rd().consume(n);
        assert!(text.rd().has_pending_eof());
        let expected = String::from_utf16(&one_shot(&t, &b)).unwrap().into_bytes();
        assert_eq!(out, expected, "len {}", len);
    }
}
