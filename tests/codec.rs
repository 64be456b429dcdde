use base32768::alphabet::{Tables, DECODE_LEN, INVALID, LONG_COUNT, SHORT_COUNT};
use base32768::optimized::{Buffer, ByRef, DecoderError, ReadDecoder, ReadError, WriteEncoder};

fn encode_all(t: &Tables, b: &[u8]) -> Vec<u16> {
    let mut w = WriteEncoder::new(t, Vec::new());
    w.write_all(b);
    w.finish()
}

fn decode_all(t: &Tables, units: &[u16]) -> Result<Vec<u8>, DecoderError> {
    let mut r = ReadDecoder::<_, 60>::new(t, units.iter().copied());
    let mut out = Vec::new();
    loop {
        let n = {
            let b = r.fill_buf()?;
            if b.is_empty() {
                break;
            }
            out.extend_from_slice(b);
            b.len()
        };
        r.consume(n);
    }
    Ok(out)
}

fn pseudo_random(n: usize, seed: u64) -> Vec<u8> {
    let mut x = seed;
    (0..n)
        .map(|_| {
            x = x.wrapping_mul(6364136223846793005).wrapping_add(1442695040888963407);
            (x >> 33) as u8
        })
        .collect()
}

fn word_of(t: &Tables, u: u16) -> u16 {
    *t.decode.get(u as usize).unwrap_or(&INVALID)
}

#[test]
fn table_construction() {
    let t = Tables::new();
    assert_eq!(t.long_encode.len(), LONG_COUNT);
    assert_eq!(t.short_encode.len(), SHORT_COUNT);
    assert_eq!(t.decode.len(), DECODE_LEN);
    for i in 0..LONG_COUNT {
        assert_eq!(t.decode[t.long_encode[i] as usize], i as u16);
    }
    for j in 0..SHORT_COUNT {
        assert_eq!(t.decode[t.short_encode[j] as usize], j as u16 | 0x8000);
    }
    let unused = t.decode.iter().filter(|&&d| d == 0xFFFF).count();
    assert_eq!(unused, 42183 - 32768 - 128);
    assert_eq!(t.long_encode[0], 19904);
    assert_eq!(t.long_encode[32767], 2340);
    assert_eq!(t.short_encode[0], 9143);
    assert_eq!(t.short_encode[127], 7566);
}

#[test]
fn round_trip_every_short_length() {
    let t = Tables::new();
    for len in 0..32 {
        for seed in 0..4u64 {
            let b = pseudo_random(len, seed);
            let e = encode_all(&t, &b);
            assert_eq!(decode_all(&t, &e).unwrap(), b);
        }
        let ones = vec![0xFFu8; len];
        assert_eq!(decode_all(&t, &encode_all(&t, &ones)).unwrap(), ones);
    }
}

#[test]
fn round_trip_long_random() {
    let t = Tables::new();
    let b = pseudo_random(300_007, 99);
    let e = encode_all(&t, &b);
    assert_eq!(decode_all(&t, &e).unwrap(), b);
}

#[test]
fn alphabet_closure_short_tag_and_length() {
    let t = Tables::new();
    for len in 0..80 {
        let b = pseudo_random(len, 7 + len as u64);
        let e = encode_all(&t, &b);
        assert_eq!(e.len(), (8 * len + 14) / 15);
        for (i, &u) in e.iter().enumerate() {
            let w = word_of(&t, u);
            assert_ne!(w, 0xFFFF);
            if i + 1 < e.len() {
                assert_eq!(w & 0x8000, 0);
            }
        }
        let rem = (8 * len) % 15;
        let last_short = e.last().map(|&u| word_of(&t, u) & 0x8000 != 0).unwrap_or(false);
        assert_eq!(last_short, (1..=7).contains(&rem));
    }
}

#[test]
fn scenario_empty() {
    let t = Tables::new();
    let e = encode_all(&t, &[]);
    assert!(e.is_empty());
    assert_eq!(decode_all(&t, &e).unwrap(), Vec::<u8>::new());
}

#[test]
fn scenario_hello() {
    let t = Tables::new();
    let hello = [0x48u8, 0x65, 0x6C, 0x6C, 0x6F];
    let e = encode_all(&t, &hello);
    assert_eq!(e, vec![0x474C, 0x3ADC, 0x1189]);
    assert_eq!(decode_all(&t, &e).unwrap(), hello.to_vec());
}

#[test]
fn scenario_single_zero_byte() {
    let t = Tables::new();
    let e = encode_all(&t, &[0x00]);
    assert_eq!(e.len(), 1);
    // 8 bits leave a residue of 8, more than 7: a primary unit padded with ones.
    assert_eq!(word_of(&t, e[0]), 0x7F00);
    assert_eq!(decode_all(&t, &e).unwrap(), vec![0x00]);
}

#[test]
fn scenario_full_zero_block() {
    let t = Tables::new();
    let e = encode_all(&t, &[0u8; 15]);
    assert_eq!(e, vec![t.long_encode[0]; 8]);
    assert_eq!(decode_all(&t, &e).unwrap(), vec![0u8; 15]);
}

#[test]
fn scenario_sixteen_ff() {
    let t = Tables::new();
    let e = encode_all(&t, &[0xFFu8; 16]);
    assert_eq!(e.len(), 9);
    assert_eq!(e[8], t.long_encode[0x7FFF]);
    assert_eq!(decode_all(&t, &e).unwrap(), vec![0xFFu8; 16]);
}

#[test]
fn scenario_two_bytes_short_tail() {
    let t = Tables::new();
    let e = encode_all(&t, &[0xAB, 0xCD]);
    assert_eq!(e.len(), 2);
    assert_eq!(word_of(&t, e[1]), 0x8000 | 0x7F);
    assert_eq!(decode_all(&t, &e).unwrap(), vec![0xAB, 0xCD]);
}

#[test]
fn scenario_corrupt_hello() {
    let t = Tables::new();
    let mut e = encode_all(&t, &[0x48u8, 0x65, 0x6C, 0x6C, 0x6F]);
    e[1] = 0x0000;
    assert_eq!(decode_all(&t, &e), Err(DecoderError::InvalidCodePoint(0x0000)));
}

#[test]
fn invalid_code_point_anywhere() {
    let t = Tables::new();
    let b = pseudo_random(47, 3);
    let e = encode_all(&t, &b);
    for p in 0..e.len() {
        let mut c = e.clone();
        c[p] = 0xFFFE;
        assert_eq!(decode_all(&t, &c), Err(DecoderError::InvalidCodePoint(0xFFFE)));
    }
}

#[test]
fn short_unit_before_the_end() {
    let t = Tables::new();
    let b = pseudo_random(47, 4);
    let e = encode_all(&t, &b);
    for p in 0..e.len() {
        let mut c = e.clone();
        c.insert(p, t.short_encode[5]);
        assert_eq!(decode_all(&t, &c), Err(DecoderError::UnexpectedEndOfStreamMarker));
    }
}

#[test]
fn flipped_padding_bit() {
    let t = Tables::new();
    // One byte: 8 data bits, then 7 padding bits in the single primary word.
    let e = encode_all(&t, &[0x5A]);
    let w = word_of(&t, e[0]);
    for bit in 8..15 {
        let flipped = t.long_encode[(w ^ (1 << bit)) as usize];
        let r = decode_all(&t, &[flipped]);
        assert!(matches!(r, Err(DecoderError::InvalidPadding(_))), "bit {}", bit);
    }
    // Two bytes: one data bit and 6 padding bits in a short word.
    let e = encode_all(&t, &[0x12, 0x34]);
    let w = word_of(&t, e[1]) & 0x7F;
    for bit in 1..7 {
        let mut c = e.clone();
        c[1] = t.short_encode[(w ^ (1 << bit)) as usize];
        assert!(matches!(decode_all(&t, &c), Err(DecoderError::InvalidPadding(_))));
    }
}

#[test]
fn padding_error_carries_the_padding_byte() {
    let t = Tables::new();
    // A single primary word 0x0000 stands for one byte 0x00 with its 7
    // padding bits all clear.
    let r = decode_all(&t, &[t.long_encode[0]]);
    assert_eq!(r, Err(DecoderError::InvalidPadding(0x00)));
}

#[test]
fn write_encoder_write_and_flush() {
    let t = Tables::new();
    let b = pseudo_random(40, 11);
    let mut w = WriteEncoder::new(&t, Vec::new());
    let mut pos = 0;
    while pos < b.len() {
        let n = w.write(&b[pos..]);
        assert!(n > 0 && n <= 15);
        pos += n;
    }
    w.flush();
    let out = w.finish();
    assert_eq!(out, encode_all(&t, &b));
}

#[test]
fn write_encoder_by_ref() {
    let t = Tables::new();
    let mut sink: Vec<u16> = vec![7];
    {
        let mut w = WriteEncoder::new_by_ref(&t, &mut sink);
        w.write_all(&[1, 2, 3]);
        w.write_all(&pseudo_random(31, 2));
        let _: ByRef<'_, Vec<u16>> = w.finish();
    }
    let mut all = vec![1u8, 2, 3];
    all.extend(pseudo_random(31, 2));
    let mut expected = vec![7u16];
    expected.extend(encode_all(&t, &all));
    assert_eq!(sink, expected);
}

#[test]
fn read_decoder_read_and_read_exact() {
    let t = Tables::new();
    let b = pseudo_random(100, 5);
    let e = encode_all(&t, &b);
    let mut r = ReadDecoder::<_, 30>::new(&t, e.iter().copied());
    let mut first = [0u8; 7];
    let n = r.read(&mut first).unwrap();
    assert_eq!(n, 7);
    assert_eq!(&first[..], &b[..7]);
    let mut rest = vec![0u8; 93];
    r.read_exact(&mut rest).unwrap();
    assert_eq!(&rest[..], &b[7..]);
    let mut more = [0u8; 1];
    assert_eq!(r.read(&mut more).unwrap(), 0);
    assert_eq!(r.read_exact(&mut more), Err(ReadError::UnexpectedEof));
}

#[test]
fn read_decoder_error_is_final() {
    let t = Tables::new();
    let mut e = encode_all(&t, &pseudo_random(200, 6));
    e[100] = 42;
    let mut r = ReadDecoder::<_, 60>::new(&t, e.iter().copied());
    let mut sink = vec![0u8; 300];
    assert_eq!(r.read_exact(&mut sink), Err(ReadError::Decode(DecoderError::InvalidCodePoint(42))));
    assert!(r.fill_buf().unwrap().is_empty());
}

#[test]
fn buffer_cursors() {
    let mut b: Buffer<15> = Buffer::new();
    assert!(b.is_all_consumed());
    {
        let storage = b.clear_and_get_mut();
        storage.extend_from_slice(&[1, 2, 3, 4, 5]);
    }
    b.set_filled(5);
    assert_eq!(b.as_slice(), &[1, 2, 3, 4, 5]);
    b.consume(2);
    assert_eq!(b.as_slice(), &[3, 4, 5]);
    let mut seen = Vec::new();
    assert!(b.consume_with(2, |s| seen.extend_from_slice(s)));
    assert_eq!(seen, vec![3, 4]);
    assert!(!b.consume_with(2, |_| panic!("not enough bytes")));
    b.consume(10);
    assert!(b.is_all_consumed());
}

#[test]
fn padding_error_names_the_padding_byte_not_the_first() {
    let t = Tables::new();
    // Word 0x0012: one byte 0x12, then 7 padding bits that are all clear.
    let r = decode_all(&t, &[t.long_encode[0x0012]]);
    assert_eq!(r, Err(DecoderError::InvalidPadding(0x00)));
}

#[test]
fn fourteen_byte_tail_in_one_batch() {
    let t = Tables::new();
    // 14 bytes take 8 words, the last one short: a batch that ends on a
    // multiple of 8 words must still decode its last chunk as the tail.
    for len in [14usize, 29, 44] {
        let b = pseudo_random(len, 21);
        let e = encode_all(&t, &b);
        assert_eq!(e.len() % 8, 0);
        assert_eq!(decode_all(&t, &e).unwrap(), b);
    }
}

#[test]
fn write_takes_as_many_as_fit() {
    let t = Tables::new();
    let mut w = WriteEncoder::new(&t, Vec::new());
    assert_eq!(w.write(&[1u8; 5]), 5);
    assert_eq!(w.write(&[2u8; 20]), 10);
    // The staged block is full: the next write sends it on and stages more.
    assert_eq!(w.write(&[3u8; 20]), 15);
    w.flush();
    w.write_all(&[4u8; 3]);
    w.flush();
    let out = w.finish();
    let mut all = vec![1u8; 5];
    all.extend([2u8; 10]);
    all.extend([3u8; 15]);
    all.extend([4u8; 3]);
    assert_eq!(out, encode_all(&t, &all));
}

#[test]
fn flush_keeps_a_partial_block_staged() {
    let t = Tables::new();
    let mut sink: Vec<u16> = Vec::new();
    {
        let mut w = WriteEncoder::new_by_ref(&t, &mut sink);
        w.write_all(&[9u8; 20]);
        w.flush();
        let _ = w;
    }
    // Only the one full block reached the sink; the 5 staged bytes did not.
    assert_eq!(sink, encode_all(&t, &[9u8; 15]));
}
