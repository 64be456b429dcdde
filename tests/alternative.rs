use base32768::alternative::{decode, encode};

#[test]
fn alternative_two_bytes() {
    let w = encode(&[0xFF, 0xFF]);
    assert_eq!(&w[..], &[0x7FFF, 0x8001]);
    assert_eq!(&decode(&w)[..], &[0xFF, 0xFF]);
}

#[test]
fn alternative_round_trip() {
    for len in 0..64usize {
        let b: Vec<u8> = (0..len).map(|i| (i * 37 + 11) as u8).collect();
        let w = encode(&b);
        assert_eq!(w.len(), (8 * len + 14) / 15);
        assert!(w[..w.len().saturating_sub(1)].iter().all(|&x| x < 0x8000));
        assert_eq!(&decode(&w)[..], &b[..]);
    }
}

#[test]
fn alternative_full_block() {
    let b = [0x01u8; 15];
    let w = encode(&b);
    assert_eq!(w.len(), 8);
    assert_eq!(w[0], 0x0101);
    assert_eq!(&decode(&w)[..], &b[..]);
}
