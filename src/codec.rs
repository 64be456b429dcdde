//! The block codec: 15 bytes travel as 8 words of 15 bits, and a trailing
//! partial block as fewer words, the last one padded with ones.
use vstd::prelude::*;
use crate::alphabet::{
    decode_value, long_code, short_code, DECODE_LEN, INVALID, Tables,
};

verus! {

/// Bytes in a full block.
pub const BLOCK_BYTES: usize = 15;

/// Words in a full block.
pub const BLOCK_WORDS: usize = 8;

/// Byte `k` of `s`, or zero past its end.
pub open spec fn byte_at(s: Seq<u8>, k: int) -> u128 {
    if 0 <= k < s.len() {
        s[k] as u128
    } else {
        0
    }
}

/// The little-endian value of at most 15 bytes.
pub open spec fn le_value(s: Seq<u8>) -> u128 {
    byte_at(s, 0) | (byte_at(s, 1) << 8u32) | (byte_at(s, 2) << 16u32) | (byte_at(s, 3) << 24u32) | (byte_at(s, 4) << 32u32) | (byte_at(s, 5) << 40u32) | (byte_at(s, 6) << 48u32) | (byte_at(s, 7) << 56u32) | (byte_at(s, 8) << 64u32) | (byte_at(s, 9) << 72u32) | (byte_at(s, 10) << 80u32) | (byte_at(s, 11) << 88u32) | (byte_at(s, 12) << 96u32) | (byte_at(s, 13) << 104u32) | (byte_at(s, 14) << 112u32)
}

/// The value of a chunk of `n` bytes with every bit from `8 * n` up set.
pub open spec fn padded(s: Seq<u8>) -> u128 {
    le_value(s) | (!0u128 << (8 * s.len()) as u32)
}

/// Number of words that `n` bytes take: one for each 15 bits, rounded up.
pub open spec fn chunk_len(n: nat) -> nat {
    (8 * n + 14) / 15
}

/// Whether the last word of a chunk of `n` bytes holds only 1 to 7 bits, and
/// so travels as a short word.
pub open spec fn has_short_tail(n: nat) -> bool {
    1 <= (8 * n) % 15 <= 7
}

/// The 15-bit word at position `i` of `pv`.
pub open spec fn word_at(pv: u128, i: int) -> u16 {
    ((pv >> (15 * i) as u32) & 0x7FFF) as u16
}

/// The short word at position `i` of `pv`: its low 7 bits, tagged with bit 15.
pub open spec fn short_word_at(pv: u128, i: int) -> u16 {
    (0x8000u128 | ((pv >> (15 * i) as u32) & 0x7F)) as u16
}

/// The words of a chunk of at most 15 bytes.
pub open spec fn chunk_words(c: Seq<u8>) -> Seq<u16> {
    Seq::new(
        chunk_len(c.len()),
        |i: int|
            if has_short_tail(c.len()) && i == chunk_len(c.len()) - 1 {
                short_word_at(padded(c), i)
            } else {
                word_at(padded(c), i)
            },
    )
}

/// The word stream of a byte sequence: 8 words for each full block, then the
/// words of the trailing partial block.
pub open spec fn u15_words(b: Seq<u8>) -> Seq<u16>
    decreases b.len(),
{
    if b.len() <= BLOCK_BYTES {
        chunk_words(b)
    } else {
        chunk_words(b.take(BLOCK_BYTES as int)) + u15_words(b.skip(BLOCK_BYTES as int))
    }
}

/// Whether a word carries the short tag.
pub open spec fn is_short(w: u16) -> bool {
    w >= 0x8000
}

/// The code unit that carries a word.
pub open spec fn unit_of(w: u16) -> u16 {
    if is_short(w) {
        short_code(w - 0x8000) as u16
    } else {
        long_code(w as int) as u16
    }
}

/// The code units of a chunk of at most 15 bytes.
pub open spec fn chunk_units(c: Seq<u8>) -> Seq<u16> {
    chunk_words(c).map_values(|w: u16| unit_of(w))
}

/// The encoding of a byte sequence.
pub open spec fn encode_units(b: Seq<u8>) -> Seq<u16> {
    u15_words(b).map_values(|w: u16| unit_of(w))
}

/// Facts on extracting one word of a value.
pub proof fn lemma_word_bits(x: u128, s: u32)
    requires
        s <= 105,
    ensures
        ((x >> s) & 0x7FFF) < 0x8000,
        (((x >> s) & 0x7FFF) as u16) as u128 == (x >> s) & 0x7FFF,
        ((0x8000u128 | ((x >> s) & 0x7F)) as u16) >= 0x8000,
        ((0x8000u128 | ((x >> s) & 0x7F)) as u16) - 0x8000 == (x >> s) & 0x7F,
        (((0x8000u128 | ((x >> s) & 0x7F)) as u16) & 0x7F) as u128 == (x >> s) & 0x7F,
        ((x >> s) & 0x7F) < 0x80,
{
    assert(((x >> s) & 0x7F) < 0x80) by (bit_vector);
    assert(((x >> s) & 0x7FFF) < 0x8000) by (bit_vector);
    assert((((x >> s) & 0x7FFF) as u16) as u128 == (x >> s) & 0x7FFF) by (bit_vector);
    assert(((0x8000u128 | ((x >> s) & 0x7F)) as u16) >= 0x8000) by (bit_vector);
    assert(((0x8000u128 | ((x >> s) & 0x7F)) as u16) - 0x8000 == (x >> s) & 0x7F) by (bit_vector);
    assert((((0x8000u128 | ((x >> s) & 0x7F)) as u16) & 0x7F) as u128 == (x >> s) & 0x7F) by (bit_vector);
}

/// Reading back the bytes of a little-endian value.
proof fn lemma_le_bytes_bv(b0: u128, b1: u128, b2: u128, b3: u128, b4: u128, b5: u128, b6: u128, b7: u128, b8: u128, b9: u128, b10: u128, b11: u128, b12: u128, b13: u128, b14: u128, v: u128)
    requires
            b0 < 256,
            b1 < 256,
            b2 < 256,
            b3 < 256,
            b4 < 256,
            b5 < 256,
            b6 < 256,
            b7 < 256,
            b8 < 256,
            b9 < 256,
            b10 < 256,
            b11 < 256,
            b12 < 256,
            b13 < 256,
            b14 < 256,
        v == b0 | (b1 << 8u32) | (b2 << 16u32) | (b3 << 24u32) | (b4 << 32u32) | (b5 << 40u32) | (b6 << 48u32) | (b7 << 56u32) | (b8 << 64u32) | (b9 << 72u32) | (b10 << 80u32) | (b11 << 88u32) | (b12 << 96u32) | (b13 << 104u32) | (b14 << 112u32),
    ensures
            (v >> 0u32) & 0xFF == b0,
            (v >> 8u32) & 0xFF == b1,
            (v >> 16u32) & 0xFF == b2,
            (v >> 24u32) & 0xFF == b3,
            (v >> 32u32) & 0xFF == b4,
            (v >> 40u32) & 0xFF == b5,
            (v >> 48u32) & 0xFF == b6,
            (v >> 56u32) & 0xFF == b7,
            (v >> 64u32) & 0xFF == b8,
            (v >> 72u32) & 0xFF == b9,
            (v >> 80u32) & 0xFF == b10,
            (v >> 88u32) & 0xFF == b11,
            (v >> 96u32) & 0xFF == b12,
            (v >> 104u32) & 0xFF == b13,
            (v >> 112u32) & 0xFF == b14,
{
    assert(
        (v >> 0u32) & 0xFF == b0 && (v >> 8u32) & 0xFF == b1 && (v >> 16u32) & 0xFF == b2 && (v >> 24u32) & 0xFF == b3 && (v >> 32u32) & 0xFF == b4 && (v >> 40u32) & 0xFF == b5 && (v >> 48u32) & 0xFF == b6 && (v >> 56u32) & 0xFF == b7 && (v >> 64u32) & 0xFF == b8 && (v >> 72u32) & 0xFF == b9 && (v >> 80u32) & 0xFF == b10 && (v >> 88u32) & 0xFF == b11 && (v >> 96u32) & 0xFF == b12 && (v >> 104u32) & 0xFF == b13 && (v >> 112u32) & 0xFF == b14
    ) by (bit_vector)
        requires
            b0 < 256,
            b1 < 256,
            b2 < 256,
            b3 < 256,
            b4 < 256,
            b5 < 256,
            b6 < 256,
            b7 < 256,
            b8 < 256,
            b9 < 256,
            b10 < 256,
            b11 < 256,
            b12 < 256,
            b13 < 256,
            b14 < 256,
            v == b0 | (b1 << 8u32) | (b2 << 16u32) | (b3 << 24u32) | (b4 << 32u32) | (b5 << 40u32) | (b6 << 48u32) | (b7 << 56u32) | (b8 << 64u32) | (b9 << 72u32) | (b10 << 80u32) | (b11 << 88u32) | (b12 << 96u32) | (b13 << 104u32) | (b14 << 112u32),
    ;
}

/// Byte `k` of a little-endian value is byte `k` of the sequence.
pub proof fn lemma_le_bytes(s: Seq<u8>)
    ensures
        forall|k: int| 0 <= k < 15 ==> (le_value(s) >> (8 * k) as u32) & 0xFF == byte_at(s, k),
{
    lemma_le_bytes_bv(byte_at(s, 0), byte_at(s, 1), byte_at(s, 2), byte_at(s, 3), byte_at(s, 4), byte_at(s, 5), byte_at(s, 6), byte_at(s, 7), byte_at(s, 8), byte_at(s, 9), byte_at(s, 10), byte_at(s, 11), byte_at(s, 12), byte_at(s, 13), byte_at(s, 14), le_value(s));
}

/// Byte `k` of `src`, or zero past its end.
fn byte_or_zero(src: &[u8], k: usize) -> (r: u128)
    ensures
        r == byte_at(src@, k as int),
{
    if k < src.len() {
        src[k] as u128
    } else {
        0
    }
}

/// Reads at most 15 bytes as a little-endian value.
pub fn load_le(src: &[u8]) -> (v: u128)
    requires
        src@.len() <= BLOCK_BYTES,
    ensures
        v == le_value(src@),
{
    byte_or_zero(src, 0) | (byte_or_zero(src, 1) << 8u32) | (byte_or_zero(src, 2) << 16u32) | (byte_or_zero(src, 3) << 24u32) | (byte_or_zero(src, 4) << 32u32) | (byte_or_zero(src, 5) << 40u32) | (byte_or_zero(src, 6) << 48u32) | (byte_or_zero(src, 7) << 56u32) | (byte_or_zero(src, 8) << 64u32) | (byte_or_zero(src, 9) << 72u32) | (byte_or_zero(src, 10) << 80u32) | (byte_or_zero(src, 11) << 88u32) | (byte_or_zero(src, 12) << 96u32) | (byte_or_zero(src, 13) << 104u32) | (byte_or_zero(src, 14) << 112u32)
}

/// Why decoding failed.
#[derive(Clone, Debug, PartialEq, Eq, Structural)]
pub enum DecoderError {
    /// A code unit outside both alphabets.
    InvalidCodePoint(u16),
    /// A short word before the end of the stream, or data after it.
    UnexpectedEndOfStreamMarker,
    /// The padding byte of the last word, whose padding bits are not all ones.
    InvalidPadding(u8),
}

/// The value bits of a word: 7 for a short word, 15 otherwise.
pub open spec fn payload(w: u16) -> u128 {
    if is_short(w) {
        (w & 0x7F) as u128
    } else {
        w as u128
    }
}

/// The words' value bits laid side by side, 15 bits apart, lowest first.
pub open spec fn combine(ws: Seq<u16>) -> u128
    decreases ws.len(),
{
    if ws.len() == 0 {
        0
    } else {
        combine(ws.drop_last()) | (payload(ws.last()) << (15 * (ws.len() - 1)) as u32)
    }
}

/// How many bits the words of a final chunk carry.
pub open spec fn used_bits(ws: Seq<u16>) -> nat {
    if ws.len() == 0 {
        0
    } else if is_short(ws.last()) {
        (15 * (ws.len() - 1) + 7) as nat
    } else {
        15 * ws.len()
    }
}

/// Whether a short word stands before the last position.
pub open spec fn short_before_last(ws: Seq<u16>) -> bool {
    exists|i: int| 0 <= i < ws.len() - 1 && is_short(#[trigger] ws[i])
}

/// Whether any of the words is short.
pub open spec fn any_short(ws: Seq<u16>) -> bool {
    exists|i: int| 0 <= i < ws.len() && is_short(#[trigger] ws[i])
}

/// The low `n` bytes of `x`, lowest first.
pub open spec fn bytes_of(x: u128, n: nat) -> Seq<u8> {
    Seq::new(n, |k: int| ((x >> (8 * k) as u32) & 0xFF) as u8)
}

/// Number of consecutive one bits of `y` from its lowest bit, at most `k`.
pub open spec fn ones_upto(y: nat, k: nat) -> nat
    decreases k,
{
    if k > 0 && y % 2 == 1 {
        1 + ones_upto(y / 2, (k - 1) as nat)
    } else {
        0
    }
}

/// Number of trailing one bits of a byte.
pub open spec fn trailing_ones(x: u8) -> nat {
    ones_upto(x as nat, 8)
}

/// The bytes of a final chunk of at most 8 words, or why they are refused.
pub open spec fn final_chunk_bytes(ws: Seq<u16>) -> Result<Seq<u8>, DecoderError> {
    if ws.len() == 0 {
        Ok(seq![])
    } else if short_before_last(ws) {
        Err(DecoderError::UnexpectedEndOfStreamMarker)
    } else {
        let c = combine(ws);
        let used = used_bits(ws);
        let pad_byte = ((c >> (8 * (used / 8)) as u32) & 0xFF) as u8;
        if trailing_ones(pad_byte) != used % 8 {
            Err(DecoderError::InvalidPadding(pad_byte))
        } else {
            Ok(bytes_of(c, used / 8))
        }
    }
}

/// The 15 bytes of a full block of 8 primary words.
pub open spec fn full_chunk_bytes(ws: Seq<u16>) -> Seq<u8> {
    bytes_of(combine(ws), BLOCK_BYTES as nat)
}

/// The bytes of a word stream: full blocks while more than 8 words remain,
/// then the final chunk.
pub open spec fn words_to_bytes(ws: Seq<u16>) -> Result<Seq<u8>, DecoderError>
    decreases ws.len(),
{
    if ws.len() <= BLOCK_WORDS {
        final_chunk_bytes(ws)
    } else if any_short(ws.take(BLOCK_WORDS as int)) {
        Err(DecoderError::UnexpectedEndOfStreamMarker)
    } else {
        match words_to_bytes(ws.skip(BLOCK_WORDS as int)) {
            Ok(rest) => Ok(full_chunk_bytes(ws.take(BLOCK_WORDS as int)) + rest),
            Err(e) => Err(e),
        }
    }
}

/// Counts the trailing one bits of a byte.
pub fn trailing_ones_of(x: u8) -> (r: u32)
    ensures
        r == trailing_ones(x),
{
    let mut y: u8 = x;
    let mut n: u32 = 0;
    while n < 8 && y % 2 == 1
        invariant
            n <= 8,
            n + ones_upto(y as nat, (8 - n) as nat) == trailing_ones(x),
        decreases 8 - n,
    {
        y = y / 2;
        n = n + 1;
    }
    n
}

/// Appends the code units of a full block of 15 bytes.
pub fn encode_full_block(tables: &Tables, src: &[u8], dst: &mut Vec<u16>)
    requires
        tables.wf(),
        src@.len() == BLOCK_BYTES,
    ensures
        final(dst)@ == old(dst)@ + chunk_units(src@),
{
    encode_partial_block(tables, src, dst);
}

/// Appends the code units of a chunk of at most 15 bytes: a primary unit for
/// each full 15 bits, then the remaining bits padded with ones, as a short
/// unit when at most 7 bits remain and as a primary one otherwise.
pub fn encode_partial_block(tables: &Tables, src: &[u8], dst: &mut Vec<u16>)
    requires
        tables.wf(),
        src@.len() <= BLOCK_BYTES,
    ensures
        final(dst)@ == old(dst)@ + chunk_units(src@),
{
    let n = src.len();
    let v = load_le(src);
    let pv = v | (!0u128 << (8 * n) as u32);
    let count = (8 * n + 14) / 15;
    let rem = (8 * n) % 15;
    let short_tail = 1 <= rem && rem <= 7;
    let ghost units = chunk_units(src@);
    let mut i: usize = 0;
    while i < count
        invariant
            tables.wf(),
            n == src@.len(),
            n <= BLOCK_BYTES,
            count == chunk_len(n as nat),
            short_tail == has_short_tail(n as nat),
            pv == padded(src@),
            units == chunk_units(src@),
            i <= count,
            dst@ == old(dst)@ + units.take(i as int),
        decreases count - i,
    {
        let shift = (15 * i) as u32;
        proof {
            lemma_word_bits(pv, shift);
        }
        let unit = if short_tail && i + 1 == count {
            tables.short_encode[((pv >> shift) & 0x7F) as usize]
        } else {
            tables.long_encode[((pv >> shift) & 0x7FFF) as usize]
        };
        assert(unit == units[i as int]);
        dst.push(unit);
        assert(units.take(i + 1) =~= units.take(i as int).push(unit));
        i = i + 1;
    }
    assert(units.take(count as int) =~= units);
}

/// The word a code unit decodes to, or the sentinel.
pub open spec fn word_of(u: u16) -> u16 {
    if u < DECODE_LEN {
        decode_value(u as int) as u16
    } else {
        INVALID
    }
}

/// Whether a code unit belongs to either alphabet.
pub open spec fn is_valid_unit(u: u16) -> bool {
    word_of(u) != INVALID
}

/// Position of the first code unit outside the alphabets, if any.
pub open spec fn first_invalid(us: Seq<u16>) -> Option<int>
    decreases us.len(),
{
    if us.len() == 0 {
        None
    } else if !is_valid_unit(us[0]) {
        Some(0)
    } else {
        match first_invalid(us.drop_first()) {
            Some(i) => Some(i + 1),
            None => None,
        }
    }
}

/// The words of a stream of code units, or the first unit outside the
/// alphabets.
pub open spec fn units_to_words(us: Seq<u16>) -> Result<Seq<u16>, DecoderError> {
    match first_invalid(us) {
        Some(i) => Err(DecoderError::InvalidCodePoint(us[i])),
        None => Ok(us.map_values(|u: u16| word_of(u))),
    }
}

/// The decoding of a stream of code units.
pub open spec fn decode_units(us: Seq<u16>) -> Result<Seq<u8>, DecoderError> {
    match units_to_words(us) {
        Ok(ws) => words_to_bytes(ws),
        Err(e) => Err(e),
    }
}

/// Looks one code unit up in the reverse table.
pub fn decode_unit(tables: &Tables, u: u16) -> (r: u16)
    requires
        tables.wf(),
    ensures
        r == word_of(u),
{
    if (u as usize) < tables.decode.len() {
        tables.decode[u as usize]
    } else {
        INVALID
    }
}

/// Facts on the first code unit outside the alphabets.
pub proof fn lemma_first_invalid(us: Seq<u16>)
    ensures
        first_invalid(us) is None ==> forall|i: int| 0 <= i < us.len() ==> is_valid_unit(#[trigger] us[i]),
        first_invalid(us) matches Some(p) ==> 0 <= p < us.len() && !is_valid_unit(us[p]) && forall|i: int|
            0 <= i < p ==> is_valid_unit(#[trigger] us[i]),
    decreases us.len(),
{
    if us.len() > 0 {
        let t = us.drop_first();
        lemma_first_invalid(t);
        if is_valid_unit(us[0]) {
            match first_invalid(t) {
                Some(p) => {
                    assert forall|i: int| 0 <= i < p + 1 implies is_valid_unit(#[trigger] us[i]) by {
                        if i > 0 {
                            assert(us[i] == t[i - 1]);
                        }
                    }
                },
                None => {
                    assert forall|i: int| 0 <= i < us.len() implies is_valid_unit(#[trigger] us[i]) by {
                        if i > 0 {
                            assert(us[i] == t[i - 1]);
                        }
                    }
                },
            }
        }
    }
}

/// Decodes each code unit of `src` into `dst`, position by position, or
/// reports the first code unit outside the alphabets.
pub fn decode_utf32768_stream(tables: &Tables, src: &[u16], dst: &mut Vec<u16>) -> (r: Option<DecoderError>)
    requires
        tables.wf(),
    ensures
        match units_to_words(src@) {
            Ok(ws) => r is None && final(dst)@ == old(dst)@ + ws,
            Err(e) => r == Some(e) && final(dst)@ == old(dst)@ + src@.take(first_invalid(src@)->0).map_values(
                |u: u16| word_of(u),
            ),
        },
{
    let ghost start = dst@;
    let mut i: usize = 0;
    while i < src.len()
        invariant
            tables.wf(),
            i <= src@.len(),
            forall|j: int| 0 <= j < i ==> is_valid_unit(#[trigger] src@[j]),
            dst@ == start + src@.take(i as int).map_values(|u: u16| word_of(u)),
            start == old(dst)@,
        decreases src@.len() - i,
    {
        let w = decode_unit(tables, src[i]);
        if w == INVALID {
            proof {
                lemma_first_invalid(src@);
                assert(!is_valid_unit(src@[i as int]));
                assert(first_invalid(src@) is Some);
                let p = first_invalid(src@)->0;
                assert(p == i);
                assert(dst@ =~= start + src@.take(p).map_values(|u: u16| word_of(u)));
            }
            return Some(DecoderError::InvalidCodePoint(src[i]));
        }
        dst.push(w);
        assert(src@.take(i + 1).map_values(|u: u16| word_of(u)) =~= src@.take(i as int).map_values(|u: u16| word_of(u)).push(w));
        i = i + 1;
    }
    assert(src@.take(i as int) =~= src@);
    proof {
        lemma_first_invalid(src@);
    }
    None
}

/// Appends the 15 bytes of a full block of 8 words, or reports a short word
/// among them.
pub fn decode_full_block(src: &[u16], dst: &mut Vec<u8>) -> (r: Option<DecoderError>)
    requires
        src@.len() == BLOCK_WORDS,
    ensures
        any_short(src@) ==> r == Some(DecoderError::UnexpectedEndOfStreamMarker),
        !any_short(src@) ==> r is None && final(dst)@ == old(dst)@ + full_chunk_bytes(src@),
{
    let mut acc: u128 = 0;
    let mut idx: usize = 0;
    while idx < BLOCK_WORDS
        invariant
            src@.len() == BLOCK_WORDS,
            idx <= BLOCK_WORDS,
            forall|j: int| 0 <= j < idx ==> !is_short(#[trigger] src@[j]),
            acc == combine(src@.take(idx as int)),
        decreases BLOCK_WORDS - idx,
    {
        let w = src[idx];
        if w >= 0x8000 {
            return Some(DecoderError::UnexpectedEndOfStreamMarker);
        }
        assert(src@.take(idx + 1).drop_last() =~= src@.take(idx as int));
        acc = acc | ((w as u128) << (15 * idx) as u32);
        idx = idx + 1;
    }
    assert(src@.take(BLOCK_WORDS as int) =~= src@);
    push_bytes(acc, BLOCK_BYTES, dst);
    None
}

/// Appends the low `n` bytes of `x`, lowest first.
pub fn push_bytes(x: u128, n: usize, dst: &mut Vec<u8>)
    requires
        n <= 16,
    ensures
        final(dst)@ == old(dst)@ + bytes_of(x, n as nat),
{
    let mut k: usize = 0;
    while k < n
        invariant
            k <= n <= 16,
            dst@ == old(dst)@ + bytes_of(x, n as nat).take(k as int),
        decreases n - k,
    {
        dst.push(((x >> (8 * k) as u32) & 0xFF) as u8);
        assert(bytes_of(x, n as nat).take(k + 1) =~= bytes_of(x, n as nat).take(k as int).push(((x >> (8 * k) as u32) & 0xFF) as u8));
        k = k + 1;
    }
    assert(bytes_of(x, n as nat).take(n as int) =~= bytes_of(x, n as nat));
}

/// Appends the bytes of the final chunk of a stream, at most 8 words, and
/// returns how many; or reports a short word before its last position, or
/// padding bits that are not all ones.
pub fn decode_partial_final_chunk(src: &[u16], dst: &mut Vec<u8>) -> (r: Result<usize, DecoderError>)
    requires
        src@.len() <= BLOCK_WORDS,
    ensures
        match final_chunk_bytes(src@) {
            Ok(b) => r == Ok::<usize, DecoderError>(b.len() as usize) && final(dst)@ == old(dst)@ + b,
            Err(e) => r == Err::<usize, DecoderError>(e) && final(dst)@ == old(dst)@,
        },
{
    let len = src.len();
    let mut acc: u128 = 0;
    let mut used: usize = 0;
    let mut idx: usize = 0;
    while idx < len
        invariant
            len == src@.len() <= BLOCK_WORDS,
            idx <= len,
            forall|j: int| 0 <= j < idx && j < len - 1 ==> !is_short(#[trigger] src@[j]),
            acc == combine(src@.take(idx as int)),
            used == used_bits(src@.take(idx as int)),
        decreases len - idx,
    {
        let w = src[idx];
        assert(src@.take(idx + 1).drop_last() =~= src@.take(idx as int));
        if w >= 0x8000 {
            if idx + 1 != len {
                assert(short_before_last(src@));
                return Err(DecoderError::UnexpectedEndOfStreamMarker);
            }
            acc = acc | (((w & 0x7F) as u128) << (15 * idx) as u32);
            used = 15 * idx + 7;
        } else {
            acc = acc | ((w as u128) << (15 * idx) as u32);
            used = 15 * idx + 15;
        }
        idx = idx + 1;
    }
    assert(src@.take(len as int) =~= src@);
    if len == 0 {
        return Ok(0);
    }
    assert(!short_before_last(src@));
    let full_bytes = used / 8;
    let padding_bits = used % 8;
    let pad_byte = ((acc >> (8 * full_bytes) as u32) & 0xFF) as u8;
    if trailing_ones_of(pad_byte) as usize != padding_bits {
        return Err(DecoderError::InvalidPadding(pad_byte));
    }
    push_bytes(acc, full_bytes, dst);
    Ok(full_bytes)
}

/// Adding the next 15-bit word to a low slice of `pv` widens the slice.
pub proof fn lemma_mask_step(pv: u128, s: u32)
    requires
        s <= 105,
    ensures
        (pv & (((1u128 << s) - 1) as u128)) | (((pv >> s) & 0x7FFF) << s) == pv & (((1u128 << (s + 15) as u32) - 1) as u128),
        (pv & (((1u128 << s) - 1) as u128)) | (((pv >> s) & 0x7F) << s) == pv & (((1u128 << (s + 7) as u32) - 1) as u128),
        pv & (((1u128 << 0u32) - 1) as u128) == 0,
{
    assert((pv & (((1u128 << s) - 1) as u128)) | (((pv >> s) & 0x7FFF) << s) == pv & (((1u128 << (s + 15) as u32) - 1) as u128))
        by (bit_vector)
        requires
            s <= 105,
    ;
    assert((pv & (((1u128 << s) - 1) as u128)) | (((pv >> s) & 0x7F) << s) == pv & (((1u128 << (s + 7) as u32) - 1) as u128))
        by (bit_vector)
        requires
            s <= 105,
    ;
    assert(pv & (((1u128 << 0u32) - 1) as u128) == 0) by (bit_vector);
}

/// The bytes of a padded value cut to `used` bits: below the padding they are
/// the value's own bytes, and the byte where the padding starts holds
/// `used - n8` one bits.
proof fn lemma_padded_bytes(v: u128, n8: u32, used: u32, k8: u32)
    requires
        n8 <= used < n8 + 8,
        used <= 120,
    ensures
        k8 + 8 <= n8 ==> (((v | (!0u128 << n8)) & (((1u128 << used) - 1) as u128)) >> k8) & 0xFF == (v >> k8) & 0xFF,
        used - n8 == 0 ==> (((v | (!0u128 << n8)) & (((1u128 << used) - 1) as u128)) >> n8) & 0xFF == 0,
        used - n8 == 1 ==> (((v | (!0u128 << n8)) & (((1u128 << used) - 1) as u128)) >> n8) & 0xFF == 1,
        used - n8 == 2 ==> (((v | (!0u128 << n8)) & (((1u128 << used) - 1) as u128)) >> n8) & 0xFF == 3,
        used - n8 == 3 ==> (((v | (!0u128 << n8)) & (((1u128 << used) - 1) as u128)) >> n8) & 0xFF == 7,
        used - n8 == 4 ==> (((v | (!0u128 << n8)) & (((1u128 << used) - 1) as u128)) >> n8) & 0xFF == 15,
        used - n8 == 5 ==> (((v | (!0u128 << n8)) & (((1u128 << used) - 1) as u128)) >> n8) & 0xFF == 31,
        used - n8 == 6 ==> (((v | (!0u128 << n8)) & (((1u128 << used) - 1) as u128)) >> n8) & 0xFF == 63,
        used - n8 == 7 ==> (((v | (!0u128 << n8)) & (((1u128 << used) - 1) as u128)) >> n8) & 0xFF == 127,
{
    assert(k8 + 8 <= n8 ==> (((v | (!0u128 << n8)) & (((1u128 << used) - 1) as u128)) >> k8) & 0xFF == (v >> k8) & 0xFF)
        by (bit_vector)
        requires
            n8 <= used < n8 + 8,
            used <= 120,
    ;
    assert({
        let b = (((v | (!0u128 << n8)) & (((1u128 << used) - 1) as u128)) >> n8) & 0xFF;
        &&& used - n8 == 0 ==> b == 0
        &&& used - n8 == 1 ==> b == 1
        &&& used - n8 == 2 ==> b == 3
        &&& used - n8 == 3 ==> b == 7
        &&& used - n8 == 4 ==> b == 15
        &&& used - n8 == 5 ==> b == 31
        &&& used - n8 == 6 ==> b == 63
        &&& used - n8 == 7 ==> b == 127
    }) by (bit_vector)
        requires
            n8 <= used < n8 + 8,
            used <= 120,
    ;
}

/// Bits that a chunk of `n` bytes takes once encoded, padding included.
pub open spec fn chunk_used_bits(n: nat) -> nat {
    if has_short_tail(n) {
        (15 * (chunk_len(n) - 1) + 7) as nat
    } else {
        15 * chunk_len(n)
    }
}

/// Sizes of an encoded chunk: at most 8 words, and fewer than 8 bits of
/// padding.
pub proof fn lemma_chunk_sizes(n: nat)
    requires
        1 <= n <= BLOCK_BYTES,
    ensures
        1 <= chunk_len(n) <= BLOCK_WORDS,
        8 * n <= chunk_used_bits(n) < 8 * n + 8,
        chunk_used_bits(n) <= 120,
        n == BLOCK_BYTES ==> chunk_len(n) == BLOCK_WORDS && !has_short_tail(n),
{
    if n == 1 {
    } else if n == 2 {
    } else if n == 3 {
    } else if n == 4 {
    } else if n == 5 {
    } else if n == 6 {
    } else if n == 7 {
    } else if n == 8 {
    } else if n == 9 {
    } else if n == 10 {
    } else if n == 11 {
    } else if n == 12 {
    } else if n == 13 {
    } else if n == 14 {
    } else {
    }
}

/// The primary words at the front of a chunk lay out the padded value's low
/// bits again.
proof fn lemma_combine_prefix(c: Seq<u8>, j: nat)
    requires
        1 <= c.len() <= BLOCK_BYTES,
        j <= chunk_len(c.len()),
        j == chunk_len(c.len()) ==> !has_short_tail(c.len()),
    ensures
        combine(chunk_words(c).take(j as int)) == padded(c) & (((1u128 << (15 * j) as u32) - 1) as u128),
    decreases j,
{
    let ws = chunk_words(c);
    let pv = padded(c);
    lemma_chunk_sizes(c.len());
    if j == 0 {
        lemma_mask_step(pv, 0);
        assert(ws.take(0) =~= Seq::<u16>::empty());
    } else {
        let i = (j - 1) as nat;
        lemma_combine_prefix(c, i);
        assert(ws.take(j as int).drop_last() =~= ws.take(i as int));
        lemma_word_bits(pv, (15 * i) as u32);
        lemma_mask_step(pv, (15 * i) as u32);
        assert(ws[i as int] == word_at(pv, i as int));
    }
}

/// The words of a chunk of 1 to 15 bytes decode back to the chunk.
pub proof fn lemma_chunk_round_trip(c: Seq<u8>)
    requires
        1 <= c.len() <= BLOCK_BYTES,
    ensures
        final_chunk_bytes(chunk_words(c)) == Ok::<Seq<u8>, DecoderError>(c),
        !short_before_last(chunk_words(c)),
{
    let n = c.len();
    let ws = chunk_words(c);
    let pv = padded(c);
    let cnt = chunk_len(n);
    let used = chunk_used_bits(n);
    lemma_chunk_sizes(n);
    let last = (cnt - 1) as nat;
    lemma_word_bits(pv, (15 * last) as u32);
    assert forall|i: int| 0 <= i < ws.len() - 1 implies !is_short(#[trigger] ws[i]) by {
        lemma_word_bits(pv, (15 * i) as u32);
    }
    assert(combine(ws) == pv & (((1u128 << used as u32) - 1) as u128)) by {
        if has_short_tail(n) {
            lemma_combine_prefix(c, last);
            assert(ws.drop_last() =~= ws.take(last as int));
            lemma_mask_step(pv, (15 * last) as u32);
        } else {
            lemma_combine_prefix(c, cnt);
            assert(ws.take(cnt as int) =~= ws);
        }
    }
    assert(used_bits(ws) == used);
    let comb = combine(ws);
    let v = le_value(c);
    lemma_le_bytes(c);
    lemma_padded_bytes(v, (8 * n) as u32, used as u32, 0);
    assert(used / 8 == n);
    assert(bytes_of(comb, n) =~= c) by {
        assert forall|k: int| 0 <= k < n implies #[trigger] bytes_of(comb, n)[k] == c[k] by {
            lemma_padded_bytes(v, (8 * n) as u32, used as u32, (8 * k) as u32);
        }
    }
    reveal_with_fuel(ones_upto, 9);
}

/// The bytes of the first `k` full blocks of `ws`.
pub open spec fn blocks_bytes(ws: Seq<u16>, k: nat) -> Seq<u8>
    decreases k,
{
    if k == 0 {
        seq![]
    } else {
        blocks_bytes(ws, (k - 1) as nat) + full_chunk_bytes(
            ws.subrange(8 * (k - 1) as int, 8 * k as int),
        )
    }
}

/// The bytes of `k` full blocks number 15 for each.
pub proof fn lemma_blocks_bytes_len(ws: Seq<u16>, k: nat)
    requires
        8 * k <= ws.len(),
    ensures
        blocks_bytes(ws, k).len() == 15 * k,
    decreases k,
{
    if k > 0 {
        lemma_blocks_bytes_len(ws, (k - 1) as nat);
    }
}

/// Flipping one of the `p` padding bits of a padding byte leaves a byte
/// whose value the table gives.
proof fn lemma_flipped_pad_byte(c: u128, n8: u32, p: u32, t: u32)
    requires
        n8 <= 112,
        t < p <= 7,
            p == 1 ==> (c >> n8) & 0xFF == 1,
            p == 2 ==> (c >> n8) & 0xFF == 3,
            p == 3 ==> (c >> n8) & 0xFF == 7,
            p == 4 ==> (c >> n8) & 0xFF == 15,
            p == 5 ==> (c >> n8) & 0xFF == 31,
            p == 6 ==> (c >> n8) & 0xFF == 63,
            p == 7 ==> (c >> n8) & 0xFF == 127,
    ensures
        p == 1 && t == 0 ==> ((c ^ (1u128 << (n8 + t))) >> n8) & 0xFF == 0,
        p == 2 && t == 0 ==> ((c ^ (1u128 << (n8 + t))) >> n8) & 0xFF == 2,
        p == 2 && t == 1 ==> ((c ^ (1u128 << (n8 + t))) >> n8) & 0xFF == 1,
        p == 3 && t == 0 ==> ((c ^ (1u128 << (n8 + t))) >> n8) & 0xFF == 6,
        p == 3 && t == 1 ==> ((c ^ (1u128 << (n8 + t))) >> n8) & 0xFF == 5,
        p == 3 && t == 2 ==> ((c ^ (1u128 << (n8 + t))) >> n8) & 0xFF == 3,
        p == 4 && t == 0 ==> ((c ^ (1u128 << (n8 + t))) >> n8) & 0xFF == 14,
        p == 4 && t == 1 ==> ((c ^ (1u128 << (n8 + t))) >> n8) & 0xFF == 13,
        p == 4 && t == 2 ==> ((c ^ (1u128 << (n8 + t))) >> n8) & 0xFF == 11,
        p == 4 && t == 3 ==> ((c ^ (1u128 << (n8 + t))) >> n8) & 0xFF == 7,
        p == 5 && t == 0 ==> ((c ^ (1u128 << (n8 + t))) >> n8) & 0xFF == 30,
        p == 5 && t == 1 ==> ((c ^ (1u128 << (n8 + t))) >> n8) & 0xFF == 29,
        p == 5 && t == 2 ==> ((c ^ (1u128 << (n8 + t))) >> n8) & 0xFF == 27,
        p == 5 && t == 3 ==> ((c ^ (1u128 << (n8 + t))) >> n8) & 0xFF == 23,
        p == 5 && t == 4 ==> ((c ^ (1u128 << (n8 + t))) >> n8) & 0xFF == 15,
        p == 6 && t == 0 ==> ((c ^ (1u128 << (n8 + t))) >> n8) & 0xFF == 62,
        p == 6 && t == 1 ==> ((c ^ (1u128 << (n8 + t))) >> n8) & 0xFF == 61,
        p == 6 && t == 2 ==> ((c ^ (1u128 << (n8 + t))) >> n8) & 0xFF == 59,
        p == 6 && t == 3 ==> ((c ^ (1u128 << (n8 + t))) >> n8) & 0xFF == 55,
        p == 6 && t == 4 ==> ((c ^ (1u128 << (n8 + t))) >> n8) & 0xFF == 47,
        p == 6 && t == 5 ==> ((c ^ (1u128 << (n8 + t))) >> n8) & 0xFF == 31,
        p == 7 && t == 0 ==> ((c ^ (1u128 << (n8 + t))) >> n8) & 0xFF == 126,
        p == 7 && t == 1 ==> ((c ^ (1u128 << (n8 + t))) >> n8) & 0xFF == 125,
        p == 7 && t == 2 ==> ((c ^ (1u128 << (n8 + t))) >> n8) & 0xFF == 123,
        p == 7 && t == 3 ==> ((c ^ (1u128 << (n8 + t))) >> n8) & 0xFF == 119,
        p == 7 && t == 4 ==> ((c ^ (1u128 << (n8 + t))) >> n8) & 0xFF == 111,
        p == 7 && t == 5 ==> ((c ^ (1u128 << (n8 + t))) >> n8) & 0xFF == 95,
        p == 7 && t == 6 ==> ((c ^ (1u128 << (n8 + t))) >> n8) & 0xFF == 63,
{
    assert((p == 1 && t == 0 ==> ((c ^ (1u128 << (n8 + t))) >> n8) & 0xFF == 0) && (p == 2 && t == 0 ==> ((c ^ (1u128 << (n8 + t))) >> n8) & 0xFF == 2) && (p == 2 && t == 1 ==> ((c ^ (1u128 << (n8 + t))) >> n8) & 0xFF == 1) && (p == 3 && t == 0 ==> ((c ^ (1u128 << (n8 + t))) >> n8) & 0xFF == 6) && (p == 3 && t == 1 ==> ((c ^ (1u128 << (n8 + t))) >> n8) & 0xFF == 5) && (p == 3 && t == 2 ==> ((c ^ (1u128 << (n8 + t))) >> n8) & 0xFF == 3) && (p == 4 && t == 0 ==> ((c ^ (1u128 << (n8 + t))) >> n8) & 0xFF == 14) && (p == 4 && t == 1 ==> ((c ^ (1u128 << (n8 + t))) >> n8) & 0xFF == 13) && (p == 4 && t == 2 ==> ((c ^ (1u128 << (n8 + t))) >> n8) & 0xFF == 11) && (p == 4 && t == 3 ==> ((c ^ (1u128 << (n8 + t))) >> n8) & 0xFF == 7) && (p == 5 && t == 0 ==> ((c ^ (1u128 << (n8 + t))) >> n8) & 0xFF == 30) && (p == 5 && t == 1 ==> ((c ^ (1u128 << (n8 + t))) >> n8) & 0xFF == 29) && (p == 5 && t == 2 ==> ((c ^ (1u128 << (n8 + t))) >> n8) & 0xFF == 27) && (p == 5 && t == 3 ==> ((c ^ (1u128 << (n8 + t))) >> n8) & 0xFF == 23) && (p == 5 && t == 4 ==> ((c ^ (1u128 << (n8 + t))) >> n8) & 0xFF == 15) && (p == 6 && t == 0 ==> ((c ^ (1u128 << (n8 + t))) >> n8) & 0xFF == 62) && (p == 6 && t == 1 ==> ((c ^ (1u128 << (n8 + t))) >> n8) & 0xFF == 61) && (p == 6 && t == 2 ==> ((c ^ (1u128 << (n8 + t))) >> n8) & 0xFF == 59) && (p == 6 && t == 3 ==> ((c ^ (1u128 << (n8 + t))) >> n8) & 0xFF == 55) && (p == 6 && t == 4 ==> ((c ^ (1u128 << (n8 + t))) >> n8) & 0xFF == 47) && (p == 6 && t == 5 ==> ((c ^ (1u128 << (n8 + t))) >> n8) & 0xFF == 31) && (p == 7 && t == 0 ==> ((c ^ (1u128 << (n8 + t))) >> n8) & 0xFF == 126) && (p == 7 && t == 1 ==> ((c ^ (1u128 << (n8 + t))) >> n8) & 0xFF == 125) && (p == 7 && t == 2 ==> ((c ^ (1u128 << (n8 + t))) >> n8) & 0xFF == 123) && (p == 7 && t == 3 ==> ((c ^ (1u128 << (n8 + t))) >> n8) & 0xFF == 119) && (p == 7 && t == 4 ==> ((c ^ (1u128 << (n8 + t))) >> n8) & 0xFF == 111) && (p == 7 && t == 5 ==> ((c ^ (1u128 << (n8 + t))) >> n8) & 0xFF == 95) && (p == 7 && t == 6 ==> ((c ^ (1u128 << (n8 + t))) >> n8) & 0xFF == 63)) by (bit_vector)
        requires
            n8 <= 112,
            t < p <= 7,
            p == 1 ==> (c >> n8) & 0xFF == 1,
            p == 2 ==> (c >> n8) & 0xFF == 3,
            p == 3 ==> (c >> n8) & 0xFF == 7,
            p == 4 ==> (c >> n8) & 0xFF == 15,
            p == 5 ==> (c >> n8) & 0xFF == 31,
            p == 6 ==> (c >> n8) & 0xFF == 63,
            p == 7 ==> (c >> n8) & 0xFF == 127,
    ;
}

/// Flipping bit `q` of a word's value bits flips bit `s + q` of the words
/// laid side by side.
proof fn lemma_flip_in_word(pv: u128, s: u32, q: u32)
    requires
        s <= 105,
        q < 15,
    ensures
        (pv & (((1u128 << s) - 1) as u128)) | ((((pv >> s) & 0x7FFF) ^ (1u128 << q)) << s)
            == ((pv & (((1u128 << s) - 1) as u128)) | (((pv >> s) & 0x7FFF) << s)) ^ (1u128 << (s + q)),
        q < 7 ==> (pv & (((1u128 << s) - 1) as u128)) | ((((pv >> s) & 0x7F) ^ (1u128 << q)) << s)
            == ((pv & (((1u128 << s) - 1) as u128)) | (((pv >> s) & 0x7F) << s)) ^ (1u128 << (s + q)),
        (((((pv >> s) & 0x7FFF) as u16) ^ (1u16 << (q as u16))) as u16) < 0x8000,
        ((((((pv >> s) & 0x7FFF) as u16) ^ (1u16 << (q as u16))) as u16) as u128) == ((pv >> s) & 0x7FFF) ^ (1u128 << q),
        q < 7 ==> (((0x8000u128 | ((pv >> s) & 0x7F)) as u16) ^ (1u16 << (q as u16))) as u16 >= 0x8000,
        q < 7 ==> ((((0x8000u128 | ((pv >> s) & 0x7F)) as u16) ^ (1u16 << (q as u16))) as u16) < 0x8080,
        q < 7 ==> (((((0x8000u128 | ((pv >> s) & 0x7F)) as u16) ^ (1u16 << (q as u16))) as u16) & 0x7F) as u128
            == ((pv >> s) & 0x7F) ^ (1u128 << q),
{
    assert((pv & (((1u128 << s) - 1) as u128)) | ((((pv >> s) & 0x7FFF) ^ (1u128 << q)) << s)
        == ((pv & (((1u128 << s) - 1) as u128)) | (((pv >> s) & 0x7FFF) << s)) ^ (1u128 << (s + q))) by (bit_vector)
        requires
            s <= 105,
            q < 15,
    ;
    assert(q < 7 ==> (pv & (((1u128 << s) - 1) as u128)) | ((((pv >> s) & 0x7F) ^ (1u128 << q)) << s)
        == ((pv & (((1u128 << s) - 1) as u128)) | (((pv >> s) & 0x7F) << s)) ^ (1u128 << (s + q))) by (bit_vector)
        requires
            s <= 105,
            q < 15,
    ;
    assert((((((pv >> s) & 0x7FFF) as u16) ^ (1u16 << (q as u16))) as u16) < 0x8000
        && ((((((pv >> s) & 0x7FFF) as u16) ^ (1u16 << (q as u16))) as u16) as u128) == ((pv >> s) & 0x7FFF) ^ (1u128 << q))
        by (bit_vector)
        requires
            s <= 105,
            q < 15,
    ;
    assert(q < 7 ==> (((0x8000u128 | ((pv >> s) & 0x7F)) as u16) ^ (1u16 << (q as u16))) as u16 >= 0x8000
        && ((((0x8000u128 | ((pv >> s) & 0x7F)) as u16) ^ (1u16 << (q as u16))) as u16) < 0x8080
        && (((((0x8000u128 | ((pv >> s) & 0x7F)) as u16) ^ (1u16 << (q as u16))) as u16) & 0x7F) as u128
        == ((pv >> s) & 0x7F) ^ (1u128 << q)) by (bit_vector)
        requires
            s <= 105,
            q < 15,
    ;
}

/// The words of a chunk with its padding bit `t` flipped, counting from the
/// lowest padding bit.
pub open spec fn flip_padding(c: Seq<u8>, t: nat) -> Seq<u16> {
    let ws = chunk_words(c);
    let last = ws.len() - 1;
    let q = 8 * c.len() + t - 15 * last;
    ws.update(last, (ws[last] ^ (1u16 << (q as u16))) as u16)
}

/// Flipping any padding bit in the last word of a partial block makes the
/// final chunk fail with a padding error, and leaves a word of the same kind.
#[verifier::rlimit(60)]
pub proof fn lemma_chunk_padding_flip(c: Seq<u8>, t: nat)
    requires
        1 <= c.len() < BLOCK_BYTES,
        8 * c.len() + t < chunk_used_bits(c.len()),
    ensures
        final_chunk_bytes(flip_padding(c, t)) matches Err(DecoderError::InvalidPadding(_)),
        flip_padding(c, t).len() == chunk_words(c).len(),
        flip_padding(c, t).drop_last() == chunk_words(c).drop_last(),
        is_short(flip_padding(c, t).last()) == is_short(chunk_words(c).last()),
        is_short(flip_padding(c, t).last()) ==> flip_padding(c, t).last() < 0x8080,
{
    let n = c.len();
    let ws = chunk_words(c);
    let pv = padded(c);
    let cnt = chunk_len(n);
    let used = chunk_used_bits(n);
    lemma_chunk_sizes(n);
    let last = (cnt - 1) as nat;
    let s = 15 * last;
    let q = (8 * n + t - s) as nat;
    let ws2 = flip_padding(c, t);
    assert(8 * n >= s + 1) by {
        if n == 1 {} else if n == 2 {} else if n == 3 {} else if n == 4 {} else if n == 5 {}
        else if n == 6 {} else if n == 7 {} else if n == 8 {} else if n == 9 {} else if n == 10 {}
        else if n == 11 {} else if n == 12 {} else if n == 13 {} else {}
    }
    assert(q < used - s);
    assert(ws2.drop_last() =~= ws.drop_last());
    lemma_word_bits(pv, s as u32);
    lemma_flip_in_word(pv, s as u32, q as u32);
    lemma_combine_prefix(c, last);
    assert(ws.drop_last() =~= ws.take(last as int));
    lemma_mask_step(pv, s as u32);
    let a = pv & (((1u128 << (s as u32)) - 1) as u128);
    let comb = combine(ws);
    let comb2 = combine(ws2);
    assert(comb2 == comb ^ (1u128 << ((8 * n + t) as u32)));
    assert(used_bits(ws2) == used_bits(ws));
    assert(!short_before_last(ws2)) by {
        assert forall|i: int| 0 <= i < ws2.len() - 1 implies !is_short(#[trigger] ws2[i]) by {
            assert(ws2[i] == ws[i]);
            lemma_word_bits(pv, (15 * i) as u32);
        }
    }
    assert(comb == pv & (((1u128 << used as u32) - 1) as u128)) by {
        if has_short_tail(n) {
        } else {
            lemma_combine_prefix(c, cnt);
            assert(ws.take(cnt as int) =~= ws);
        }
    }
    let v = le_value(c);
    lemma_padded_bytes(v, (8 * n) as u32, used as u32, 0);
    let p = (used - 8 * n) as nat;
    assert(used / 8 == n && used % 8 == p);
    lemma_flipped_pad_byte(comb, (8 * n) as u32, p as u32, t as u32);
    reveal_with_fuel(ones_upto, 9);
}

} // verus!
