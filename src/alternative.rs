//! A table-free form of the codec that works on bare 15-bit words: each word
//! is a value below `0x8000`, and the last one has bit 15 set when it holds
//! at most 7 bits. Its tail is padded with zeros.
use vstd::prelude::*;
use crate::codec::{
    bytes_of, chunk_len, has_short_tail, le_value, lemma_chunk_sizes,
    lemma_le_bytes, lemma_mask_step, lemma_word_bits, load_le, push_bytes, word_at, BLOCK_BYTES,
    BLOCK_WORDS,
};

verus! {

/// The bare words of a chunk of at most 15 bytes.
pub open spec fn alt_chunk_words(c: Seq<u8>) -> Seq<u16> {
    Seq::new(
        chunk_len(c.len()),
        |i: int|
            if has_short_tail(c.len()) && i == chunk_len(c.len()) - 1 {
                (word_at(le_value(c), i) | 0x8000) as u16
            } else {
                word_at(le_value(c), i)
            },
    )
}

/// The bare words of a byte sequence, block by block.
pub open spec fn alt_words(b: Seq<u8>) -> Seq<u16>
    decreases b.len(),
{
    if b.len() <= BLOCK_BYTES {
        alt_chunk_words(b)
    } else {
        alt_chunk_words(b.take(BLOCK_BYTES as int)) + alt_words(b.skip(BLOCK_BYTES as int))
    }
}

/// Words laid side by side 15 bits apart, taken as they are.
pub open spec fn raw_combine(ws: Seq<u16>) -> u128
    decreases ws.len(),
{
    if ws.len() == 0 {
        0
    } else {
        raw_combine(ws.drop_last()) | ((ws.last() as u128) << (15 * (ws.len() - 1)) as u32)
    }
}

/// How many bytes the bare words `cs` stand for.
pub open spec fn alt_byte_count(cs: Seq<u16>) -> nat {
    if cs.len() == 0 {
        0
    } else if cs.last() >= 0x8000 {
        ((15 * cs.len() - 15 + 7) / 8) as nat
    } else {
        ((15 * cs.len() - 15 + 8 + 7) / 8) as nat
    }
}

/// The bytes of the body words (all but the last word), 8 at a time, then
/// the rest of the body with the last word, cut to `left` bytes.
pub open spec fn alt_groups(body: Seq<u16>, last: u16, left: nat) -> Seq<u8>
    decreases body.len(),
{
    if body.len() >= BLOCK_WORDS {
        bytes_of(raw_combine(body.take(BLOCK_WORDS as int)), BLOCK_BYTES as nat)
            + alt_groups(body.skip(BLOCK_WORDS as int), last, (left - BLOCK_BYTES) as nat)
    } else {
        bytes_of(raw_combine(body.push(last)), left)
    }
}

/// The bytes that the bare words `cs` decode to.
pub open spec fn alt_decoded(cs: Seq<u16>) -> Seq<u8> {
    if cs.len() == 0 {
        seq![]
    } else {
        alt_groups(cs.drop_last(), cs.last(), alt_byte_count(cs))
    }
}

/// Hands a vector over as a boxed slice.
/// Relies on `Vec::into_boxed_slice`, which keeps the elements in order.
#[verifier::external_body]
fn into_boxed<T>(v: Vec<T>) -> (r: Box<[T]>)
    ensures
        r@ == v@,
{
    v.into_boxed_slice()
}

/// Appends the bare words of a chunk of at most 15 bytes.
fn push_alt_chunk(src: &[u8], out: &mut Vec<u16>)
    requires
        src@.len() <= BLOCK_BYTES,
    ensures
        final(out)@ == old(out)@ + alt_chunk_words(src@),
{
    let n = src.len();
    let v = load_le(src);
    let count = (8 * n + 14) / 15;
    let rem = (8 * n) % 15;
    let short_tail = 1 <= rem && rem <= 7;
    let ghost words = alt_chunk_words(src@);
    let mut i: usize = 0;
    while i < count
        invariant
            n == src@.len() <= BLOCK_BYTES,
            count == chunk_len(n as nat),
            short_tail == has_short_tail(n as nat),
            v == le_value(src@),
            words == alt_chunk_words(src@),
            i <= count,
            out@ == old(out)@ + words.take(i as int),
        decreases count - i,
    {
        let mut w = ((v >> (15 * i) as u32) & 0x7FFF) as u16;
        if short_tail && i + 1 == count {
            w = w | 0x8000;
        }
        out.push(w);
        assert(words.take(i + 1) =~= words.take(i as int).push(w));
        i = i + 1;
    }
    assert(words.take(count as int) =~= words);
}

/// Encodes bytes as bare 15-bit words.
pub fn encode(bytes: &[u8]) -> (r: Box<[u16]>)
    requires
        bytes@.len() * 8 + 14 <= usize::MAX,
    ensures
        r@ == alt_words(bytes@),
{
    let len = bytes.len();
    let mut out: Vec<u16> = Vec::with_capacity((len * 8 + 14) / 15);
    let mut pos: usize = 0;
    assert(bytes@.skip(0) =~= bytes@);
    assert(out@ + alt_words(bytes@) =~= alt_words(bytes@));
    while len - pos > BLOCK_BYTES
        invariant
            len == bytes@.len(),
            pos <= len,
            out@ + alt_words(bytes@.skip(pos as int)) == alt_words(bytes@),
        decreases len - pos,
    {
        let block = &bytes[pos..pos + BLOCK_BYTES];
        proof {
            let rest = bytes@.skip(pos as int);
            assert(rest.take(BLOCK_BYTES as int) =~= block@);
            assert(rest.skip(BLOCK_BYTES as int) =~= bytes@.skip(pos + BLOCK_BYTES));
        }
        let ghost before = out@;
        push_alt_chunk(block, &mut out);
        assert(out@ + alt_words(bytes@.skip(pos + BLOCK_BYTES)) =~= before + alt_words(bytes@.skip(pos as int)));
        pos = pos + BLOCK_BYTES;
    }
    let tail = &bytes[pos..len];
    assert(tail@ =~= bytes@.skip(pos as int));
    push_alt_chunk(tail, &mut out);
    into_boxed(out)
}

/// Lays up to 8 bare words side by side, 15 bits apart.
fn raw_combine_of(ws: &[u16]) -> (r: u128)
    requires
        ws@.len() <= BLOCK_WORDS,
    ensures
        r == raw_combine(ws@),
{
    let mut acc: u128 = 0;
    let mut i: usize = 0;
    while i < ws.len()
        invariant
            ws@.len() <= BLOCK_WORDS,
            i <= ws@.len(),
            acc == raw_combine(ws@.take(i as int)),
        decreases ws@.len() - i,
    {
        assert(ws@.take(i + 1).drop_last() =~= ws@.take(i as int));
        acc = acc | ((ws[i] as u128) << (15 * i) as u32);
        i = i + 1;
    }
    assert(ws@.take(i as int) =~= ws@);
    acc
}

/// Decodes bare 15-bit words into bytes.
#[verifier::rlimit(40)]
pub fn decode(chars: &[u16]) -> (r: Box<[u8]>)
    requires
        chars@.len() * 15 + 15 <= usize::MAX,
    ensures
        r@ == alt_decoded(chars@),
{
    let len = chars.len();
    if len == 0 {
        let empty: Vec<u8> = Vec::new();
        assert(empty@ =~= alt_decoded(chars@));
        return into_boxed(empty);
    }
    let last_contains_few = chars[len - 1] >= 0x8000;
    let num_bytes = (len * 15 - 15 + if last_contains_few { 0 } else { 8 } + 7) / 8;
    assert(num_bytes == alt_byte_count(chars@));
    let mut out: Vec<u8> = Vec::with_capacity(num_bytes);
    let body_len = len - 1;
    let ghost body = chars@.drop_last();
    let last = chars[body_len];
    let mut pos: usize = 0;
    assert(body.skip(0) =~= body);
    assert(out@ + alt_groups(body, last, num_bytes as nat) =~= alt_groups(body, last, num_bytes as nat));
    while body_len - pos >= BLOCK_WORDS
        invariant
            len == chars@.len() >= 1,
            body_len == len - 1,
            body == chars@.drop_last(),
            last == chars@.last(),
            pos <= body_len,
            pos % 8 == 0,
            out@.len() == 15 * (pos / 8),
            8 * num_bytes + 8 > 15 * body_len,
            8 * num_bytes <= 15 * body_len + 15,
            out@ + alt_groups(body.skip(pos as int), last, (num_bytes - out@.len()) as nat)
                == alt_groups(body, last, num_bytes as nat),
        decreases body_len - pos,
    {
        let num = raw_combine_of(&chars[pos..pos + BLOCK_WORDS]);
        proof {
            let rest = body.skip(pos as int);
            assert(rest.take(BLOCK_WORDS as int) =~= chars@.subrange(pos as int, pos + BLOCK_WORDS));
            assert(rest.skip(BLOCK_WORDS as int) =~= body.skip(pos + BLOCK_WORDS));
        }
        let ghost before = out@;
        push_bytes(num, BLOCK_BYTES, &mut out);
        assert(out@ + alt_groups(body.skip(pos + BLOCK_WORDS), last, (num_bytes - out@.len()) as nat)
            =~= before + alt_groups(body.skip(pos as int), last, (num_bytes - before.len()) as nat));
        pos = pos + BLOCK_WORDS;
    }
    let num = raw_combine_of(&chars[pos..len]);
    assert(chars@.subrange(pos as int, len as int) =~= body.skip(pos as int).push(last));
    let left = num_bytes - out.len();
    push_bytes(num, left, &mut out);
    assert(out@ =~= alt_groups(body, last, num_bytes as nat));
    into_boxed(out)
}

/// The words of a chunk, laid side by side, keep the chunk's bytes below the
/// tag bit.
proof fn lemma_alt_bytes_bv(v: u128, s: u32, k8: u32, tag: u128)
    requires
        s <= 105,
        k8 + 8 <= s + 15,
        tag == 0 || tag == 0x8000,
    ensures
        (((v & (((1u128 << s) - 1) as u128)) | ((((v >> s) & 0x7FFF) | tag) << s)) >> k8) & 0xFF == (v >> k8) & 0xFF,
{
    assert((((v & (((1u128 << s) - 1) as u128)) | ((((v >> s) & 0x7FFF) | tag) << s)) >> k8) & 0xFF == (v >> k8) & 0xFF)
        by (bit_vector)
        requires
            s <= 105,
            k8 + 8 <= s + 15,
            tag == 0 || tag == 0x8000,
    ;
}

/// The first primary words of a chunk's bare words lay out the low bits of
/// its value again.
proof fn lemma_alt_combine_prefix(c: Seq<u8>, j: nat)
    requires
        1 <= c.len() <= BLOCK_BYTES,
        j < chunk_len(c.len()),
    ensures
        raw_combine(alt_chunk_words(c).take(j as int)) == le_value(c) & (((1u128 << (15 * j) as u32) - 1) as u128),
    decreases j,
{
    let ws = alt_chunk_words(c);
    let v = le_value(c);
    if j == 0 {
        lemma_mask_step(v, 0);
        assert(ws.take(0) =~= Seq::<u16>::empty());
    } else {
        let i = (j - 1) as nat;
        lemma_alt_combine_prefix(c, i);
        assert(ws.take(j as int).drop_last() =~= ws.take(i as int));
        lemma_word_bits(v, (15 * i) as u32);
        lemma_mask_step(v, (15 * i) as u32);
    }
}

/// The bare words of a chunk of 1 to 15 bytes decode back to the chunk.
proof fn lemma_alt_chunk_round_trip(c: Seq<u8>)
    requires
        1 <= c.len() <= BLOCK_BYTES,
    ensures
        bytes_of(raw_combine(alt_chunk_words(c)), c.len()) == c,
        alt_chunk_words(c).len() == chunk_len(c.len()),
        alt_byte_count(alt_chunk_words(c)) == c.len(),
        forall|i: int| 0 <= i < alt_chunk_words(c).len() - 1 ==> #[trigger] alt_chunk_words(c)[i] < 0x8000,
{
    let n = c.len();
    let ws = alt_chunk_words(c);
    let v = le_value(c);
    let cnt = chunk_len(n);
    lemma_chunk_sizes(n);
    let last = (cnt - 1) as nat;
    let s = (15 * last) as u32;
    lemma_alt_combine_prefix(c, last);
    assert(ws.drop_last() =~= ws.take(last as int));
    lemma_word_bits(v, s);
    let tag: u128 = if has_short_tail(n) { 0x8000 } else { 0 };
    assert((ws.last() as u128) == ((v >> s) & 0x7FFF) | tag) by {
        let x = v;
        assert(((((x >> s) & 0x7FFF) as u16 | 0x8000u16) as u16) as u128 == ((x >> s) & 0x7FFF) | 0x8000u128)
            by (bit_vector);
        assert(((x >> s) & 0x7FFF) | 0u128 == (x >> s) & 0x7FFF) by (bit_vector);
        if has_short_tail(n) {
            assert(ws.last() == ((word_at(v, last as int) | 0x8000) as u16));
        } else {
            assert(ws.last() == word_at(v, last as int));
        }
    }
    lemma_le_bytes(c);
    assert(8 * n <= s + 15) by {
        if n == 1 {} else if n == 2 {} else if n == 3 {} else if n == 4 {} else if n == 5 {}
        else if n == 6 {} else if n == 7 {} else if n == 8 {} else if n == 9 {} else if n == 10 {}
        else if n == 11 {} else if n == 12 {} else if n == 13 {} else if n == 14 {} else {}
    }
    assert forall|k: int| 0 <= k < n implies #[trigger] bytes_of(raw_combine(ws), n)[k] == c[k] by {
        lemma_alt_bytes_bv(v, s, (8 * k) as u32, tag);
    }
    assert(bytes_of(raw_combine(ws), n) =~= c);
    assert forall|i: int| 0 <= i < ws.len() - 1 implies #[trigger] ws[i] < 0x8000 by {
        lemma_word_bits(v, (15 * i) as u32);
    }
    assert(ws.last() >= 0x8000 <==> has_short_tail(n)) by {
        let x = v;
        assert(((((x >> s) & 0x7FFF) as u16 | 0x8000u16) as u16) >= 0x8000) by (bit_vector);
        if has_short_tail(n) {
            assert(ws.last() == ((word_at(v, last as int) | 0x8000) as u16));
        } else {
            assert(ws.last() == word_at(v, last as int));
        }
    }
    assert(alt_byte_count(ws) == n) by {
        if n == 1 {} else if n == 2 {} else if n == 3 {} else if n == 4 {} else if n == 5 {}
        else if n == 6 {} else if n == 7 {} else if n == 8 {} else if n == 9 {} else if n == 10 {}
        else if n == 11 {} else if n == 12 {} else if n == 13 {} else if n == 14 {} else {}
    }
}

/// The bare words of `b` decode back to `b`, block by block.
proof fn lemma_alt_groups(b: Seq<u8>)
    requires
        b.len() >= 1,
    ensures
        alt_words(b).len() >= 1,
        alt_groups(alt_words(b).drop_last(), alt_words(b).last(), alt_byte_count(alt_words(b))) == b,
        alt_byte_count(alt_words(b)) == b.len(),
    decreases b.len(),
{
    let ws = alt_words(b);
    if b.len() <= BLOCK_BYTES {
        lemma_alt_chunk_round_trip(b);
        lemma_chunk_sizes(b.len());
        assert(ws.drop_last().push(ws.last()) =~= ws);
    } else {
        let head = b.take(BLOCK_BYTES as int);
        let rest = b.skip(BLOCK_BYTES as int);
        lemma_alt_chunk_round_trip(head);
        lemma_chunk_sizes(BLOCK_BYTES as nat);
        lemma_alt_groups(rest);
        let hw = alt_chunk_words(head);
        let rw = alt_words(rest);
        assert(ws == hw + rw);
        let body = ws.drop_last();
        assert(body.take(BLOCK_WORDS as int) =~= hw);
        assert(body.skip(BLOCK_WORDS as int) =~= rw.drop_last());
        assert(ws.last() == rw.last());
        assert(alt_byte_count(ws) == alt_byte_count(rw) + 15);
        assert(head + rest =~= b);
    }
}

/// Decoding the bare words of `b` gives back `b`.
pub proof fn lemma_alt_round_trip(b: Seq<u8>)
    ensures
        alt_decoded(alt_words(b)) == b,
{
    if b.len() == 0 {
        assert(alt_chunk_words(b) =~= Seq::<u16>::empty());
        assert(b =~= Seq::<u8>::empty());
    } else {
        lemma_alt_groups(b);
    }
}

/// The bare words of `n` bytes number `⌈8n / 15⌉`, so the output of
/// `encode` can be handed to `decode`.
pub proof fn lemma_alt_length(b: Seq<u8>)
    ensures
        alt_words(b).len() == (8 * b.len() + 14) / 15,
    decreases b.len(),
{
    if b.len() > BLOCK_BYTES {
        lemma_alt_length(b.skip(BLOCK_BYTES as int));
    }
}

} // verus!
