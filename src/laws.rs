//! Laws of the codec over whole streams.
use vstd::prelude::*;
use crate::alphabet::{
    lemma_long_code, lemma_short_code, short_code, INVALID, SHORT_COUNT,
};
use crate::codec::{
    any_short, chunk_len, chunk_used_bits, chunk_words, decode_units, encode_units, first_invalid,
    flip_padding, full_chunk_bytes, has_short_tail, is_short, is_valid_unit,
    lemma_chunk_padding_flip, lemma_chunk_round_trip, lemma_first_invalid, padded,
    short_before_last, short_word_at, u15_words, unit_of, units_to_words, word_of, words_to_bytes,
    BLOCK_BYTES, BLOCK_WORDS, DecoderError,
};

verus! {

/// A word that some code unit carries: primary, or short.
pub open spec fn is_word(w: u16) -> bool {
    w < 0x8000 || (0x8000 <= w < 0x8000 + SHORT_COUNT)
}

/// Every word of a chunk is a word of the alphabet, and only the last one
/// may be short.
proof fn lemma_chunk_words_shape(c: Seq<u8>)
    requires
        c.len() <= BLOCK_BYTES,
    ensures
        chunk_words(c).len() == chunk_len(c.len()),
        forall|i: int| 0 <= i < chunk_words(c).len() ==> is_word(#[trigger] chunk_words(c)[i]),
        forall|i: int| 0 <= i < chunk_words(c).len() - 1 ==> !is_short(#[trigger] chunk_words(c)[i]),
        c.len() == BLOCK_BYTES ==> !any_short(chunk_words(c)),
{
    let ws = chunk_words(c);
    assert forall|i: int| 0 <= i < ws.len() implies is_word(#[trigger] ws[i]) && (i < ws.len() - 1 ==> !is_short(ws[i]))
        && (!has_short_tail(c.len()) ==> !is_short(ws[i])) by {
        assert((((padded(c) >> (15 * i) as u32) & 0x7FFF) as u16) < 0x8000) by {
            let x = padded(c);
            let s = (15 * i) as u32;
            assert((((x >> s) & 0x7FFF) as u16) < 0x8000) by (bit_vector);
        }
        assert(0x8000 <= short_word_at(padded(c), i) < 0x8080) by {
            let x = padded(c);
            let s = (15 * i) as u32;
            assert(0x8000 <= ((0x8000u128 | ((x >> s) & 0x7F)) as u16) < 0x8080) by (bit_vector);
        }
    }
    if c.len() == BLOCK_BYTES {
        assert(chunk_len(c.len()) == BLOCK_WORDS && !has_short_tail(c.len()));
        assert(!any_short(ws));
    }
}

/// The word stream of `b`: its length, its words all in the alphabet, and a
/// short word at most at its end.
proof fn lemma_words_shape(b: Seq<u8>)
    ensures
        u15_words(b).len() == (8 * b.len() + 14) / 15,
        forall|i: int| 0 <= i < u15_words(b).len() ==> is_word(#[trigger] u15_words(b)[i]),
        forall|i: int| 0 <= i < u15_words(b).len() - 1 ==> !is_short(#[trigger] u15_words(b)[i]),
    decreases b.len(),
{
    if b.len() <= BLOCK_BYTES {
        lemma_chunk_words_shape(b);
    } else {
        let head = b.take(BLOCK_BYTES as int);
        let tail = b.skip(BLOCK_BYTES as int);
        lemma_chunk_words_shape(head);
        lemma_words_shape(tail);
        let ws = u15_words(b);
        assert(ws == chunk_words(head) + u15_words(tail));
        assert forall|i: int| 0 <= i < ws.len() implies is_word(#[trigger] ws[i]) && (i < ws.len() - 1 ==> !is_short(ws[i])) by {
            if i >= BLOCK_WORDS {
                assert(ws[i] == u15_words(tail)[i - BLOCK_WORDS]);
            } else {
                assert(ws[i] == chunk_words(head)[i]);
            }
        }
    }
}

/// Each word comes back from the code unit that carries it.
proof fn lemma_unit_of(w: u16)
    requires
        is_word(w),
    ensures
        is_valid_unit(unit_of(w)),
        word_of(unit_of(w)) == w,
{
    if is_short(w) {
        lemma_short_code(w - 0x8000);
    } else {
        lemma_long_code(w as int);
    }
}

/// The code units of an encoding all lie in the alphabet, and decode to the
/// word stream they were made from.
pub proof fn lemma_units_to_words(b: Seq<u8>)
    ensures
        forall|i: int| 0 <= i < encode_units(b).len() ==> is_valid_unit(#[trigger] encode_units(b)[i]),
        units_to_words(encode_units(b)) == Ok::<Seq<u16>, DecoderError>(u15_words(b)),
{
    lemma_words_shape(b);
    let us = encode_units(b);
    let ws = u15_words(b);
    assert forall|i: int| 0 <= i < us.len() implies is_valid_unit(#[trigger] us[i]) && word_of(us[i]) == ws[i] by {
        lemma_unit_of(ws[i]);
    }
    lemma_no_invalid(us);
    assert(us.map_values(|u: u16| word_of(u)) =~= ws);
}

/// A stream whose code units all lie in the alphabet has no first invalid one.
pub proof fn lemma_no_invalid(us: Seq<u16>)
    requires
        forall|i: int| 0 <= i < us.len() ==> is_valid_unit(#[trigger] us[i]),
    ensures
        first_invalid(us) is None,
    decreases us.len(),
{
    if us.len() > 0 {
        assert forall|i: int| 0 <= i < us.len() - 1 implies is_valid_unit(#[trigger] us.drop_first()[i]) by {
            assert(us.drop_first()[i] == us[i + 1]);
        }
        lemma_no_invalid(us.drop_first());
    }
}

/// The word stream of `b` decodes back to `b`.
pub proof fn lemma_words_round_trip(b: Seq<u8>)
    ensures
        words_to_bytes(u15_words(b)) == Ok::<Seq<u8>, DecoderError>(b),
    decreases b.len(),
{
    if b.len() == 0 {
        assert(chunk_words(b) =~= Seq::<u16>::empty());
        assert(b =~= Seq::<u8>::empty());
    } else if b.len() <= BLOCK_BYTES {
        lemma_chunk_words_shape(b);
        lemma_chunk_round_trip(b);
    } else {
        let head = b.take(BLOCK_BYTES as int);
        let tail = b.skip(BLOCK_BYTES as int);
        lemma_chunk_words_shape(head);
        lemma_chunk_round_trip(head);
        lemma_words_shape(tail);
        lemma_words_round_trip(tail);
        let ws = u15_words(b);
        assert(ws.take(BLOCK_WORDS as int) =~= chunk_words(head));
        assert(ws.skip(BLOCK_WORDS as int) =~= u15_words(tail));
        assert(full_chunk_bytes(chunk_words(head)) == head);
        assert(head + tail =~= b);
    }
}

/// Decoding an encoding gives back the bytes that were encoded.
pub proof fn lemma_round_trip(b: Seq<u8>)
    ensures
        decode_units(encode_units(b)) == Ok::<Seq<u8>, DecoderError>(b),
{
    lemma_units_to_words(b);
    lemma_words_round_trip(b);
}

/// Every code unit of an encoding lies in one of the two alphabets.
pub proof fn lemma_alphabet_closure(b: Seq<u8>)
    ensures
        forall|i: int| 0 <= i < encode_units(b).len() ==> word_of(#[trigger] encode_units(b)[i]) != INVALID,
{
    lemma_units_to_words(b);
}

/// In an encoding, only the last code unit may decode to a short word.
pub proof fn lemma_short_only_last(b: Seq<u8>)
    ensures
        forall|i: int| 0 <= i < encode_units(b).len() - 1 ==> !is_short(word_of(#[trigger] encode_units(b)[i])),
{
    lemma_words_shape(b);
    lemma_units_to_words(b);
    assert forall|i: int| 0 <= i < encode_units(b).len() - 1 implies !is_short(word_of(#[trigger] encode_units(b)[i])) by {
        lemma_unit_of(u15_words(b)[i]);
    }
}

/// The encoding of `n` bytes has `⌈8n / 15⌉` code units.
pub proof fn lemma_length(b: Seq<u8>)
    ensures
        encode_units(b).len() == (8 * b.len() + 14) / 15,
{
    lemma_words_shape(b);
}

/// Encoding works block by block: bytes that fill whole blocks encode the same
/// way whatever follows them.
pub proof fn lemma_blockwise(a: Seq<u8>, b: Seq<u8>)
    requires
        a.len() % (BLOCK_BYTES as nat) == 0,
    ensures
        encode_units(a + b) == encode_units(a) + encode_units(b),
    decreases a.len(),
{
    lemma_words_blockwise(a, b);
    assert(encode_units(a + b) =~= encode_units(a) + encode_units(b));
}

/// The word stream works block by block.
proof fn lemma_words_blockwise(a: Seq<u8>, b: Seq<u8>)
    requires
        a.len() % (BLOCK_BYTES as nat) == 0,
    ensures
        u15_words(a + b) == u15_words(a) + u15_words(b),
    decreases a.len(),
{
    if a.len() == 0 {
        assert(a + b =~= b);
        assert(chunk_words(a) =~= Seq::<u16>::empty());
        assert(u15_words(a) + u15_words(b) =~= u15_words(b));
    } else {
        let rest = a.skip(BLOCK_BYTES as int);
        lemma_words_blockwise(rest, b);
        assert((a + b).take(BLOCK_BYTES as int) =~= a.take(BLOCK_BYTES as int));
        assert((a + b).skip(BLOCK_BYTES as int) =~= rest + b);
        if a.len() == BLOCK_BYTES {
            assert(rest =~= Seq::<u8>::empty());
            assert(a.take(BLOCK_BYTES as int) =~= a);
            assert(chunk_words(rest) =~= Seq::<u16>::empty());
            assert(rest + b =~= b);
            if b.len() == 0 {
                assert(a + b =~= a);
                assert(u15_words(b) =~= Seq::<u16>::empty());
                assert(u15_words(a) + u15_words(b) =~= u15_words(a));
            }
        } else {
            assert(u15_words(a) == chunk_words(a.take(BLOCK_BYTES as int)) + u15_words(rest));
        }
        assert(u15_words(a + b) =~= u15_words(a) + u15_words(b));
    }
}

/// Replacing any code unit of an encoding by a value outside the alphabets
/// makes decoding report that value.
pub proof fn lemma_invalid_unit_detected(b: Seq<u8>, p: int, x: u16)
    requires
        0 <= p < encode_units(b).len(),
        !is_valid_unit(x),
    ensures
        decode_units(encode_units(b).update(p, x)) == Err::<Seq<u8>, DecoderError>(DecoderError::InvalidCodePoint(x)),
{
    let us = encode_units(b).update(p, x);
    lemma_units_to_words(b);
    lemma_first_invalid(us);
    assert(!is_valid_unit(us[p]));
    let q = first_invalid(us)->0;
    assert(q == p);
}

/// A short word before the last position, after primary words only, makes
/// the word stream fail with the end-of-stream error.
proof fn lemma_words_marker(ws: Seq<u16>, p: int)
    requires
        0 <= p < ws.len() - 1,
        is_short(ws[p]),
        forall|i: int| 0 <= i < p ==> !is_short(#[trigger] ws[i]),
    ensures
        words_to_bytes(ws) == Err::<Seq<u8>, DecoderError>(DecoderError::UnexpectedEndOfStreamMarker),
    decreases ws.len(),
{
    if ws.len() <= BLOCK_WORDS {
        assert(short_before_last(ws));
    } else if p < BLOCK_WORDS {
        assert(ws.take(BLOCK_WORDS as int)[p] == ws[p]);
        assert(any_short(ws.take(BLOCK_WORDS as int)));
    } else {
        let rest = ws.skip(BLOCK_WORDS as int);
        assert forall|i: int| 0 <= i < BLOCK_WORDS implies !is_short(#[trigger] ws.take(BLOCK_WORDS as int)[i]) by {
            assert(ws.take(BLOCK_WORDS as int)[i] == ws[i]);
        }
        assert forall|i: int| 0 <= i < p - BLOCK_WORDS implies !is_short(#[trigger] rest[i]) by {
            assert(rest[i] == ws[i + BLOCK_WORDS]);
        }
        assert(rest[p - BLOCK_WORDS] == ws[p]);
        lemma_words_marker(rest, p - BLOCK_WORDS);
    }
}

/// Inserting a short code unit anywhere but at the end of an encoding makes
/// decoding fail with the end-of-stream error.
pub proof fn lemma_marker_detected(b: Seq<u8>, p: int, j: int)
    requires
        0 <= p < encode_units(b).len(),
        0 <= j < SHORT_COUNT,
    ensures
        decode_units(encode_units(b).insert(p, short_code(j) as u16))
            == Err::<Seq<u8>, DecoderError>(DecoderError::UnexpectedEndOfStreamMarker),
{
    let s = short_code(j) as u16;
    let us = encode_units(b).insert(p, s);
    let ws = u15_words(b);
    lemma_short_code(j);
    lemma_words_shape(b);
    lemma_units_to_words(b);
    assert(word_of(s) == 0x8000 + j);
    assert forall|i: int| 0 <= i < us.len() implies is_valid_unit(#[trigger] us[i]) by {
        if i > p {
            assert(us[i] == encode_units(b)[i - 1]);
        } else if i < p {
            assert(us[i] == encode_units(b)[i]);
        }
    }
    lemma_no_invalid(us);
    let ws2 = us.map_values(|u: u16| word_of(u));
    assert forall|i: int| 0 <= i < p implies !is_short(#[trigger] ws2[i]) by {
        assert(us[i] == encode_units(b)[i]);
        lemma_unit_of(ws[i]);
    }
    lemma_words_marker(ws2, p);
}

/// The word stream of `k` full blocks then a partial block `tail`, with a
/// padding bit of its last word flipped, fails with a padding error.
proof fn lemma_words_padding_flip(b: Seq<u8>, k: nat, tail: Seq<u8>, t: nat)
    requires
        1 <= tail.len() < BLOCK_BYTES,
        b.len() == BLOCK_BYTES * k + tail.len(),
        b.skip(BLOCK_BYTES * k) == tail,
        8 * tail.len() + t < chunk_used_bits(tail.len()),
    ensures
        u15_words(b).len() >= 1,
        u15_words(b).last() == chunk_words(tail).last(),
        words_to_bytes(u15_words(b).update(u15_words(b).len() - 1, flip_padding(tail, t).last()))
            matches Err(DecoderError::InvalidPadding(_)),
    decreases k,
{
    let ws = u15_words(b);
    let w = flip_padding(tail, t).last();
    lemma_chunk_padding_flip(tail, t);
    lemma_chunk_words_shape(tail);
    if k == 0 {
        assert(b.skip(0) =~= b);
        let f = flip_padding(b, t);
        assert(ws.update(ws.len() - 1, f.last()) =~= f);
    } else {
        let head = b.take(BLOCK_BYTES as int);
        let rest = b.skip(BLOCK_BYTES as int);
        assert(rest.skip(BLOCK_BYTES * (k - 1)) =~= tail);
        lemma_words_padding_flip(rest, (k - 1) as nat, tail, t);
        lemma_chunk_words_shape(head);
        let rw = u15_words(rest);
        let ws2 = ws.update(ws.len() - 1, w);
        assert(ws == chunk_words(head) + rw);
        assert(ws2.take(BLOCK_WORDS as int) =~= chunk_words(head));
        assert(ws2.skip(BLOCK_WORDS as int) =~= rw.update(rw.len() - 1, w));
        assert(ws2.len() > BLOCK_WORDS);
        assert(!any_short(ws2.take(BLOCK_WORDS as int)));
    }
}

/// Flipping any padding bit of the last code unit of an encoding makes
/// decoding fail with a padding error.
pub proof fn lemma_padding_flip_detected(b: Seq<u8>, t: nat)
    requires
        b.len() % (BLOCK_BYTES as nat) != 0,
        8 * (b.len() % (BLOCK_BYTES as nat)) + t < chunk_used_bits(b.len() % (BLOCK_BYTES as nat)),
    ensures
        ({
            let us = encode_units(b);
            let tail = b.skip(b.len() - b.len() % (BLOCK_BYTES as nat));
            decode_units(us.update(us.len() - 1, unit_of(flip_padding(tail, t).last())))
                matches Err(DecoderError::InvalidPadding(_))
        }),
{
    let us = encode_units(b);
    let ws = u15_words(b);
    let tail = b.skip(b.len() - b.len() % (BLOCK_BYTES as nat));
    let k = b.len() / (BLOCK_BYTES as nat);
    assert(b.len() - b.len() % (BLOCK_BYTES as nat) == BLOCK_BYTES * k);
    lemma_words_padding_flip(b, k, tail, t);
    lemma_units_to_words(b);
    lemma_words_shape(b);
    let n = tail.len();
    assert(1 <= n < BLOCK_BYTES);
    lemma_chunk_padding_flip(tail, t);
    lemma_chunk_words_shape(tail);
    let w = flip_padding(tail, t).last();
    assert(is_word(chunk_words(tail).last()));
    assert(is_word(w));
    lemma_unit_of(w);
    let us2 = us.update(us.len() - 1, unit_of(w));
    assert forall|i: int| 0 <= i < us2.len() implies is_valid_unit(#[trigger] us2[i]) by {}
    lemma_no_invalid(us2);
    assert(us2.map_values(|u: u16| word_of(u)) =~= ws.update(ws.len() - 1, w)) by {
        assert forall|i: int| 0 <= i < us.len() - 1 implies word_of(#[trigger] us[i]) == ws[i] by {
            lemma_unit_of(ws[i]);
        }
    }
}

/// The last word of a chunk is short exactly when it holds 1 to 7 bits.
proof fn lemma_chunk_last_short(c: Seq<u8>)
    requires
        1 <= c.len() <= BLOCK_BYTES,
    ensures
        is_short(chunk_words(c).last()) <==> has_short_tail(c.len()),
{
    let ws = chunk_words(c);
    let i = ws.len() - 1;
    assert(ws.len() >= 1) by {
        assert(chunk_len(c.len()) >= 1);
    }
    let x = padded(c);
    let sh = (15 * i) as u32;
    assert((((x >> sh) & 0x7FFF) as u16) < 0x8000) by (bit_vector);
    assert(((0x8000u128 | ((x >> sh) & 0x7F)) as u16) >= 0x8000) by (bit_vector);
}

/// The last code unit of an encoding decodes to a short word exactly when
/// `8n mod 15` lies in 1..7, for `n` bytes encoded.
#[verifier::rlimit(50)]
pub proof fn lemma_short_tail(b: Seq<u8>)
    requires
        b.len() > 0,
    ensures
        encode_units(b).len() > 0,
        is_short(word_of(encode_units(b).last())) <==> 1 <= (8 * b.len()) % 15 <= 7,
    decreases b.len(),
{
    lemma_words_shape(b);
    lemma_units_to_words(b);
    let ws = u15_words(b);
    lemma_unit_of(ws.last());
    if b.len() <= BLOCK_BYTES {
        lemma_chunk_last_short(b);
    } else {
        let rest = b.skip(BLOCK_BYTES as int);
        lemma_short_tail(rest);
        lemma_words_shape(rest);
        lemma_units_to_words(rest);
        let rw = u15_words(rest);
        lemma_unit_of(rw.last());
        assert(ws == chunk_words(b.take(BLOCK_BYTES as int)) + rw);
        assert(ws.last() == rw.last());
        assert(8 * b.len() == 8 * rest.len() + 120);
        assert((8 * b.len()) % 15 == (8 * rest.len()) % 15);
    }
}

} // verus!
