//! The streaming pipeline: three stages that each move as much data as they
//! can from an input pipe to an output pipe without blocking, and say
//! whether they changed anything.
use vstd::prelude::*;
use pipebuf::{PBufRd, PBufWr};
use crate::alphabet::Tables;
use crate::codec::{
    any_short, blocks_bytes, chunk_units, decode_full_block, decode_partial_final_chunk,
    decode_utf32768_stream, encode_full_block, encode_partial_block, encode_units,
    final_chunk_bytes, first_invalid, is_short, lemma_blocks_bytes_len, units_to_words, BLOCK_BYTES,
    BLOCK_WORDS,
    DecoderError,
};
use crate::laws::{lemma_blockwise, lemma_no_invalid};
use crate::pipes::{
    rd16_consume, rd16_consume_eof, rd16_consume_push, rd16_data, rd16_get_state, rd16_len,
    rd16_slice, rd16_state, rd8_consume, rd8_consume_eof, rd8_consume_push, rd8_data, rd8_get_state,
    rd8_len, rd8_slice, rd8_state, wr16_abort, wr16_append, wr16_capacity, wr16_close, wr16_data,
    wr16_free_space, wr16_is_eof, wr16_push, wr16_state, wr8_abort, wr8_append, wr8_capacity,
    wr8_close, wr8_data, wr8_free_space, wr8_is_eof, wr8_push, wr8_state, PipeState,
};

verus! {

/// How many full blocks fit: all those waiting, or as many as leave room
/// for their code units in an output of fixed capacity.
pub open spec fn blocks_that_fit(waiting: nat, out_len: nat, capacity: Option<nat>, unit: nat, block: nat) -> nat {
    let all = waiting / block;
    match capacity {
        Some(c) => if c >= out_len && (c - out_len) / (unit as int) < all {
            ((c - out_len) / (unit as int)) as nat
        } else if c < out_len {
            0
        } else {
            all
        },
        None => all,
    }
}

/// Whether an output of fixed capacity has room for `n` more items.
pub open spec fn has_room(out_len: nat, capacity: Option<nat>, n: nat) -> bool {
    match capacity {
        Some(c) => out_len + n <= c,
        None => true,
    }
}

/// What the encoding stage does to its pipes: the input's data and state,
/// then the output's data and state.
pub open spec fn encode_stage(
    data: Seq<u8>,
    state: PipeState,
    out: Seq<u16>,
    out_state: PipeState,
    capacity: Option<nat>,
) -> (Seq<u8>, PipeState, Seq<u16>, PipeState) {
    let state1 = state.push_consumed();
    let out_state1 = if state == PipeState::Push { out_state.pushed() } else { out_state };
    if state1 == PipeState::Aborting {
        (data, PipeState::Aborted, out, out_state1.aborted())
    } else if state1.is_aborted() || out_state1.is_eof() {
        (data, state1, out, out_state1)
    } else {
        let k = blocks_that_fit(data.len(), out.len(), capacity, BLOCK_WORDS as nat, BLOCK_BYTES as nat);
        let out2 = out + encode_units(data.take(BLOCK_BYTES * k));
        let rest = data.skip(BLOCK_BYTES * k);
        if rest.len() < BLOCK_BYTES && state1 == PipeState::Closing && has_room(
            out2.len(),
            capacity,
            BLOCK_WORDS as nat,
        ) {
            (Seq::empty(), PipeState::Closed, out2 + chunk_units(rest), out_state1.closed())
        } else {
            (rest, state1, out2, out_state1)
        }
    }
}

/// Encodes the bytes waiting in `bytes` into code units on `utf32768`, a
/// block at a time while the output has room for 8 more, and the final
/// partial block once the input is closed. Passes on pushes and aborts.
/// Returns whether either pipe changed.
pub fn encode_bytes_to_utf32768(tables: &Tables, bytes: &mut PBufRd<'_, u8>, utf32768: &mut PBufWr<'_, u16>) -> (r: bool)
    requires
        tables.wf(),
    ensures
        (rd8_data(*final(bytes)), rd8_state(*final(bytes)), wr16_data(*final(utf32768)), wr16_state(*final(utf32768)))
            == encode_stage(
            rd8_data(*old(bytes)),
            rd8_state(*old(bytes)),
            wr16_data(*old(utf32768)),
            wr16_state(*old(utf32768)),
            wr16_capacity(*old(utf32768)),
        ),
        wr16_capacity(*final(utf32768)) == wr16_capacity(*old(utf32768)),
        r == (rd8_data(*final(bytes)) != rd8_data(*old(bytes)) || rd8_state(*final(bytes)) != rd8_state(*old(bytes))
            || wr16_data(*final(utf32768)) != wr16_data(*old(utf32768))
            || wr16_state(*final(utf32768)) != wr16_state(*old(utf32768))),
{
    let ghost d0 = rd8_data(*bytes);
    let ghost o0 = wr16_data(*utf32768);
    let ghost cap = wr16_capacity(*utf32768);
    let len_before = rd8_len(bytes);
    let state_before = rd8_get_state(bytes);
    let mut appended = false;
    if rd8_consume_push(bytes) {
        wr16_push(utf32768);
    }
    let state1 = rd8_get_state(bytes);
    if state1 == PipeState::Aborting {
        rd8_consume_eof(bytes);
        wr16_abort(utf32768);
    } else if !(state1 == PipeState::Aborted) && !wr16_is_eof(utf32768) {
        let ghost w1 = wr16_state(*utf32768);
        let mut units: Vec<u16> = Vec::with_capacity(BLOCK_WORDS);
        let mut backpressure = false;
        let ghost mut k: nat = 0;
        proof {
            assert(d0.skip(0) =~= d0);
            assert(d0.take(0) =~= Seq::<u8>::empty());
            assert(encode_units(Seq::<u8>::empty()) =~= Seq::<u16>::empty()) by {
                assert(crate::codec::u15_words(Seq::<u8>::empty()) =~= Seq::<u16>::empty());
            }
            assert(o0 + encode_units(d0.take(0)) =~= o0);
        }
        while !backpressure && rd8_len(bytes) >= BLOCK_BYTES
            invariant
                tables.wf(),
                rd8_state(*bytes) == state1,
                wr16_state(*utf32768) == w1,
                !w1.is_eof(),
                wr16_capacity(*utf32768) == cap,
                BLOCK_BYTES * k <= d0.len(),
                rd8_data(*bytes) == d0.skip(BLOCK_BYTES * k),
                wr16_data(*utf32768) == o0 + encode_units(d0.take(BLOCK_BYTES * k)),
                encode_units(d0.take(BLOCK_BYTES * k)).len() == BLOCK_WORDS * k,
                k > 0 ==> (cap matches Some(c) ==> o0.len() + BLOCK_WORDS * k <= c),
                backpressure ==> (cap matches Some(c) && o0.len() + BLOCK_WORDS * k <= c && c < o0.len()
                    + BLOCK_WORDS * k + BLOCK_WORDS),
                appended == (k > 0),
            decreases rd8_data(*bytes).len(), if backpressure { 0int } else { 1int },
        {
            let free = wr16_free_space(utf32768);
            let room = match free {
                Some(f) => f >= BLOCK_WORDS,
                None => true,
            };
            if !room {
                backpressure = true;
            } else {
                let data = rd8_slice(bytes);
                let block = &data[0..BLOCK_BYTES];
                units.clear();
                encode_full_block(tables, block, &mut units);
                proof {
                    let done = d0.take(BLOCK_BYTES * k);
                    assert(block@ =~= d0.subrange(BLOCK_BYTES * k, BLOCK_BYTES * k + BLOCK_BYTES));
                    assert(done + block@ =~= d0.take(BLOCK_BYTES * (k + 1)));
                    lemma_blockwise(done, block@);
                    assert(encode_units(block@) == chunk_units(block@));
                    assert(units@ =~= encode_units(block@));
                }
                wr16_append(utf32768, units.as_slice());
                rd8_consume(bytes, BLOCK_BYTES);
                proof {
                    assert(wr16_data(*utf32768) =~= o0 + encode_units(d0.take(BLOCK_BYTES * (k + 1))));
                    assert(d0.skip(BLOCK_BYTES * k).skip(BLOCK_BYTES as int) =~= d0.skip(BLOCK_BYTES * (k + 1)));
                    k = k + 1;
                }
                appended = true;
            }
        }
        proof {
            assert(k == blocks_that_fit(d0.len(), o0.len(), cap, BLOCK_WORDS as nat, BLOCK_BYTES as nat));
        }
        if !backpressure && state1 == PipeState::Closing {
            let free = wr16_free_space(utf32768);
            let room = match free {
                Some(f) => f >= BLOCK_WORDS,
                None => true,
            };
            if room {
                let data = rd8_slice(bytes);
                let n = rd8_len(bytes);
                units.clear();
                encode_partial_block(tables, data, &mut units);
                rd8_consume(bytes, n);
                wr16_append(utf32768, units.as_slice());
                rd8_consume_eof(bytes);
                wr16_close(utf32768);
                assert(rd8_data(*bytes) =~= Seq::<u8>::empty());
            }
        }
    }
    let r = rd8_len(bytes) != len_before || !(rd8_get_state(bytes) == state_before) || appended;
    proof {
        if rd8_data(*bytes) == d0 {
            assert(rd8_data(*bytes).len() == len_before);
        }
    }
    r
}

/// How much of `target` fits in the free space of an output: all of it when
/// the output grows.
fn free_space_sizing(free_space: Option<usize>, target_space: usize) -> (r: usize)
    ensures
        r == match free_space {
            Some(x) => if x < target_space { x } else { target_space },
            None => target_space,
        },
{
    match free_space {
        None => target_space,
        Some(x) => if x < target_space { x } else { target_space },
    }
}

/// What the look-up stage does to its pipes: its result, the input's data
/// and state, then the output's data and state.
pub open spec fn translate_stage(
    data: Seq<u16>,
    state: PipeState,
    out: Seq<u16>,
    out_state: PipeState,
    capacity: Option<nat>,
) -> (Result<(), DecoderError>, Seq<u16>, PipeState, Seq<u16>, PipeState) {
    if state == PipeState::Aborting {
        (Ok(()), data, PipeState::Aborted, out, out_state.aborted())
    } else {
        let n: nat = if state.is_aborted() || out_state.is_eof() {
            0
        } else {
            match capacity {
                Some(c) => if c < out.len() {
                    0
                } else if c - out.len() < data.len() {
                    (c - out.len()) as nat
                } else {
                    data.len()
                },
                None => data.len(),
            }
        };
        match units_to_words(data.take(n as int)) {
            Err(e) => (Err(e), data, state, out, out_state.aborted()),
            Ok(words) => {
                let data2 = data.skip(n as int);
                let out2 = out + words;
                let state1 = state.push_consumed();
                let out_state1 = if state == PipeState::Push { out_state.pushed() } else { out_state };
                if data2.len() == 0 && state1.has_pending_eof() {
                    (Ok(()), data2, state1.eof_consumed(), out2, out_state1.closed())
                } else {
                    (Ok(()), data2, state1, out2, out_state1)
                }
            },
        }
    }
}

/// Looks up the code units waiting in `utf32768` and passes their words to
/// `u15s`, as many as the output has room for. Passes on pushes, the end of
/// the stream and aborts; on a code unit outside the alphabets, aborts the
/// output and reports it. Returns whether either pipe changed.
pub fn decode_utf32768_to_u15(
    tables: &Tables,
    utf32768: &mut PBufRd<'_, u16>,
    u15s: &mut PBufWr<'_, u16>,
) -> (r: Result<bool, DecoderError>)
    requires
        tables.wf(),
    ensures
        ({
            let (res, d, s, o, w) = translate_stage(
                rd16_data(*old(utf32768)),
                rd16_state(*old(utf32768)),
                wr16_data(*old(u15s)),
                wr16_state(*old(u15s)),
                wr16_capacity(*old(u15s)),
            );
            &&& rd16_data(*final(utf32768)) == d
            &&& rd16_state(*final(utf32768)) == s
            &&& wr16_data(*final(u15s)) == o
            &&& wr16_state(*final(u15s)) == w
            &&& match res {
                Ok(_) => r == Ok::<bool, DecoderError>(
                    d != rd16_data(*old(utf32768)) || s != rd16_state(*old(utf32768))
                        || o != wr16_data(*old(u15s)) || w != wr16_state(*old(u15s)),
                ),
                Err(e) => r == Err::<bool, DecoderError>(e),
            }
        }),
        wr16_capacity(*final(u15s)) == wr16_capacity(*old(u15s)),
{
    let len_before = rd16_len(utf32768);
    let state_before = rd16_get_state(utf32768);
    let ghost d0 = rd16_data(*utf32768);
    let ghost o0 = wr16_data(*u15s);
    let mut appended = false;
    if state_before == PipeState::Aborting {
        rd16_consume_eof(utf32768);
        wr16_abort(u15s);
    } else {
        let mut n: usize = 0;
        if !(state_before == PipeState::Aborted) && !wr16_is_eof(u15s) {
            let data = rd16_slice(utf32768);
            n = free_space_sizing(wr16_free_space(u15s), data.len());
            if n > 0 {
                let mut words: Vec<u16> = Vec::with_capacity(n);
                let chunk = &data[0..n];
                assert(chunk@ =~= d0.take(n as int));
                match decode_utf32768_stream(tables, chunk, &mut words) {
                    Some(e) => {
                        wr16_abort(u15s);
                        return Err(e);
                    },
                    None => {},
                }
                wr16_append(u15s, words.as_slice());
                rd16_consume(utf32768, n);
                appended = true;
            }
        }
        assert(d0.take(n as int).len() == n);
        if n == 0 {
            assert(d0.take(0) =~= Seq::<u16>::empty());
            assert(d0.skip(0) =~= d0);
            assert(o0 + Seq::<u16>::empty().map_values(|u: u16| crate::codec::word_of(u)) =~= o0);
        }
        if rd16_consume_push(utf32768) {
            wr16_push(u15s);
        }
        if rd16_len(utf32768) == 0 {
            if rd16_consume_eof(utf32768) {
                wr16_close(u15s);
            }
        }
    }
    let r = rd16_len(utf32768) != len_before || !(rd16_get_state(utf32768) == state_before) || appended;
    proof {
        if rd16_data(*utf32768) == d0 {
            assert(rd16_data(*utf32768).len() == len_before);
        }
    }
    Ok(r)
}

/// Whether the words waiting are the last of their stream: the last one is
/// short, or the stream's end waits to be taken note of.
pub open spec fn is_final_words(data: Seq<u16>, state: PipeState) -> bool {
    (data.len() > 0 && is_short(data.last())) || state.has_pending_eof()
}

/// Number of full blocks that the byte stage takes before the words it
/// leaves for the final chunk: while more than 8 words (7 when the stream
/// may go on) are waiting.
pub open spec fn blocks_due(len: nat, fin: bool) -> nat {
    let threshold: nat = if fin { 8 } else { 7 };
    if len > threshold {
        ((len - threshold + 7) / 8) as nat
    } else {
        0
    }
}

/// The first of the first `k` blocks of `data` that holds a short word, or
/// `k` if none does.
pub open spec fn first_short_block(data: Seq<u16>, k: nat) -> nat
    decreases k,
{
    if k == 0 {
        0
    } else {
        let j = first_short_block(data, (k - 1) as nat);
        if j < k - 1 {
            j
        } else if any_short(data.subrange(8 * (k - 1) as int, 8 * k as int)) {
            (k - 1) as nat
        } else {
            k
        }
    }
}

/// Once a block with a short word is found, later blocks do not move it.
proof fn lemma_first_short_block_stable(data: Seq<u16>, m: nat, m2: nat)
    requires
        first_short_block(data, m) < m,
        m <= m2,
    ensures
        first_short_block(data, m2) == first_short_block(data, m),
    decreases m2,
{
    if m2 > m {
        lemma_first_short_block_stable(data, m, (m2 - 1) as nat);
    }
}

/// What the byte stage does to its pipes: its result, the input's data and
/// state, then the output's data and state.
pub open spec fn bytes_stage(
    data: Seq<u16>,
    state: PipeState,
    out: Seq<u8>,
    out_state: PipeState,
    capacity: Option<nat>,
) -> (Result<(), DecoderError>, Seq<u16>, PipeState, Seq<u8>, PipeState) {
    if state == PipeState::Aborting {
        (Ok(()), data, PipeState::Aborted, out, out_state.aborted())
    } else if state == PipeState::Aborted {
        (Ok(()), data, state, out, out_state)
    } else {
        let fin = is_final_words(data, state);
        let due = if out_state.is_eof() { 0 } else { blocks_due(data.len(), fin) };
        let k = blocks_that_fit(8 * due, out.len(), capacity, BLOCK_BYTES as nat, BLOCK_WORDS as nat);
        let j = first_short_block(data, k);
        if j < k {
            (
                Err(DecoderError::UnexpectedEndOfStreamMarker),
                data.skip(8 * j as int),
                state,
                out + blocks_bytes(data, j),
                out_state.aborted(),
            )
        } else {
            let data2 = data.skip(8 * k as int);
            let out2 = out + blocks_bytes(data, k);
            if k == due && fin {
                if out_state.is_eof() || data2.len() > BLOCK_WORDS {
                    (Err(DecoderError::UnexpectedEndOfStreamMarker), data2, state, out2, out_state.aborted())
                } else if has_room(out2.len(), capacity, BLOCK_BYTES as nat) {
                    match final_chunk_bytes(data2) {
                        Ok(t) => (Ok(()), Seq::empty(), state.eof_consumed(), out2 + t, out_state.closed()),
                        Err(e) => (Err(e), data2, state, out2, out_state.aborted()),
                    }
                } else {
                    (Ok(()), data2, state, out2, out_state)
                }
            } else if state == PipeState::Push {
                (Ok(()), data2, PipeState::Open, out2, out_state.pushed())
            } else {
                (Ok(()), data2, state, out2, out_state)
            }
        }
    }
}

/// Decodes full blocks from `u15s` onto `bytes` while more than `threshold`
/// words wait and the output has room for 15 more bytes. Tells whether it
/// stopped for want of room, or reports a short word within a block.
fn decode_blocks(
    u15s: &mut PBufRd<'_, u16>,
    bytes: &mut PBufWr<'_, u8>,
    threshold: usize,
    Ghost(fin): Ghost<bool>,
) -> (r: Result<bool, DecoderError>)
    requires
        threshold == if fin { 8nat } else { 7nat },
        !wr8_state(*old(bytes)).is_eof(),
    ensures
        ({
            let d0 = rd16_data(*old(u15s));
            let o0 = wr8_data(*old(bytes));
            let due = blocks_due(d0.len(), fin);
            let k = blocks_that_fit(8 * due, o0.len(), wr8_capacity(*old(bytes)), BLOCK_BYTES as nat, BLOCK_WORDS as nat);
            let j = first_short_block(d0, k);
            &&& rd16_state(*final(u15s)) == rd16_state(*old(u15s))
            &&& wr8_capacity(*final(bytes)) == wr8_capacity(*old(bytes))
            &&& match r {
                Ok(bp) => j == k && bp == (k < due) && rd16_data(*final(u15s)) == d0.skip(8 * k as int)
                    && wr8_data(*final(bytes)) == o0 + blocks_bytes(d0, k)
                    && wr8_state(*final(bytes)) == wr8_state(*old(bytes)),
                Err(e) => j < k && e == DecoderError::UnexpectedEndOfStreamMarker
                    && rd16_data(*final(u15s)) == d0.skip(8 * j as int)
                    && wr8_data(*final(bytes)) == o0 + blocks_bytes(d0, j)
                    && wr8_state(*final(bytes)) == wr8_state(*old(bytes)).aborted(),
            }
        }),
{
    let ghost d0 = rd16_data(*u15s);
    let ghost o0 = wr8_data(*bytes);
    let ghost cap = wr8_capacity(*bytes);
    let ghost due: nat = blocks_due(d0.len(), fin);
    let mut out: Vec<u8> = Vec::with_capacity(BLOCK_BYTES);
    let mut backpressure = false;
    let ghost mut k: nat = 0;
    proof {
        assert(d0.skip(0) =~= d0);
        assert(o0 + blocks_bytes(d0, 0) =~= o0);
    }
    while !backpressure && rd16_len(u15s) > threshold
        invariant
            rd16_state(*u15s) == rd16_state(*old(u15s)),
            wr8_state(*bytes) == wr8_state(*old(bytes)),
            !wr8_state(*bytes).is_eof(),
            wr8_capacity(*bytes) == cap,
            cap == wr8_capacity(*old(bytes)),
            d0 == rd16_data(*old(u15s)),
            o0 == wr8_data(*old(bytes)),
            threshold == if fin { 8nat } else { 7nat },
            due == blocks_due(d0.len(), fin),
            k <= due,
            8 * k <= d0.len(),
            rd16_data(*u15s) == d0.skip(8 * k as int),
            first_short_block(d0, k) == k,
            wr8_data(*bytes) == o0 + blocks_bytes(d0, k),
            blocks_bytes(d0, k).len() == BLOCK_BYTES * k,
            k > 0 ==> (cap matches Some(c) ==> o0.len() + BLOCK_BYTES * k <= c),
            backpressure ==> (cap matches Some(c) && o0.len() + BLOCK_BYTES * k <= c && c < o0.len()
                + BLOCK_BYTES * k + BLOCK_BYTES),
            backpressure ==> k < due,
            !backpressure && rd16_data(*u15s).len() > threshold ==> k < due,
            !backpressure && rd16_data(*u15s).len() <= threshold ==> k == due,
        decreases rd16_data(*u15s).len(), if backpressure { 0int } else { 1int },
    {
        let free = wr8_free_space(bytes);
        let room = match free {
            Some(f) => f >= BLOCK_BYTES,
            None => true,
        };
        if !room {
            backpressure = true;
        } else {
            let data = rd16_slice(u15s);
            let block = &data[0..BLOCK_WORDS];
            assert(block@ =~= d0.subrange(8 * k as int, (8 * k + 8) as int));
            out.clear();
            match decode_full_block(block, &mut out) {
                Some(e) => {
                    wr8_abort(bytes);
                    proof {
                        assert(first_short_block(d0, k + 1) == k);
                        let kk = blocks_that_fit(8 * due, o0.len(), cap, BLOCK_BYTES as nat, BLOCK_WORDS as nat);
                        assert(k + 1 <= kk);
                        lemma_first_short_block_stable(d0, k + 1, kk);
                    }
                    return Err(e);
                },
                None => {},
            }
            wr8_append(bytes, out.as_slice());
            rd16_consume(u15s, BLOCK_WORDS);
            proof {
                assert(first_short_block(d0, k + 1) == k + 1);
                lemma_blocks_bytes_len(d0, k + 1);
                assert(wr8_data(*bytes) =~= o0 + blocks_bytes(d0, k + 1));
                assert(d0.skip(8 * k as int).skip(8) =~= d0.skip(8 * (k + 1) as int));
                k = k + 1;
            }
        }
    }
    proof {
        assert(k == blocks_that_fit(8 * due, o0.len(), cap, BLOCK_BYTES as nat, BLOCK_WORDS as nat));
    }
    Ok(backpressure)
}

/// Turns the words waiting in `u15s` into bytes on `bytes`: full blocks
/// while more words follow them, as many as the output has room for, then
/// the final chunk once the stream is known to end. Passes on pushes and
/// aborts; on a misplaced short word or bad padding, aborts the output and
/// reports it. Returns whether either pipe changed.
pub fn decode_u15_to_bytes(u15s: &mut PBufRd<'_, u16>, bytes: &mut PBufWr<'_, u8>) -> (r: Result<bool, DecoderError>)
    ensures
        ({
            let (res, d, s, o, w) = bytes_stage(
                rd16_data(*old(u15s)),
                rd16_state(*old(u15s)),
                wr8_data(*old(bytes)),
                wr8_state(*old(bytes)),
                wr8_capacity(*old(bytes)),
            );
            &&& rd16_data(*final(u15s)) == d
            &&& rd16_state(*final(u15s)) == s
            &&& wr8_data(*final(bytes)) == o
            &&& wr8_state(*final(bytes)) == w
            &&& match res {
                Ok(_) => r == Ok::<bool, DecoderError>(
                    d != rd16_data(*old(u15s)) || s != rd16_state(*old(u15s))
                        || o != wr8_data(*old(bytes)) || w != wr8_state(*old(bytes)),
                ),
                Err(e) => r == Err::<bool, DecoderError>(e),
            }
        }),
        wr8_capacity(*final(bytes)) == wr8_capacity(*old(bytes)),
{
    let len_before = rd16_len(u15s);
    let state_before = rd16_get_state(u15s);
    let ghost d0 = rd16_data(*u15s);
    let ghost o0 = wr8_data(*bytes);
    let ghost cap = wr8_capacity(*bytes);
    let mut appended = false;
    if state_before == PipeState::Aborting {
        rd16_consume_eof(u15s);
        wr8_abort(bytes);
    } else if !(state_before == PipeState::Aborted) {
        let is_final = {
            let data = rd16_slice(u15s);
            (len_before > 0 && data[len_before - 1] >= 0x8000) || state_before == PipeState::Closing
        };
        let threshold: usize = if is_final { BLOCK_WORDS } else { BLOCK_WORDS - 1 };
        let mut backpressure = false;
        if !wr8_is_eof(bytes) {
            match decode_blocks(u15s, bytes, threshold, Ghost(is_final)) {
                Ok(bp) => {
                    backpressure = bp;
                },
                Err(e) => {
                    return Err(e);
                },
            }
            appended = rd16_len(u15s) != len_before;
        } else {
            assert(d0.skip(0) =~= d0);
            assert(o0 + blocks_bytes(d0, 0) =~= o0);
        }
        if !backpressure && is_final {
            if wr8_is_eof(bytes) || rd16_len(u15s) > BLOCK_WORDS {
                wr8_abort(bytes);
                return Err(DecoderError::UnexpectedEndOfStreamMarker);
            }
            let free = wr8_free_space(bytes);
            let room = match free {
                Some(f) => f >= BLOCK_BYTES,
                None => true,
            };
            if room {
                let mut out: Vec<u8> = Vec::with_capacity(BLOCK_BYTES);
                let data = rd16_slice(u15s);
                let n = rd16_len(u15s);
                match decode_partial_final_chunk(data, &mut out) {
                    Err(e) => {
                        wr8_abort(bytes);
                        return Err(e);
                    },
                    Ok(_) => {},
                }
                assert(out@ =~= Seq::<u8>::empty() + out@);
                rd16_consume(u15s, n);
                rd16_consume_eof(u15s);
                wr8_append(bytes, out.as_slice());
                wr8_close(bytes);
                assert(rd16_data(*u15s) =~= Seq::<u16>::empty());
            }
        } else if rd16_consume_push(u15s) {
            wr8_push(bytes);
        }
    }
    let r = rd16_len(u15s) != len_before || !(rd16_get_state(u15s) == state_before) || appended;
    proof {
        if rd16_data(*u15s) == d0 {
            assert(rd16_data(*u15s).len() == len_before);
        }
        assert(blocks_bytes(d0, 0) =~= Seq::<u8>::empty());
        assert(o0 + Seq::<u8>::empty() =~= o0);
        assert(d0.skip(0) =~= d0);
    }
    Ok(r)
}

/// Streaming equals one-shot encoding: if everything the output pipe ever
/// received is the encoding of the bytes the stage has taken so far (whole
/// blocks, unless the input was closed and drained), one more call of the
/// stage keeps it so. Once the input is closed and drained, the output has
/// therefore received the encoding of the whole input, whatever the
/// schedule and the capacities.
pub proof fn lemma_encode_stage_streams(
    taken: Seq<u8>,
    data: Seq<u8>,
    state: PipeState,
    received: Seq<u16>,
    out: Seq<u16>,
    out_state: PipeState,
    capacity: Option<nat>,
)
    requires
        taken.len() % (BLOCK_BYTES as nat) == 0 || (state == PipeState::Closed && data.len() == 0),
        received + out == encode_units(taken),
    ensures
        ({
            let (data2, state2, out2, _) = encode_stage(data, state, out, out_state, capacity);
            let taken2 = taken + data.take(data.len() - data2.len());
            &&& data.len() >= data2.len()
            &&& data == data.take(data.len() - data2.len()) + data2
            &&& received + out2 == encode_units(taken2)
            &&& taken2.len() % (BLOCK_BYTES as nat) == 0 || (state2 == PipeState::Closed && data2.len() == 0)
        }),
{
    let (data2, state2, out2, _) = encode_stage(data, state, out, out_state, capacity);
    let state1 = state.push_consumed();
    let out_state1 = if state == PipeState::Push { out_state.pushed() } else { out_state };
    if state1 == PipeState::Aborting || state1.is_aborted() || out_state1.is_eof() {
        assert(data.take(0) =~= Seq::<u8>::empty());
        assert(taken + Seq::<u8>::empty() =~= taken);
        assert(data.take(0) + data =~= data);
    } else {
        let k = blocks_that_fit(data.len(), out.len(), capacity, BLOCK_WORDS as nat, BLOCK_BYTES as nat);
        let blocks = data.take(BLOCK_BYTES * k);
        let rest = data.skip(BLOCK_BYTES * k);
        assert(blocks + rest =~= data);
        if taken.len() % (BLOCK_BYTES as nat) != 0 {
            assert(data =~= Seq::<u8>::empty());
            assert(k == 0);
            assert(blocks =~= Seq::<u8>::empty());
            assert(encode_units(Seq::<u8>::empty()) =~= Seq::<u16>::empty()) by {
                assert(crate::codec::u15_words(Seq::<u8>::empty()) =~= Seq::<u16>::empty());
            }
            assert(out + encode_units(blocks) =~= out);
            assert(data.take(0) =~= Seq::<u8>::empty());
            assert(taken + Seq::<u8>::empty() =~= taken);
        } else {
            lemma_blockwise(taken, blocks);
            assert((taken + blocks).len() % (BLOCK_BYTES as nat) == 0) by {
                assert(blocks.len() == BLOCK_BYTES * k);
            }
            if data2 == rest {
                assert(data.take(data.len() - data2.len()) =~= blocks);
                assert(received + out2 =~= encode_units(taken + blocks));
            } else {
                assert(data.take(data.len() - data2.len()) =~= data);
                lemma_blockwise(taken + blocks, rest);
                assert(encode_units(rest) == chunk_units(rest));
                assert(taken + blocks + rest =~= taken + data);
                assert(received + out2 =~= encode_units(taken + data));
                assert(data.take(data.len() - data2.len()) + data2 =~= data);
            }
        }
    }
}

/// The encoding stage does not stall: with room for 8 more code units and a
/// full block waiting, or a close waiting, it takes input.
pub proof fn lemma_encode_stage_progress(
    data: Seq<u8>,
    state: PipeState,
    out: Seq<u16>,
    out_state: PipeState,
    capacity: Option<nat>,
)
    requires
        !state.is_aborted(),
        !out_state.is_eof(),
        has_room(out.len(), capacity, BLOCK_WORDS as nat),
        data.len() >= BLOCK_BYTES || state == PipeState::Closing,
    ensures
        ({
            let (data2, state2, _, _) = encode_stage(data, state, out, out_state, capacity);
            data2.len() < data.len() || state2 != state
        }),
{
    let k = blocks_that_fit(data.len(), out.len(), capacity, BLOCK_WORDS as nat, BLOCK_BYTES as nat);
    if data.len() >= BLOCK_BYTES {
        assert(k >= 1);
    } else {
        assert(k == 0);
        assert(data.take(0) =~= Seq::<u8>::empty());
        assert(encode_units(Seq::<u8>::empty()) =~= Seq::<u16>::empty()) by {
            assert(crate::codec::u15_words(Seq::<u8>::empty()) =~= Seq::<u16>::empty());
        }
        assert(out + encode_units(data.take(0)) =~= out);
    }
}

/// The look-up stage does not stall: with room for one more word and a code
/// unit waiting, it takes input or reports an error.
pub proof fn lemma_translate_stage_progress(
    data: Seq<u16>,
    state: PipeState,
    out: Seq<u16>,
    out_state: PipeState,
    capacity: Option<nat>,
)
    requires
        !state.is_aborted(),
        !out_state.is_eof(),
        has_room(out.len(), capacity, 1),
        data.len() > 0,
    ensures
        ({
            let (res, data2, _, _, _) = translate_stage(data, state, out, out_state, capacity);
            res is Err || data2.len() < data.len()
        }),
{
}

/// The byte stage does not stall: with room for 15 more bytes and either a
/// full block followed by more words, or the stream's last words, waiting,
/// it takes input or reports an error.
pub proof fn lemma_bytes_stage_progress(
    data: Seq<u16>,
    state: PipeState,
    out: Seq<u8>,
    out_state: PipeState,
    capacity: Option<nat>,
)
    requires
        !state.is_aborted(),
        !out_state.is_eof(),
        has_room(out.len(), capacity, BLOCK_BYTES as nat),
        data.len() > BLOCK_WORDS || (is_final_words(data, state) && data.len() > 0),
    ensures
        ({
            let (res, data2, _, _, _) = bytes_stage(data, state, out, out_state, capacity);
            res is Err || data2.len() < data.len()
        }),
{
    let fin = is_final_words(data, state);
    let due = blocks_due(data.len(), fin);
    let k = blocks_that_fit(8 * due, out.len(), capacity, BLOCK_BYTES as nat, BLOCK_WORDS as nat);
    if data.len() > BLOCK_WORDS {
        assert(due >= 1);
        assert(k >= 1);
        if first_short_block(data, k) == k {
            assert(data.skip(8 * k as int).len() < data.len());
        }
    } else {
        assert(due == 0);
        assert(k == 0);
        assert(blocks_bytes(data, 0) =~= Seq::<u8>::empty());
        assert(out + blocks_bytes(data, 0) =~= out);
        assert(data.skip(0) =~= data);
    }
}

/// The UTF-8 bytes of a code unit that is not a surrogate.
pub open spec fn utf8_of(c: u16) -> Seq<u8> {
    if c < 0x80 {
        seq![c as u8]
    } else if c < 0x800 {
        seq![(0xC0 | (c >> 6u16)) as u8, (0x80 | (c & 0x3F)) as u8]
    } else {
        seq![(0xE0 | (c >> 12u16)) as u8, (0x80 | ((c >> 6u16) & 0x3F)) as u8, (0x80 | (c & 0x3F)) as u8]
    }
}

/// The UTF-8 bytes of a sequence of code units that holds no surrogate.
pub open spec fn utf8_units(us: Seq<u16>) -> Seq<u8>
    decreases us.len(),
{
    if us.len() == 0 {
        seq![]
    } else {
        utf8_units(us.drop_last()) + utf8_of(us.last())
    }
}

/// UTF-8 encoding works unit by unit.
pub proof fn lemma_utf8_units_append(a: Seq<u16>, b: Seq<u16>)
    ensures
        utf8_units(a + b) == utf8_units(a) + utf8_units(b),
    decreases b.len(),
{
    if b.len() == 0 {
        assert(a + b =~= a);
        assert(utf8_units(a) + Seq::<u8>::empty() =~= utf8_units(a));
    } else {
        lemma_utf8_units_append(a, b.drop_last());
        assert((a + b).drop_last() =~= a + b.drop_last());
        assert(utf8_units(a) + utf8_units(b.drop_last()) + utf8_of(b.last())
            =~= utf8_units(a) + (utf8_units(b.drop_last()) + utf8_of(b.last())));
    }
}

/// Each code unit takes at most 3 bytes.
proof fn lemma_utf8_units_len(us: Seq<u16>)
    ensures
        utf8_units(us).len() <= 3 * us.len(),
    decreases us.len(),
{
    if us.len() > 0 {
        lemma_utf8_units_len(us.drop_last());
    }
}

/// Appends the UTF-8 bytes of code units that hold no surrogate.
fn push_utf8(units: &[u16], out: &mut Vec<u8>)
    ensures
        final(out)@ == old(out)@ + utf8_units(units@),
{
    let mut i: usize = 0;
    assert(units@.take(0) =~= Seq::<u16>::empty());
    while i < units.len()
        invariant
            i <= units@.len(),
            out@ == old(out)@ + utf8_units(units@.take(i as int)),
        decreases units@.len() - i,
    {
        let c = units[i];
        let ghost before = out@;
        if c < 0x80 {
            out.push(c as u8);
        } else if c < 0x800 {
            out.push((0xC0 | (c >> 6u16)) as u8);
            out.push((0x80 | (c & 0x3F)) as u8);
        } else {
            out.push((0xE0 | (c >> 12u16)) as u8);
            out.push((0x80 | ((c >> 6u16) & 0x3F)) as u8);
            out.push((0x80 | (c & 0x3F)) as u8);
        }
        assert(out@ =~= before + utf8_of(c));
        assert(units@.take(i + 1).drop_last() =~= units@.take(i as int));
        i = i + 1;
    }
    assert(units@.take(i as int) =~= units@);
}

/// Appends the UTF-8 bytes of the code units of a full block of 15 bytes.
fn encode_full_block_utf8(tables: &Tables, src: &[u8], dst: &mut Vec<u8>)
    requires
        tables.wf(),
        src@.len() == BLOCK_BYTES,
    ensures
        final(dst)@ == old(dst)@ + utf8_units(chunk_units(src@)),
{
    let mut units: Vec<u16> = Vec::with_capacity(BLOCK_WORDS);
    encode_full_block(tables, src, &mut units);
    assert(units@ =~= chunk_units(src@));
    push_utf8(units.as_slice(), dst);
}

/// Appends the UTF-8 bytes of the code units of a final partial block.
fn encode_partial_block_utf8(tables: &Tables, src: &[u8], dst: &mut Vec<u8>)
    requires
        tables.wf(),
        src@.len() <= BLOCK_BYTES,
    ensures
        final(dst)@ == old(dst)@ + utf8_units(chunk_units(src@)),
{
    let mut units: Vec<u16> = Vec::with_capacity(BLOCK_WORDS);
    encode_partial_block(tables, src, &mut units);
    assert(units@ =~= chunk_units(src@));
    push_utf8(units.as_slice(), dst);
}

/// Bytes of output room that the UTF-8 stage asks for before each block.
pub const UTF8_BLOCK_ROOM: usize = 24;

/// How many full blocks the UTF-8 stage encodes from `data` when the output
/// holds `out_len` bytes: one more while a block waits and the output has
/// room for 24 more bytes.
pub open spec fn utf8_blocks_that_fit(data: Seq<u8>, out_len: nat, capacity: Option<nat>) -> nat
    decreases data.len(),
{
    if data.len() < BLOCK_BYTES {
        0
    } else if !has_room(out_len, capacity, UTF8_BLOCK_ROOM as nat) {
        0
    } else {
        1 + utf8_blocks_that_fit(
            data.skip(BLOCK_BYTES as int),
            out_len + utf8_units(chunk_units(data.take(BLOCK_BYTES as int))).len(),
            capacity,
        )
    }
}

/// What the UTF-8 encoding stage does to its pipes: the input's data and
/// state, then the output's data and state.
pub open spec fn encode_utf8_stage(
    data: Seq<u8>,
    state: PipeState,
    out: Seq<u8>,
    out_state: PipeState,
    capacity: Option<nat>,
) -> (Seq<u8>, PipeState, Seq<u8>, PipeState) {
    let state1 = state.push_consumed();
    let out_state1 = if state == PipeState::Push { out_state.pushed() } else { out_state };
    if state1 == PipeState::Aborting {
        (data, PipeState::Aborted, out, out_state1.aborted())
    } else if state1.is_aborted() || out_state1.is_eof() {
        (data, state1, out, out_state1)
    } else {
        let k = utf8_blocks_that_fit(data, out.len(), capacity);
        let out2 = out + utf8_units(encode_units(data.take(BLOCK_BYTES * k)));
        let rest = data.skip(BLOCK_BYTES * k);
        if rest.len() < BLOCK_BYTES && state1 == PipeState::Closing && has_room(
            out2.len(),
            capacity,
            UTF8_BLOCK_ROOM as nat,
        ) {
            (Seq::empty(), PipeState::Closed, out2 + utf8_units(chunk_units(rest)), out_state1.closed())
        } else {
            (rest, state1, out2, out_state1)
        }
    }
}

/// Encodes the bytes waiting in `bytes` straight into the UTF-8 form of
/// their code units on `base32768`, a block at a time while the output has
/// room for 24 more bytes, and the final partial block once the input is
/// closed. Passes on pushes and aborts. Returns whether either pipe changed.
pub fn encode_bytes_to_base32768_utf8(
    tables: &Tables,
    bytes: &mut PBufRd<'_, u8>,
    base32768: &mut PBufWr<'_, u8>,
) -> (r: bool)
    requires
        tables.wf(),
    ensures
        (rd8_data(*final(bytes)), rd8_state(*final(bytes)), wr8_data(*final(base32768)), wr8_state(*final(base32768)))
            == encode_utf8_stage(
            rd8_data(*old(bytes)),
            rd8_state(*old(bytes)),
            wr8_data(*old(base32768)),
            wr8_state(*old(base32768)),
            wr8_capacity(*old(base32768)),
        ),
        wr8_capacity(*final(base32768)) == wr8_capacity(*old(base32768)),
        r == (rd8_data(*final(bytes)) != rd8_data(*old(bytes)) || rd8_state(*final(bytes)) != rd8_state(*old(bytes))
            || wr8_data(*final(base32768)) != wr8_data(*old(base32768))
            || wr8_state(*final(base32768)) != wr8_state(*old(base32768))),
{
    let ghost d0 = rd8_data(*bytes);
    let ghost o0 = wr8_data(*base32768);
    let ghost cap = wr8_capacity(*base32768);
    let len_before = rd8_len(bytes);
    let state_before = rd8_get_state(bytes);
    let mut appended = false;
    if rd8_consume_push(bytes) {
        wr8_push(base32768);
    }
    let state1 = rd8_get_state(bytes);
    if state1 == PipeState::Aborting {
        rd8_consume_eof(bytes);
        wr8_abort(base32768);
    } else if !(state1 == PipeState::Aborted) && !wr8_is_eof(base32768) {
        let ghost w1 = wr8_state(*base32768);
        let mut out: Vec<u8> = Vec::with_capacity(UTF8_BLOCK_ROOM);
        let mut backpressure = false;
        let ghost mut k: nat = 0;
        proof {
            assert(d0.skip(0) =~= d0);
            assert(d0.take(0) =~= Seq::<u8>::empty());
            assert(encode_units(Seq::<u8>::empty()) =~= Seq::<u16>::empty()) by {
                assert(crate::codec::u15_words(Seq::<u8>::empty()) =~= Seq::<u16>::empty());
            }
            assert(o0 + utf8_units(encode_units(d0.take(0))) =~= o0);
        }
        while !backpressure && rd8_len(bytes) >= BLOCK_BYTES
            invariant
                tables.wf(),
                rd8_state(*bytes) == state1,
                wr8_state(*base32768) == w1,
                !w1.is_eof(),
                wr8_capacity(*base32768) == cap,
                BLOCK_BYTES * k <= d0.len(),
                rd8_data(*bytes) == d0.skip(BLOCK_BYTES * k),
                wr8_data(*base32768) == o0 + utf8_units(encode_units(d0.take(BLOCK_BYTES * k))),
                utf8_blocks_that_fit(d0, o0.len(), cap) == k + utf8_blocks_that_fit(
                    d0.skip(BLOCK_BYTES * k),
                    wr8_data(*base32768).len(),
                    cap,
                ) || backpressure,
                backpressure ==> utf8_blocks_that_fit(d0, o0.len(), cap) == k,
                backpressure ==> !has_room(wr8_data(*base32768).len(), cap, UTF8_BLOCK_ROOM as nat),
                appended == (k > 0),
            decreases rd8_data(*bytes).len(), if backpressure { 0int } else { 1int },
        {
            let free = wr8_free_space(base32768);
            let room = match free {
                Some(f) => f >= UTF8_BLOCK_ROOM,
                None => true,
            };
            if !room {
                backpressure = true;
            } else {
                let data = rd8_slice(bytes);
                let block = &data[0..BLOCK_BYTES];
                out.clear();
                encode_full_block_utf8(tables, block, &mut out);
                proof {
                    let done = d0.take(BLOCK_BYTES * k);
                    let rest = d0.skip(BLOCK_BYTES * k);
                    assert(block@ =~= rest.take(BLOCK_BYTES as int));
                    assert(done + block@ =~= d0.take(BLOCK_BYTES * (k + 1)));
                    lemma_blockwise(done, block@);
                    assert(encode_units(block@) == chunk_units(block@));
                    lemma_utf8_units_append(encode_units(done), chunk_units(block@));
                    lemma_utf8_units_len(chunk_units(block@));
                    assert(rest.skip(BLOCK_BYTES as int) =~= d0.skip(BLOCK_BYTES * (k + 1)));
                }
                wr8_append(base32768, out.as_slice());
                rd8_consume(bytes, BLOCK_BYTES);
                proof {
                    assert(wr8_data(*base32768) =~= o0 + utf8_units(encode_units(d0.take(BLOCK_BYTES * (k + 1)))));
                    k = k + 1;
                }
                appended = true;
            }
        }
        proof {
            if !backpressure {
                assert(utf8_blocks_that_fit(d0.skip(BLOCK_BYTES * k), wr8_data(*base32768).len(), cap) == 0);
            }
            assert(utf8_blocks_that_fit(d0, o0.len(), cap) == k);
        }
        if !backpressure && state1 == PipeState::Closing {
            let free = wr8_free_space(base32768);
            let room = match free {
                Some(f) => f >= UTF8_BLOCK_ROOM,
                None => true,
            };
            if room {
                let data = rd8_slice(bytes);
                let n = rd8_len(bytes);
                out.clear();
                encode_partial_block_utf8(tables, data, &mut out);
                proof {
                    lemma_utf8_units_len(chunk_units(data@));
                }
                rd8_consume(bytes, n);
                wr8_append(base32768, out.as_slice());
                rd8_consume_eof(bytes);
                wr8_close(base32768);
                assert(rd8_data(*bytes) =~= Seq::<u8>::empty());
            }
        }
    }
    let r = rd8_len(bytes) != len_before || !(rd8_get_state(bytes) == state_before) || appended;
    proof {
        if rd8_data(*bytes) == d0 {
            assert(rd8_data(*bytes).len() == len_before);
        }
    }
    r
}

/// Looking code units up works unit by unit: two streams that look up
/// cleanly give, together, the two word streams one after the other.
proof fn lemma_units_to_words_append(a: Seq<u16>, b: Seq<u16>)
    requires
        units_to_words(a) is Ok,
        units_to_words(b) is Ok,
    ensures
        units_to_words(a + b) == Ok::<Seq<u16>, DecoderError>(units_to_words(a)->Ok_0 + units_to_words(b)->Ok_0),
{
    crate::codec::lemma_first_invalid(a);
    crate::codec::lemma_first_invalid(b);
    let ab = a + b;
    assert forall|i: int| 0 <= i < ab.len() implies crate::codec::is_valid_unit(#[trigger] ab[i]) by {
        if i >= a.len() {
            assert(ab[i] == b[i - a.len()]);
        }
    }
    lemma_no_invalid(ab);
    assert(ab.map_values(|u: u16| crate::codec::word_of(u))
        =~= a.map_values(|u: u16| crate::codec::word_of(u)) + b.map_values(|u: u16| crate::codec::word_of(u)));
}

/// The look-up stage streams: if everything its output ever received is the
/// look-up of the code units it has taken so far, one more call that
/// succeeds keeps it so.
pub proof fn lemma_translate_stage_streams(
    taken: Seq<u16>,
    data: Seq<u16>,
    state: PipeState,
    received: Seq<u16>,
    out: Seq<u16>,
    out_state: PipeState,
    capacity: Option<nat>,
)
    requires
        units_to_words(taken) == Ok::<Seq<u16>, DecoderError>(received + out),
    ensures
        ({
            let (res, data2, _, out2, _) = translate_stage(data, state, out, out_state, capacity);
            let consumed = data.take(data.len() - data2.len());
            res is Ok ==> data.len() >= data2.len() && data == consumed + data2
                && units_to_words(taken + consumed) == Ok::<Seq<u16>, DecoderError>(received + out2)
        }),
{
    let (res, data2, _, out2, _) = translate_stage(data, state, out, out_state, capacity);
    if res is Ok && state != PipeState::Aborting {
        let n: nat = if state.is_aborted() || out_state.is_eof() {
            0
        } else {
            match capacity {
                Some(c) => if c < out.len() {
                    0
                } else if c - out.len() < data.len() {
                    (c - out.len()) as nat
                } else {
                    data.len()
                },
                None => data.len(),
            }
        };
        assert(units_to_words(data.take(n as int)) is Ok);
        assert(data2 == data.skip(n as int));
        assert(data.len() - data2.len() == n);
        let consumed = data.take(n as int);
        assert(consumed + data2 =~= data);
        lemma_units_to_words_append(taken, consumed);
        assert(received + out2 =~= received + out + units_to_words(consumed)->Ok_0);
    } else if res is Ok {
        assert(data.take(0) =~= Seq::<u16>::empty());
        assert(taken + Seq::<u16>::empty() =~= taken);
        assert(data.take(0) + data =~= data);
    }
}

/// The look-up stage rejects a code unit outside the alphabets: when the
/// first such unit waits within the room the output has, the stage reports
/// it, leaves its input as it was, writes nothing and aborts its output.
pub proof fn lemma_translate_stage_rejects(
    data: Seq<u16>,
    state: PipeState,
    out: Seq<u16>,
    out_state: PipeState,
    capacity: Option<nat>,
    p: int,
)
    requires
        !state.is_aborted(),
        !out_state.is_eof(),
        0 <= p < data.len(),
        has_room(out.len(), capacity, (p + 1) as nat),
        !crate::codec::is_valid_unit(data[p]),
        forall|i: int| 0 <= i < p ==> crate::codec::is_valid_unit(#[trigger] data[i]),
    ensures
        translate_stage(data, state, out, out_state, capacity) == (
            Err::<(), DecoderError>(DecoderError::InvalidCodePoint(data[p])),
            data,
            state,
            out,
            out_state.aborted(),
        ),
{
    let n: nat = match capacity {
        Some(c) => if c < out.len() {
            0
        } else if c - out.len() < data.len() {
            (c - out.len()) as nat
        } else {
            data.len()
        },
        None => data.len(),
    };
    let t = data.take(n as int);
    assert(n > p);
    crate::codec::lemma_first_invalid(t);
    assert(!crate::codec::is_valid_unit(t[p]));
    assert(first_invalid(t) is Some);
    let q = first_invalid(t)->0;
    if q < p {
        assert(t[q] == data[q]);
    }
    assert(q == p);
}

/// The code units the encoding stage hands out when it is called again and
/// again on input `data` in state `state`, its output drained after every
/// call: at most `fuel` calls, stopping at the first call that changes
/// nothing.
pub open spec fn drained_run(
    data: Seq<u8>,
    state: PipeState,
    out_state: PipeState,
    capacity: Option<nat>,
    fuel: nat,
) -> Seq<u16>
    decreases fuel,
{
    if fuel == 0 {
        seq![]
    } else {
        let (data2, state2, out2, out_state2) = encode_stage(data, state, Seq::empty(), out_state, capacity);
        if data2 == data && state2 == state && out2.len() == 0 && out_state2 == out_state {
            seq![]
        } else {
            out2 + drained_run(data2, state2, out_state2, capacity, (fuel - 1) as nat)
        }
    }
}

/// Streaming a closed input through the encoding stage, with room for at
/// least 8 code units and the output drained after every call, comes to
/// rest within `n / 15 + 2` calls for `n` bytes, and hands out exactly the
/// one-shot encoding of the input.
pub proof fn lemma_drained_run(data: Seq<u8>, capacity: Option<nat>, fuel: nat)
    requires
        capacity matches Some(c) ==> c >= BLOCK_WORDS,
        fuel >= data.len() / (BLOCK_BYTES as nat) + 2,
    ensures
        drained_run(data, PipeState::Closing, PipeState::Open, capacity, fuel) == encode_units(data),
    decreases data.len(),
{
    let empty = Seq::<u16>::empty();
    let (data2, state2, out2, out_state2) = encode_stage(data, PipeState::Closing, empty, PipeState::Open, capacity);
    let k = blocks_that_fit(data.len(), 0, capacity, BLOCK_WORDS as nat, BLOCK_BYTES as nat);
    let blocks = data.take(BLOCK_BYTES * k);
    let rest = data.skip(BLOCK_BYTES * k);
    assert(blocks + rest =~= data);
    assert(blocks.len() % (BLOCK_BYTES as nat) == 0) by {
        assert(blocks.len() == BLOCK_BYTES * k);
    }
    lemma_blockwise(blocks, rest);
    assert(empty + encode_units(blocks) =~= encode_units(blocks));
    let after_close = encode_stage(Seq::<u8>::empty(), PipeState::Closed, empty, PipeState::Closing, capacity);
    assert(after_close == (Seq::<u8>::empty(), PipeState::Closed, empty, PipeState::Closing));
    if data.len() >= BLOCK_BYTES {
        assert(k >= 1);
    } else {
        assert(k == 0);
    }
    if rest.len() < BLOCK_BYTES && has_room(encode_units(blocks).len(), capacity, BLOCK_WORDS as nat) {
        assert(encode_units(rest) == chunk_units(rest));
        assert(out2 == encode_units(data));
        assert(drained_run(Seq::<u8>::empty(), PipeState::Closed, PipeState::Closing, capacity, (fuel - 1) as nat)
            =~= empty) by {
            if fuel - 1 > 0 {
            }
        }
        assert(out2 + empty =~= out2);
    } else {
        assert(data2 == rest);
        assert(k >= 1) by {
            if k == 0 {
                assert(blocks =~= Seq::<u8>::empty());
                assert(encode_units(Seq::<u8>::empty()) =~= Seq::<u16>::empty()) by {
                    assert(crate::codec::u15_words(Seq::<u8>::empty()) =~= Seq::<u16>::empty());
                }
            }
        }
        assert(rest.len() < data.len());
        assert(rest.len() / (BLOCK_BYTES as nat) + 2 <= (fuel - 1) as nat);
        lemma_drained_run(rest, capacity, (fuel - 1) as nat);
    }
}

} // verus!
