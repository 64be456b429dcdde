//! The block-buffered reader: pulls code units from a source a batch at a
//! time, decodes each batch into a byte buffer, and hands the bytes out.
use vstd::prelude::*;
use vstd::std_specs::iter::IteratorSpec;
use crate::alphabet::{Tables, INVALID};
use crate::codec::{
    blocks_bytes, decode_full_block, decode_partial_final_chunk, decode_unit, final_chunk_bytes,
    first_invalid, full_chunk_bytes, is_short, is_valid_unit, lemma_blocks_bytes_len,
    lemma_first_invalid, short_before_last, units_to_words, word_of, words_to_bytes, BLOCK_WORDS,
    DecoderError,
};
use crate::laws::{lemma_no_invalid, lemma_units_to_words, lemma_words_round_trip};

verus! {

/// A fixed-size byte buffer with a filled and a consumed cursor.
pub struct Buffer<const N: usize> {
    buf: Vec<u8>,
    filled: usize,
    consumed: usize,
}

impl<const N: usize> Buffer<N> {
    /// The cursors stay within the bytes held, and at most `N` bytes count.
    pub closed spec fn wf(&self) -> bool {
        &&& self.consumed <= self.filled <= self.buf@.len()
        &&& self.filled <= N
    }

    /// The bytes filled in and not yet consumed.
    pub closed spec fn pending(&self) -> Seq<u8> {
        self.buf@.subrange(self.consumed as int, self.filled as int)
    }

    /// The bytes held in the storage, filled or not.
    pub closed spec fn storage(&self) -> Seq<u8> {
        self.buf@
    }

    /// An empty buffer.
    pub fn new() -> (r: Self)
        ensures
            r.wf(),
            r.pending() == Seq::<u8>::empty(),
    {
        let r = Buffer { buf: Vec::with_capacity(N), filled: 0, consumed: 0 };
        assert(r.pending() =~= Seq::<u8>::empty());
        r
    }

    /// Whether every filled byte has been consumed.
    pub fn is_all_consumed(&self) -> (r: bool)
        requires
            self.wf(),
        ensures
            r == (self.pending().len() == 0),
    {
        self.consumed >= self.filled
    }

    /// The bytes filled in and not yet consumed.
    pub fn as_slice(&self) -> (r: &[u8])
        requires
            self.wf(),
        ensures
            r@ == self.pending(),
    {
        slice_of(&self.buf, self.consumed, self.filled)
    }

    /// Empties the buffer and hands out its storage to be filled in again.
    pub fn clear_and_get_mut(&mut self) -> (r: &mut Vec<u8>)
        ensures
            r@ == Seq::<u8>::empty(),
            final(self).wf(),
            final(self).pending() == Seq::<u8>::empty(),
            final(self).consumed_count() == 0,
            final(self).storage() == final(r)@,
    {
        self.filled = 0;
        self.consumed = 0;
        self.buf.clear();
        &mut self.buf
    }

    /// How many bytes of the storage have been consumed.
    pub closed spec fn consumed_count(&self) -> nat {
        self.consumed as nat
    }

    /// Marks the first `amt` bytes of the storage (at most `N`) as filled,
    /// keeping the consumed cursor.
    pub fn set_filled(&mut self, amt: usize)
        requires
            old(self).wf(),
            amt <= old(self).storage().len(),
            old(self).consumed_count() <= if amt < N { amt as nat } else { N as nat },
        ensures
            final(self).wf(),
            final(self).storage() == old(self).storage(),
            final(self).consumed_count() == old(self).consumed_count(),
            final(self).pending() == old(self).storage().subrange(
                old(self).consumed_count() as int,
                if amt < N { amt as int } else { N as int },
            ),
    {
        self.filled = if amt < N { amt } else { N };
    }

    /// Consumes `amt` bytes, or every byte left if fewer remain.
    pub fn consume(&mut self, amt: usize)
        requires
            old(self).wf(),
        ensures
            final(self).wf(),
            final(self).storage() == old(self).storage(),
            final(self).pending() == old(self).pending().skip(
                if amt < old(self).pending().len() { amt as int } else { old(self).pending().len() as int },
            ),
    {
        if amt < self.filled - self.consumed {
            self.consumed = self.consumed + amt;
        } else {
            self.consumed = self.filled;
        }
        assert(self.pending() =~= old(self).pending().skip(
            if amt < old(self).pending().len() { amt as int } else { old(self).pending().len() as int },
        ));
    }

    /// Hands the next `amt` bytes to `f` and consumes them, if that many are
    /// filled in; otherwise leaves the buffer as it is.
    pub fn consume_with<F: FnOnce(&[u8])>(&mut self, amt: usize, f: F) -> (r: bool)
        requires
            old(self).wf(),
            forall|s: &[u8]| s@.len() == amt ==> f.requires((s,)),
        ensures
            final(self).wf(),
            final(self).storage() == old(self).storage(),
            r == (amt <= old(self).pending().len()),
            r ==> final(self).pending() == old(self).pending().skip(amt as int),
            r ==> exists|s: &[u8]| s@ == old(self).pending().take(amt as int) && #[trigger] f.ensures((s,), ()),
            !r ==> final(self).pending() == old(self).pending(),
    {
        if amt <= self.filled - self.consumed {
            let claimed = slice_of(&self.buf, self.consumed, self.consumed + amt);
            f(claimed);
            assert(claimed@ =~= old(self).pending().take(amt as int));
            self.consumed = self.consumed + amt;
            assert(self.pending() =~= old(self).pending().skip(amt as int));
            true
        } else {
            false
        }
    }
}

/// The bytes of `v` from `lo` up to `hi`.
fn slice_of(v: &Vec<u8>, lo: usize, hi: usize) -> (r: &[u8])
    requires
        lo <= hi <= v@.len(),
    ensures
        r@ == v@.subrange(lo as int, hi as int),
{
    &v.as_slice()[lo..hi]
}

/// Code units read in one refill of a buffer of `count` bytes.
pub open spec fn u15_count(count: nat) -> nat {
    count / 15 * 8
}

/// Number of code units that decode to `count` bytes in full blocks.
fn byte_count_to_u15_count(count: usize) -> (r: usize)
    ensures
        r == u15_count(count as nat),
{
    count / 15 * 8
}

/// What one refill yields from the words `ws` of a batch read with room for
/// `count` code units: whole blocks while the batch is full and ends in a
/// primary word; otherwise whole blocks, then the final chunk of 1 to 8
/// words.
pub open spec fn refill_bytes(ws: Seq<u16>, count: nat) -> Result<Seq<u8>, DecoderError> {
    if ws.len() == 0 {
        Ok(seq![])
    } else if short_before_last(ws) {
        Err(DecoderError::UnexpectedEndOfStreamMarker)
    } else if ws.len() == count && !is_short(ws.last()) {
        Ok(blocks_bytes(ws, count / 8))
    } else {
        let k: nat = ((ws.len() - 1) / 8) as nat;
        match final_chunk_bytes(ws.skip(8 * k as int)) {
            Ok(t) => Ok(blocks_bytes(ws, k) + t),
            Err(e) => Err(e),
        }
    }
}

/// Whether the stream may go on after a refill that read the words `ws`.
pub open spec fn refill_keeps_open(ws: Seq<u16>, count: nat) -> bool {
    ws.len() == count && ws.len() > 0 && !short_before_last(ws) && !is_short(ws.last())
}

/// Why reading failed: the code units did not decode, or the stream ended
/// before the bytes asked for.
#[derive(Clone, Debug, PartialEq, Eq, Structural)]
pub enum ReadError {
    Decode(DecoderError),
    UnexpectedEof,
}

/// A reader that pulls code units from `iter` and decodes them a batch at a
/// time into a buffer of `N` bytes.
pub struct ReadDecoder<'t, I, const N: usize> {
    buf: Buffer<N>,
    closed: bool,
    tables: &'t Tables,
    pulled: Ghost<Seq<u16>>,
    produced: Ghost<Seq<u8>>,
    iter: I,
}

/// Whether a short word stands before the last of `ws`.
fn has_short_before_last(ws: &Vec<u16>) -> (r: bool)
    ensures
        r == short_before_last(ws@),
{
    if ws.len() == 0 {
        return false;
    }
    let mut i: usize = 0;
    while i < ws.len() - 1
        invariant
            ws@.len() >= 1,
            i <= ws@.len() - 1,
            forall|j: int| 0 <= j < i ==> !is_short(#[trigger] ws@[j]),
        decreases ws@.len() - i,
    {
        if ws[i] >= 0x8000 {
            assert(is_short(ws@[i as int]));
            return true;
        }
        i = i + 1;
    }
    false
}

/// What a refill that pulled `batch` left behind: its result, the bytes it
/// filled in, and whether the decoder is closed afterwards.
pub open spec fn refilled(
    batch: Seq<u16>,
    count: nat,
    r: Result<(), DecoderError>,
    pending: Seq<u8>,
    closed: bool,
) -> bool {
    match units_to_words(batch) {
        Err(e) => r == Err::<(), DecoderError>(e) && closed && pending.len() == 0
            && first_invalid(batch) == Some(batch.len() - 1) && batch.len() <= count,
        Ok(ws) => batch.len() <= count && match refill_bytes(ws, count) {
            Ok(b) => r is Ok && pending == b && closed == !refill_keeps_open(ws, count),
            Err(e) => r == Err::<(), DecoderError>(e) && closed && pending.len() == 0,
        },
    }
}

/// The batch came off the front of what the source had left, `before`,
/// leaving `after`; and unless a code unit outside the alphabets cut it
/// short, it is `count` units, or all that was left if fewer.
pub open spec fn drawn(before: Seq<u16>, after: Seq<u16>, batch: Seq<u16>, count: nat) -> bool {
    &&& batch.len() <= before.len()
    &&& batch == before.take(batch.len() as int)
    &&& after == before.skip(batch.len() as int)
    &&& (units_to_words(batch) is Ok ==> batch.len() == if before.len() < count {
        before.len()
    } else {
        count
    })
}

/// The bytes that refills with room for `count` code units decode from the
/// units `us`, batch after batch, until a batch ends the stream or fails.
pub open spec fn batched_bytes(us: Seq<u16>, count: nat) -> Seq<u8>
    decreases us.len(),
{
    if count == 0 || us.len() == 0 {
        seq![]
    } else {
        let batch = us.take(if us.len() < count { us.len() as int } else { count as int });
        match units_to_words(batch) {
            Err(_) => seq![],
            Ok(ws) => match refill_bytes(ws, count) {
                Err(_) => seq![],
                Ok(b) => if refill_keeps_open(ws, count) {
                    b + batched_bytes(us.skip(count as int), count)
                } else {
                    b
                },
            },
        }
    }
}

/// The error that ends those refills, if one does.
pub open spec fn batched_error(us: Seq<u16>, count: nat) -> Option<DecoderError>
    decreases us.len(),
{
    if count == 0 || us.len() == 0 {
        None
    } else {
        let batch = us.take(if us.len() < count { us.len() as int } else { count as int });
        match units_to_words(batch) {
            Err(e) => Some(e),
            Ok(ws) => match refill_bytes(ws, count) {
                Err(e) => Some(e),
                Ok(_) => if refill_keeps_open(ws, count) {
                    batched_error(us.skip(count as int), count)
                } else {
                    None
                },
            },
        }
    }
}

/// The bytes a decoder will still hand out: those waiting, then, unless it
/// is closed, those that refills decode from what the source has left.
pub open spec fn ahead_bytes(pending: Seq<u8>, closed: bool, rest: Seq<u16>, count: nat) -> Seq<u8> {
    if closed {
        pending
    } else {
        pending + batched_bytes(rest, count)
    }
}

/// The error a decoder will still meet, after the bytes ahead of it.
pub open spec fn ahead_error(closed: bool, rest: Seq<u16>, count: nat) -> Option<DecoderError> {
    if closed {
        None
    } else {
        batched_error(rest, count)
    }
}

/// A refill that drew `batch` from what the source had left keeps the bytes
/// ahead as they were, or, when it fails, fails with the error that was
/// ahead, no byte coming first.
proof fn lemma_refill_ahead(
    rest: Seq<u16>,
    rest2: Seq<u16>,
    batch: Seq<u16>,
    count: nat,
    r: Result<(), DecoderError>,
    pending: Seq<u8>,
    closed: bool,
)
    requires
        count > 0,
        drawn(rest, rest2, batch, count),
        refilled(batch, count, r, pending, closed),
    ensures
        r is Ok ==> ahead_bytes(pending, closed, rest2, count) == batched_bytes(rest, count)
            && ahead_error(closed, rest2, count) == batched_error(rest, count),
        r matches Err(e) ==> batched_bytes(rest, count) == Seq::<u8>::empty() && batched_error(rest, count) == Some(e),
{
    if rest.len() == 0 {
        assert(batch =~= Seq::<u16>::empty());
        assert(batch.map_values(|u: u16| word_of(u)) =~= Seq::<u16>::empty());
        assert(pending =~= Seq::<u8>::empty());
    } else {
        let m = if rest.len() < count { rest.len() as int } else { count as int };
        let t = rest.take(m);
        match units_to_words(batch) {
            Err(e) => {
                lemma_first_invalid(batch);
                lemma_first_invalid(t);
                let p = batch.len() - 1;
                assert(batch.len() <= m);
                assert forall|i: int| 0 <= i < batch.len() implies #[trigger] t[i] == batch[i] by {}
                assert(!is_valid_unit(t[p]));
                assert(first_invalid(t) is Some);
                let q = first_invalid(t)->0;
                if q < p {
                    assert(t[q] == batch[q]);
                }
                assert(q == p);
            },
            Ok(ws) => {
                assert(batch =~= t);
                if refill_keeps_open(ws, count) {
                    assert(rest2 =~= rest.skip(count as int));
                }
            },
        }
    }
}

impl<'t, I: Iterator<Item = u16>, const N: usize> ReadDecoder<'t, I, N> {
    /// The decoder's buffer is sound and its tables are the alphabet.
    pub closed spec fn wf(&self) -> bool {
        &&& self.buf.wf()
        &&& self.tables.wf()
        &&& N % 15 == 0
        &&& N > 0
    }

    /// Whether the decoder will pull no more code units.
    pub closed spec fn is_closed(&self) -> bool {
        self.closed
    }

    /// Decoded bytes not yet read.
    pub closed spec fn pending(&self) -> Seq<u8> {
        self.buf.pending()
    }

    /// Every code unit pulled from the source so far.
    pub closed spec fn pulled(&self) -> Seq<u16> {
        self.pulled@
    }

    /// The source.
    pub closed spec fn source(&self) -> I {
        self.iter
    }

    /// A decoder over `iter`, with its buffer empty.
    pub fn new(tables: &'t Tables, iter: I) -> (r: Self)
        requires
            tables.wf(),
            N % 15 == 0,
            N > 0,
        ensures
            r.wf(),
            !r.is_closed(),
            r.pending() == Seq::<u8>::empty(),
            r.pulled() == Seq::<u16>::empty(),
            r.source() == iter,
    {
        ReadDecoder {
            buf: Buffer::new(),
            closed: false,
            tables,
            pulled: Ghost(Seq::empty()),
            produced: Ghost(Seq::empty()),
            iter,
        }
    }

    /// Every byte decoded so far, read or not.
    pub closed spec fn produced(&self) -> Seq<u8> {
        self.produced@
    }

    /// The decoded bytes already read.
    pub open spec fn delivered(&self) -> Seq<u8> {
        self.produced().take(self.produced().len() - self.pending().len())
    }

    /// The decoder's state is sound, and the bytes it holds come last among
    /// those it decoded.
    pub closed spec fn inv(&self) -> bool {
        &&& self.wf()
        &&& self.produced@.len() >= self.buf.pending().len()
        &&& self.produced@ == self.delivered() + self.buf.pending()
    }

    /// Pulls up to `count` code units from the source and looks each up,
    /// stopping at the source's end or at the first code unit outside the
    /// alphabets.
    fn pull_batch(&mut self, count: usize) -> (r: Result<Vec<u16>, DecoderError>)
        requires
            old(self).wf(),
        ensures
            final(self).wf(),
            final(self).buf == old(self).buf,
            final(self).closed == old(self).closed,
            final(self).produced == old(self).produced,
            final(self).tables == old(self).tables,
            final(self).pulled@.len() >= old(self).pulled@.len(),
            final(self).pulled@.take(old(self).pulled@.len() as int) == old(self).pulled@,
            ({
                let batch = final(self).pulled@.skip(old(self).pulled@.len() as int);
                match r {
                    Ok(ws) => units_to_words(batch) == Ok::<Seq<u16>, DecoderError>(ws@) && batch.len() <= count,
                    Err(e) => units_to_words(batch) == Err::<Seq<u16>, DecoderError>(e)
                        && first_invalid(batch) == Some(batch.len() - 1) && batch.len() <= count,
                }
            }),
            final(self).iter.obeys_prophetic_iter_laws() == old(self).iter.obeys_prophetic_iter_laws(),
            old(self).iter.obeys_prophetic_iter_laws() ==> drawn(
                old(self).iter.remaining(),
                final(self).iter.remaining(),
                final(self).pulled@.skip(old(self).pulled@.len() as int),
                count as nat,
            ),
    {
        let ghost start = self.pulled@;
        let mut decoded: Vec<u16> = Vec::with_capacity(count);
        let mut ended = false;
        assert(self.pulled@.skip(start.len() as int) =~= Seq::<u16>::empty());
        assert(Seq::<u16>::empty().map_values(|x: u16| word_of(x)) =~= decoded@);
        while !ended && decoded.len() < count
            invariant
                self.wf(),
                self.buf == old(self).buf,
                self.closed == old(self).closed,
                self.produced == old(self).produced,
                self.tables == old(self).tables,
                start == old(self).pulled@,
                self.pulled@.len() >= start.len(),
                self.pulled@.take(start.len() as int) == start,
                units_to_words(self.pulled@.skip(start.len() as int)) == Ok::<Seq<u16>, DecoderError>(decoded@),
                decoded@.len() == self.pulled@.len() - start.len(),
                decoded@.len() <= count,
                self.iter.obeys_prophetic_iter_laws() == old(self).iter.obeys_prophetic_iter_laws(),
                old(self).iter.obeys_prophetic_iter_laws() ==> {
                    let b = self.pulled@.skip(start.len() as int);
                    &&& b.len() <= old(self).iter.remaining().len()
                    &&& b == old(self).iter.remaining().take(b.len() as int)
                    &&& self.iter.remaining() == old(self).iter.remaining().skip(b.len() as int)
                },
                ended ==> old(self).iter.obeys_prophetic_iter_laws() ==> self.iter.remaining().len() == 0,
            decreases 2 * (count - decoded@.len()) + if ended { 0int } else { 1int },
        {
            match self.iter.next() {
                None => {
                    ended = true;
                },
                Some(u) => {
                    let ghost batch = self.pulled@.skip(start.len() as int);
                    self.pulled = Ghost(self.pulled@.push(u));
                    assert(self.pulled@.skip(start.len() as int) =~= batch.push(u));
                    assert(self.pulled@.take(start.len() as int) =~= start);
                    proof {
                        if old(self).iter.obeys_prophetic_iter_laws() {
                            let rem = old(self).iter.remaining();
                            assert(batch.push(u) =~= rem.take(batch.len() + 1int));
                            assert(self.iter.remaining() =~= rem.skip(batch.len() + 1int));
                        }
                    }
                    let w = decode_unit(self.tables, u);
                    proof {
                        lemma_first_invalid(batch);
                        lemma_first_invalid(batch.push(u));
                        assert forall|i: int| 0 <= i < batch.len() implies is_valid_unit(#[trigger] batch[i]) by {
                            if !is_valid_unit(batch[i]) {
                                assert(first_invalid(batch) is Some);
                            }
                        }
                        assert forall|i: int| 0 <= i < batch.len() implies #[trigger] batch.push(u)[i] == batch[i] by {}
                    }
                    if w == INVALID {
                        proof {
                            assert(!is_valid_unit(batch.push(u)[batch.len() as int]));
                            assert(first_invalid(batch.push(u)) is Some);
                            let p = first_invalid(batch.push(u))->0;
                            if p < batch.len() {
                                assert(batch.push(u)[p] == batch[p]);
                            }
                            assert(p == batch.len());
                        }
                        return Err(DecoderError::InvalidCodePoint(u));
                    }
                    decoded.push(w);
                    assert(batch.push(u).map_values(|x: u16| word_of(x)) =~= batch.map_values(|x: u16| word_of(x)).push(w));
                    assert(first_invalid(batch.push(u)) is None) by {
                        if first_invalid(batch.push(u)) is Some {
                            let p = first_invalid(batch.push(u))->0;
                            if p < batch.len() {
                                assert(batch.push(u)[p] == batch[p]);
                            }
                        }
                    }
                },
            }
        }
        Ok(decoded)
    }

    /// Pulls the next batch of code units from the source and decodes it
    /// into the buffer, which must hold no unread byte. A closed decoder pulls
    /// nothing.
    fn refill_buf(&mut self) -> (r: Result<(), DecoderError>)
        requires
            old(self).inv(),
            old(self).pending().len() == 0,
        ensures
            final(self).inv(),
            final(self).delivered() == old(self).delivered(),
            old(self).is_closed() ==> r is Ok && final(self).is_closed() && final(self).pending().len() == 0
                && final(self).pulled() == old(self).pulled(),
            !old(self).is_closed() ==> final(self).pulled().len() >= old(self).pulled().len()
                && final(self).pulled().take(old(self).pulled().len() as int) == old(self).pulled()
                && refilled(
                final(self).pulled().skip(old(self).pulled().len() as int),
                u15_count(N as nat),
                r,
                final(self).pending(),
                final(self).is_closed(),
            ),
            r is Err ==> final(self).is_closed(),
            !final(self).is_closed() ==> final(self).pending().len() > 0,
            final(self).source().obeys_prophetic_iter_laws() == old(self).source().obeys_prophetic_iter_laws(),
            old(self).pending().len() > 0 || old(self).is_closed() ==> final(self).source() == old(self).source(),
            old(self).pending().len() == 0 && !old(self).is_closed() && old(self).source().obeys_prophetic_iter_laws()
                ==> drawn(
                old(self).source().remaining(),
                final(self).source().remaining(),
                final(self).pulled().skip(old(self).pulled().len() as int),
                u15_count(N as nat),
            ),
            old(self).source().obeys_prophetic_iter_laws() ==> (r is Ok ==> ahead_bytes(
                final(self).pending(),
                final(self).is_closed(),
                final(self).source().remaining(),
                u15_count(N as nat),
            ) == ahead_bytes(
                old(self).pending(),
                old(self).is_closed(),
                old(self).source().remaining(),
                u15_count(N as nat),
            ) && ahead_error(final(self).is_closed(), final(self).source().remaining(), u15_count(N as nat))
                == ahead_error(old(self).is_closed(), old(self).source().remaining(), u15_count(N as nat))),
            old(self).source().obeys_prophetic_iter_laws() ==> (r matches Err(e) ==> ahead_bytes(
                old(self).pending(),
                old(self).is_closed(),
                old(self).source().remaining(),
                u15_count(N as nat),
            ) == Seq::<u8>::empty() && ahead_error(old(self).is_closed(), old(self).source().remaining(), u15_count(N as nat))
                == Some(e)),
    {
        let ghost before = *self;
        let r = self.refill_step();
        proof {
            if !before.is_closed() && before.source().obeys_prophetic_iter_laws() {
                assert(u15_count(N as nat) > 0);
                assert(before.pending() + Seq::<u8>::empty() =~= Seq::<u8>::empty());
                lemma_refill_ahead(
                    before.source().remaining(),
                    self.source().remaining(),
                    self.pulled().skip(before.pulled().len() as int),
                    u15_count(N as nat),
                    r,
                    self.pending(),
                    self.is_closed(),
                );
            }
        }
        r
    }

    /// One refill, as `refill_buf` describes it, but for the bytes ahead.
    fn refill_step(&mut self) -> (r: Result<(), DecoderError>)
        requires
            old(self).inv(),
            old(self).pending().len() == 0,
        ensures
            final(self).inv(),
            final(self).delivered() == old(self).delivered(),
            old(self).is_closed() ==> r is Ok && final(self).is_closed() && final(self).pending().len() == 0
                && final(self).pulled() == old(self).pulled(),
            !old(self).is_closed() ==> final(self).pulled().len() >= old(self).pulled().len()
                && final(self).pulled().take(old(self).pulled().len() as int) == old(self).pulled()
                && refilled(
                final(self).pulled().skip(old(self).pulled().len() as int),
                u15_count(N as nat),
                r,
                final(self).pending(),
                final(self).is_closed(),
            ),
            r is Err ==> final(self).is_closed(),
            !final(self).is_closed() ==> final(self).pending().len() > 0,
            final(self).source().obeys_prophetic_iter_laws() == old(self).source().obeys_prophetic_iter_laws(),
            old(self).pending().len() > 0 || old(self).is_closed() ==> final(self).source() == old(self).source(),
            old(self).pending().len() == 0 && !old(self).is_closed() && old(self).source().obeys_prophetic_iter_laws()
                ==> drawn(
                old(self).source().remaining(),
                final(self).source().remaining(),
                final(self).pulled().skip(old(self).pulled().len() as int),
                u15_count(N as nat),
            ),
    {
        assert(self.delivered() =~= self.produced@);
        if self.closed {
            self.buf.clear_and_get_mut();
            assert(self.delivered() =~= self.produced@);
            return Ok(());
        }
        let count = byte_count_to_u15_count(N);
        let ghost start = self.pulled@;
        let pulled = self.pull_batch(count);
        let ghost batch = self.pulled@.skip(start.len() as int);
        let decoded = match pulled {
            Ok(ws) => ws,
            Err(e) => {
                self.closed = true;
                self.buf.clear_and_get_mut();
                assert(self.delivered() =~= self.produced@);
                return Err(e);
            },
        };
        let out = self.buf.clear_and_get_mut();
        let res = decode_batch(&decoded, count, out);
        match res {
            Ok(keep_open) => {
                let amt = out.len();
                proof {
                    if keep_open {
                        lemma_blocks_bytes_len(decoded@, (count / 8) as nat);
                    }
                }
                self.closed = !keep_open;
                self.buf.set_filled(amt);
                self.produced = Ghost(self.produced@ + self.buf.pending());
                assert(self.buf.pending() =~= out@);
                assert(self.delivered() =~= old(self).produced@);
                Ok(())
            },
            Err(e) => {
                self.closed = true;
                assert(self.delivered() =~= self.produced@);
                Err(e)
            },
        }
    }

    /// The decoded bytes not yet read, decoding the next batch first if none
    /// are left.
    pub fn fill_buf(&mut self) -> (r: Result<&[u8], DecoderError>)
        requires
            old(self).inv(),
        ensures
            final(self).inv(),
            final(self).delivered() == old(self).delivered(),
            r matches Ok(s) ==> s@ == final(self).pending(),
            r is Err ==> final(self).is_closed() && final(self).pending().len() == 0,
            final(self).pending().len() == 0 ==> final(self).is_closed(),
            old(self).pending().len() > 0 ==> r is Ok && final(self).pending() == old(self).pending()
                && final(self).pulled() == old(self).pulled() && final(self).is_closed() == old(self).is_closed(),
            old(self).pending().len() == 0 && old(self).is_closed() ==> r is Ok && final(self).pending().len() == 0,
            old(self).pending().len() == 0 && !old(self).is_closed() ==> final(self).pulled().len() >= old(self).pulled().len()
                && final(self).pulled().take(old(self).pulled().len() as int) == old(self).pulled()
                && refilled(
                final(self).pulled().skip(old(self).pulled().len() as int),
                u15_count(N as nat),
                match r {
                    Ok(_) => Ok::<(), DecoderError>(()),
                    Err(e) => Err::<(), DecoderError>(e),
                },
                final(self).pending(),
                final(self).is_closed(),
            ),
            final(self).source().obeys_prophetic_iter_laws() == old(self).source().obeys_prophetic_iter_laws(),
            old(self).pending().len() > 0 || old(self).is_closed() ==> final(self).source() == old(self).source(),
            old(self).pending().len() == 0 && !old(self).is_closed() && old(self).source().obeys_prophetic_iter_laws()
                ==> drawn(
                old(self).source().remaining(),
                final(self).source().remaining(),
                final(self).pulled().skip(old(self).pulled().len() as int),
                u15_count(N as nat),
            ),
            old(self).source().obeys_prophetic_iter_laws() ==> (r is Ok ==> ahead_bytes(final(self).pending(), final(self).is_closed(), final(self).source().remaining(), u15_count(N as nat))
                == ahead_bytes(old(self).pending(), old(self).is_closed(), old(self).source().remaining(), u15_count(N as nat)) && ahead_error(final(self).is_closed(), final(self).source().remaining(), u15_count(N as nat)) == ahead_error(old(self).is_closed(), old(self).source().remaining(), u15_count(N as nat))),
            old(self).source().obeys_prophetic_iter_laws() ==> (r matches Err(e) ==> ahead_bytes(old(self).pending(), old(self).is_closed(), old(self).source().remaining(), u15_count(N as nat))
                == Seq::<u8>::empty() && ahead_error(old(self).is_closed(), old(self).source().remaining(), u15_count(N as nat)) == Some(e)),
    {
        if self.buf.is_all_consumed() {
            match self.refill_buf() {
                Ok(()) => {},
                Err(e) => {
                    return Err(e);
                },
            }
        }
        Ok(self.buf.as_slice())
    }

    /// Marks `amt` decoded bytes as read, or all of them if fewer are left.
    pub fn consume(&mut self, amt: usize)
        requires
            old(self).inv(),
        ensures
            final(self).inv(),
            final(self).is_closed() == old(self).is_closed(),
            final(self).pulled() == old(self).pulled(),
            final(self).source() == old(self).source(),
            ({
                let n = if amt < old(self).pending().len() { amt as int } else { old(self).pending().len() as int };
                &&& final(self).pending() == old(self).pending().skip(n)
                &&& final(self).delivered() == old(self).delivered() + old(self).pending().take(n)
                &&& ahead_bytes(final(self).pending(), final(self).is_closed(), final(self).source().remaining(), u15_count(N as nat)) == ahead_bytes(old(self).pending(), old(self).is_closed(), old(self).source().remaining(), u15_count(N as nat)).skip(n)
            }),
            ahead_error(final(self).is_closed(), final(self).source().remaining(), u15_count(N as nat)) == ahead_error(old(self).is_closed(), old(self).source().remaining(), u15_count(N as nat)),
    {
        let ghost n = if amt < self.pending().len() { amt as int } else { self.pending().len() as int };
        self.buf.consume(amt);
        assert(self.delivered() =~= old(self).delivered() + old(self).pending().take(n));
        assert(ahead_bytes(self.pending(), self.is_closed(), self.source().remaining(), u15_count(N as nat)) =~= ahead_bytes(old(self).pending(), old(self).is_closed(), old(self).source().remaining(), u15_count(N as nat)).skip(n));
        assert(self.produced@ =~= self.delivered() + self.buf.pending());
    }

    /// Reads decoded bytes into `buf`: as many as fit of those left, after
    /// decoding the next batch if none are left. Reads none only at the end
    /// of the stream or into an empty `buf`.
    pub fn read(&mut self, buf: &mut [u8]) -> (r: Result<usize, DecoderError>)
        requires
            old(self).inv(),
        ensures
            final(self).inv(),
            final(buf)@.len() == old(buf)@.len(),
            r matches Ok(n) ==> n <= old(buf)@.len()
                && final(self).delivered() == old(self).delivered() + final(buf)@.take(n as int)
                && final(buf)@.skip(n as int) == old(buf)@.skip(n as int)
                && (n == 0 ==> old(buf)@.len() == 0 || (final(self).is_closed() && final(self).pending().len() == 0)),
            r is Err ==> final(self).is_closed() && final(self).delivered() == old(self).delivered(),
            r matches Ok(n) ==> n == old(buf)@.len() || final(self).pending().len() == 0,
            old(self).pending().len() > 0 ==> (r matches Ok(n) && final(buf)@.take(n as int) + final(self).pending()
                == old(self).pending() && final(self).pulled() == old(self).pulled()),
            old(self).pending().len() == 0 && !old(self).is_closed() ==> final(self).pulled().len() >= old(self).pulled().len()
                && final(self).pulled().take(old(self).pulled().len() as int) == old(self).pulled()
                && refilled(
                final(self).pulled().skip(old(self).pulled().len() as int),
                u15_count(N as nat),
                match r {
                    Ok(_) => Ok::<(), DecoderError>(()),
                    Err(e) => Err::<(), DecoderError>(e),
                },
                match r {
                    Ok(n) => final(buf)@.take(n as int) + final(self).pending(),
                    Err(_) => final(self).pending(),
                },
                final(self).is_closed(),
            ),
            final(self).source().obeys_prophetic_iter_laws() == old(self).source().obeys_prophetic_iter_laws(),
            old(self).pending().len() > 0 || old(self).is_closed() ==> final(self).source() == old(self).source(),
            old(self).pending().len() == 0 && !old(self).is_closed() && old(self).source().obeys_prophetic_iter_laws()
                ==> drawn(
                old(self).source().remaining(),
                final(self).source().remaining(),
                final(self).pulled().skip(old(self).pulled().len() as int),
                u15_count(N as nat),
            ),
    {
        let ghost before = self.delivered();
        let bytes = match self.fill_buf() {
            Ok(b) => b,
            Err(e) => {
                return Err(e);
            },
        };
        let to_copy = if bytes.len() < buf.len() { bytes.len() } else { buf.len() };
        let mut i: usize = 0;
        while i < to_copy
            invariant
                to_copy <= bytes@.len(),
                to_copy <= buf@.len(),
                buf@.len() == old(buf)@.len(),
                i <= to_copy,
                buf@.take(i as int) == bytes@.take(i as int),
                buf@.skip(to_copy as int) == old(buf)@.skip(to_copy as int),
            decreases to_copy - i,
        {
            buf[i] = bytes[i];
            assert(buf@.take(i + 1) =~= bytes@.take(i + 1));
            i = i + 1;
        }
        assert(bytes@ == self.pending());
        let ghost avail = self.pending();
        self.consume(to_copy);
        assert(buf@.take(to_copy as int) =~= avail.take(to_copy as int));
        assert(buf@.take(to_copy as int) + self.pending() =~= avail);
        Ok(to_copy)
    }

    /// Fills the whole of `buf` with decoded bytes, or fails if the stream
    /// ends first.
    #[verifier::rlimit(40)]
    pub fn read_exact(&mut self, buf: &mut [u8]) -> (r: Result<(), ReadError>)
        requires
            old(self).inv(),
        ensures
            final(self).inv(),
            final(buf)@.len() == old(buf)@.len(),
            r is Ok ==> final(self).delivered() == old(self).delivered() + final(buf)@,
            r == Err::<(), ReadError>(ReadError::UnexpectedEof) ==> final(self).is_closed()
                && final(self).pending().len() == 0
                && final(self).delivered().len() < old(self).delivered().len() + old(buf)@.len(),
            r matches Err(ReadError::Decode(_)) ==> final(self).is_closed(),
            old(self).source().obeys_prophetic_iter_laws() ==> ({
                let ahead = ahead_bytes(old(self).pending(), old(self).is_closed(), old(self).source().remaining(), u15_count(N as nat));
                let err = ahead_error(old(self).is_closed(), old(self).source().remaining(), u15_count(N as nat));
                &&& r is Ok <==> ahead.len() >= old(buf)@.len()
                &&& r is Ok ==> final(buf)@ == ahead.take(old(buf)@.len() as int)
                    && ahead_bytes(final(self).pending(), final(self).is_closed(), final(self).source().remaining(), u15_count(N as nat)) == ahead.skip(old(buf)@.len() as int)
                    && ahead_error(final(self).is_closed(), final(self).source().remaining(), u15_count(N as nat)) == err
                &&& r == Err::<(), ReadError>(ReadError::UnexpectedEof) <==> ahead.len() < old(buf)@.len() && err is None
                &&& r matches Err(ReadError::Decode(e)) ==> err == Some(e)
            }),
    {
        let len = buf.len();
        let mut filled: usize = 0;
        while filled < len
            invariant
                self.inv(),
                buf@.len() == len,
                len == old(buf)@.len(),
                filled <= len,
                self.delivered() == old(self).delivered() + buf@.take(filled as int),
                self.source().obeys_prophetic_iter_laws() == old(self).source().obeys_prophetic_iter_laws(),
                old(self).source().obeys_prophetic_iter_laws() ==> buf@.take(filled as int) + ahead_bytes(self.pending(), self.is_closed(), self.source().remaining(), u15_count(N as nat))
                    == ahead_bytes(old(self).pending(), old(self).is_closed(), old(self).source().remaining(), u15_count(N as nat)) && ahead_error(self.is_closed(), self.source().remaining(), u15_count(N as nat)) == ahead_error(old(self).is_closed(), old(self).source().remaining(), u15_count(N as nat)),
            decreases len - filled,
        {
            let bytes = match self.fill_buf() {
                Ok(b) => b,
                Err(e) => {
                    return Err(ReadError::Decode(e));
                },
            };
            if bytes.len() == 0 {
                assert(self.delivered().len() == old(self).delivered().len() + filled);
                return Err(ReadError::UnexpectedEof);
            }
            let room = len - filled;
            let to_copy = if bytes.len() < room { bytes.len() } else { room };
            let ghost start = buf@;
            let mut i: usize = 0;
            while i < to_copy
                invariant
                    to_copy <= bytes@.len(),
                    filled + to_copy <= len,
                    buf@.len() == len,
                    i <= to_copy,
                    buf@.take(filled as int) == start.take(filled as int),
                    buf@.subrange(filled as int, filled + i) == bytes@.take(i as int),
                decreases to_copy - i,
            {
                buf[filled + i] = bytes[i];
                assert(buf@.take(filled as int) =~= start.take(filled as int));
                assert(buf@.subrange(filled as int, filled + i + 1) =~= bytes@.take(i + 1));
                i = i + 1;
            }
            let ghost avail = self.pending();
            let ghost ahead_now = ahead_bytes(self.pending(), self.is_closed(), self.source().remaining(), u15_count(N as nat));
            assert(bytes@ == avail);
            self.consume(to_copy);
            assert(buf@.take(filled + to_copy) =~= start.take(filled as int) + avail.take(to_copy as int));
            proof {
                if old(self).source().obeys_prophetic_iter_laws() {
                    assert(ahead_now == avail + batched_bytes(self.source().remaining(), u15_count(N as nat)) || self.is_closed());
                    assert(buf@.take(filled + to_copy) + ahead_bytes(self.pending(), self.is_closed(), self.source().remaining(), u15_count(N as nat)) =~= start.take(filled as int) + ahead_now);
                }
            }
            filled = filled + to_copy;
        }
        assert(buf@.take(len as int) =~= buf@);
        proof {
            if old(self).source().obeys_prophetic_iter_laws() {
                let ahead = ahead_bytes(old(self).pending(), old(self).is_closed(), old(self).source().remaining(), u15_count(N as nat));
                assert(ahead.take(len as int) =~= buf@);
                assert(ahead.skip(len as int) =~= ahead_bytes(self.pending(), self.is_closed(), self.source().remaining(), u15_count(N as nat)));
            }
        }
        Ok(())
    }
}

/// Decodes the words of one batch, read with room for `count` code units:
/// whole blocks, then, unless the batch is full and ends in a primary word,
/// the final chunk. Tells whether the stream may go on.
fn decode_batch(decoded: &Vec<u16>, count: usize, out: &mut Vec<u8>) -> (r: Result<bool, DecoderError>)
    requires
        old(out)@.len() == 0,
        decoded@.len() <= count,
        count % 8 == 0,
        count > 0,
    ensures
        match refill_bytes(decoded@, count as nat) {
            Ok(b) => r == Ok::<bool, DecoderError>(refill_keeps_open(decoded@, count as nat)) && final(out)@ == b,
            Err(e) => r == Err::<bool, DecoderError>(e) && final(out)@.len() == 0,
        },
        final(out)@.len() <= count / 8 * 15,
{
    let ghost ws = decoded@;
    let len = decoded.len();
    if len == 0 {
        return Ok(false);
    }
    if has_short_before_last(decoded) {
        return Err(DecoderError::UnexpectedEndOfStreamMarker);
    }
    let keep_open = len == count && decoded[len - 1] < 0x8000;
    let full_chunks = if keep_open {
        count / 8
    } else {
        (len - 1) / 8
    };
    let mut j: usize = 0;
    while j < full_chunks
        invariant
            len == ws.len(),
            full_chunks * 8 <= len,
            j <= full_chunks,
            !short_before_last(ws),
            keep_open ==> !is_short(ws.last()),
            keep_open || full_chunks * 8 < len,
            decoded@ == ws,
            out@ == blocks_bytes(ws, j as nat),
        decreases full_chunks - j,
    {
        let block = &decoded.as_slice()[8 * j..8 * j + 8];
        assert(block@ =~= ws.subrange(8 * j as int, 8 * j + 8));
        assert(!crate::codec::any_short(block@)) by {
            assert forall|m: int| 0 <= m < 8 implies !is_short(#[trigger] block@[m]) by {
                assert(block@[m] == ws[8 * j + m]);
            }
        }
        decode_full_block(block, out);
        j = j + 1;
    }
    proof {
        lemma_blocks_bytes_len(ws, full_chunks as nat);
    }
    if keep_open {
        return Ok(true);
    }
    let rest = &decoded.as_slice()[8 * full_chunks..len];
    assert(rest@ =~= ws.skip(8 * full_chunks as int));
    match decode_partial_final_chunk(rest, out) {
        Ok(_) => Ok(false),
        Err(e) => {
            out.clear();
            Err(e)
        },
    }
}

/// The bytes that a reader with room for `count` code units per batch
/// decodes from the stream `us`, batch after batch, until a batch ends it.
pub open spec fn batched_decode(us: Seq<u16>, count: nat) -> Result<Seq<u8>, DecoderError>
    decreases us.len(),
{
    if count == 0 || us.len() == 0 {
        Ok(seq![])
    } else {
        let batch = us.take(if us.len() < count { us.len() as int } else { count as int });
        match units_to_words(batch) {
            Err(e) => Err(e),
            Ok(ws) => match refill_bytes(ws, count) {
                Err(e) => Err(e),
                Ok(b) => if refill_keeps_open(ws, count) {
                    match batched_decode(us.skip(count as int), count) {
                        Ok(rest) => Ok(b + rest),
                        Err(e) => Err(e),
                    }
                } else {
                    Ok(b)
                },
            },
        }
    }
}

/// A word stream that decodes keeps its first `m` blocks whole: their bytes
/// come first, then those of the words after them.
proof fn lemma_peel_blocks(ws: Seq<u16>, b: Seq<u8>, m: nat)
    requires
        words_to_bytes(ws) == Ok::<Seq<u8>, DecoderError>(b),
        ws.len() > 8 * m,
    ensures
        (words_to_bytes(ws.skip(8 * m as int)) matches Ok(b2) && b == blocks_bytes(ws, m) + b2),
        forall|i: int| 0 <= i < 8 * m ==> !is_short(#[trigger] ws[i]),
    decreases m,
{
    if m == 0 {
        assert(ws.skip(0) =~= ws);
        assert(blocks_bytes(ws, 0) + b =~= b);
    } else {
        let m1 = (m - 1) as nat;
        lemma_peel_blocks(ws, b, m1);
        let rest = ws.skip(8 * m1 as int);
        let b2 = words_to_bytes(rest)->Ok_0;
        assert(rest.len() > BLOCK_WORDS);
        assert(rest.take(BLOCK_WORDS as int) =~= ws.subrange(8 * m1 as int, 8 * m as int));
        assert(rest.skip(BLOCK_WORDS as int) =~= ws.skip(8 * m as int));
        let b3 = words_to_bytes(ws.skip(8 * m as int))->Ok_0;
        assert(b2 == full_chunk_bytes(ws.subrange(8 * m1 as int, 8 * m as int)) + b3);
        assert(b =~= blocks_bytes(ws, m) + b3);
        assert forall|i: int| 0 <= i < 8 * m implies !is_short(#[trigger] ws[i]) by {
            if i >= 8 * m1 {
                assert(ws[i] == rest.take(BLOCK_WORDS as int)[i - 8 * m1]);
                assert(!crate::codec::any_short(rest.take(BLOCK_WORDS as int)));
            }
        }
    }
}

/// One batch that decodes as the start of a stream that decodes.
proof fn lemma_batch_bytes(ws: Seq<u16>, b: Seq<u8>, count: nat, n: nat)
    requires
        words_to_bytes(ws) == Ok::<Seq<u8>, DecoderError>(b),
        count % 8 == 0,
        count > 0,
        1 <= n <= ws.len(),
        n <= count,
        n < count ==> n == ws.len(),
    ensures
        n < ws.len() ==> refill_keeps_open(ws.take(n as int), count),
        n < ws.len() ==> (words_to_bytes(ws.skip(n as int)) matches Ok(b2)
            && refill_bytes(ws.take(n as int), count) == Ok::<Seq<u8>, DecoderError>(b.take(b.len() - b2.len()))
            && b == b.take(b.len() - b2.len()) + b2),
        n == ws.len() ==> refill_bytes(ws, count) == Ok::<Seq<u8>, DecoderError>(b) && (refill_keeps_open(ws, count)
            ==> b == blocks_bytes(ws, count / 8)),
{
    let batch = ws.take(n as int);
    if n < ws.len() {
        let m = count / 8;
        assert(n == count);
        lemma_peel_blocks(ws, b, m);
        let b2 = words_to_bytes(ws.skip(n as int))->Ok_0;
        assert(forall|i: int| 0 <= i < n ==> #[trigger] batch[i] == ws[i]);
        assert(!short_before_last(batch));
        assert(!is_short(batch.last()));
        assert forall|k: nat| k <= m implies #[trigger] blocks_bytes(batch, k) == blocks_bytes(ws, k) by {
            lemma_blocks_prefix(ws, n as int, k);
        }
        assert(b.take(b.len() - b2.len()) =~= blocks_bytes(ws, m));
    } else {
        assert(batch =~= ws);
        let k = ((ws.len() - 1) / 8) as nat;
        lemma_peel_blocks(ws, b, k);
        let rest = ws.skip(8 * k as int);
        assert(rest.len() <= BLOCK_WORDS);
        assert(!short_before_last(ws)) by {
            if short_before_last(ws) {
                let i = choose|i: int| 0 <= i < ws.len() - 1 && is_short(#[trigger] ws[i]);
                if i >= 8 * k {
                    assert(rest[i - 8 * k] == ws[i]);
                    assert(short_before_last(rest));
                }
            }
        }
        if refill_keeps_open(ws, count) {
            let m = count / 8;
            assert(k == m - 1);
            lemma_peel_blocks(ws, b, k);
            assert(rest.len() == BLOCK_WORDS);
            let t = words_to_bytes(rest)->Ok_0;
            assert(!is_short(rest.last()));
            assert(t == crate::codec::bytes_of(crate::codec::combine(rest), 15));
            assert(rest =~= ws.subrange(8 * k as int, 8 * m as int));
            assert(b =~= blocks_bytes(ws, m));
        }
    }
}

/// The first `k` blocks of a sequence and of its prefix of `n` words are
/// the same.
proof fn lemma_blocks_prefix(ws: Seq<u16>, n: int, k: nat)
    requires
        8 * k <= n <= ws.len(),
    ensures
        blocks_bytes(ws.take(n), k) == blocks_bytes(ws, k),
    decreases k,
{
    if k > 0 {
        lemma_blocks_prefix(ws, n, (k - 1) as nat);
        assert(ws.take(n).subrange(8 * (k - 1) as int, 8 * k as int) =~= ws.subrange(8 * (k - 1) as int, 8 * k as int));
    }
}

/// A stream whose words decode is decoded batch by batch to the same bytes.
proof fn lemma_batched_decode(us: Seq<u16>, ws: Seq<u16>, b: Seq<u8>, count: nat)
    requires
        units_to_words(us) == Ok::<Seq<u16>, DecoderError>(ws),
        words_to_bytes(ws) == Ok::<Seq<u8>, DecoderError>(b),
        count % 8 == 0,
        count > 0,
    ensures
        batched_decode(us, count) == Ok::<Seq<u8>, DecoderError>(b),
    decreases us.len(),
{
    lemma_first_invalid(us);
    assert(ws.len() == us.len());
    if us.len() == 0 {
        assert(ws =~= Seq::<u16>::empty());
        assert(b =~= Seq::<u8>::empty());
    } else {
        let n: nat = if us.len() < count { us.len() } else { count };
        let batch = us.take(n as int);
        assert forall|i: int| 0 <= i < batch.len() implies is_valid_unit(#[trigger] batch[i]) by {
            assert(batch[i] == us[i]);
        }
        lemma_no_invalid(batch);
        assert(batch.map_values(|u: u16| word_of(u)) =~= ws.take(n as int));
        lemma_batch_bytes(ws, b, count, n);
        if n < us.len() {
            let rest = us.skip(count as int);
            assert forall|i: int| 0 <= i < rest.len() implies is_valid_unit(#[trigger] rest[i]) by {
                assert(rest[i] == us[i + count]);
            }
            lemma_no_invalid(rest);
            assert(rest.map_values(|u: u16| word_of(u)) =~= ws.skip(n as int));
            let b2 = words_to_bytes(ws.skip(n as int))->Ok_0;
            lemma_batched_decode(rest, ws.skip(n as int), b2, count);
        } else {
            assert(batch =~= us);
            assert(ws.take(n as int) =~= ws);
            if refill_keeps_open(ws, count) {
                assert(us.skip(count as int) =~= Seq::<u16>::empty());
                assert(b + Seq::<u8>::empty() =~= b);
            }
        }
    }
}

/// Reading an encoding batch by batch, with room for any whole number of
/// blocks per batch, gives back the bytes that were encoded.
pub proof fn lemma_batched_round_trip(bs: Seq<u8>, count: nat)
    requires
        count % 8 == 0,
        count > 0,
    ensures
        batched_decode(crate::codec::encode_units(bs), count) == Ok::<Seq<u8>, DecoderError>(bs),
{
    lemma_units_to_words(bs);
    lemma_words_round_trip(bs);
    lemma_batched_decode(crate::codec::encode_units(bs), crate::codec::u15_words(bs), bs, count);
}

/// A refill whose batch holds a short word before its last one fails with
/// the end-of-stream error, closes the decoder and hands out nothing.
pub proof fn lemma_refill_marker(
    batch: Seq<u16>,
    count: nat,
    r: Result<(), DecoderError>,
    pending: Seq<u8>,
    closed: bool,
)
    requires
        refilled(batch, count, r, pending, closed),
        units_to_words(batch) matches Ok(ws) && short_before_last(ws),
    ensures
        r == Err::<(), DecoderError>(DecoderError::UnexpectedEndOfStreamMarker),
        closed,
        pending.len() == 0,
{
}

} // verus!
