//! The writing encoder: takes bytes, stages a partial block, and hands the
//! code units of every full block to a sink; and the sinks it can write to.
use vstd::prelude::*;
use arrayvec::ArrayVec;
use js_sys::JsString;
use crate::alphabet::Tables;
use crate::codec::{
    chunk_units, encode_full_block, encode_partial_block, encode_units, BLOCK_BYTES,
};
use crate::laws::lemma_blockwise;

verus! {

#[verifier::external_type_specification]
#[verifier::external_body]
#[verifier::reject_recursive_types(T)]
pub struct ExArrayVec<T, const CAP: usize>(ArrayVec<T, CAP>);

/// The bytes held in a staging buffer, in order.
pub uninterp spec fn staged(a: ArrayVec<u8, 15>) -> Seq<u8>;

/// Relies on `ArrayVec::new`: a new vector holds nothing.
#[verifier::external_body]
fn staging_new() -> (a: ArrayVec<u8, 15>)
    ensures
        staged(a) == Seq::<u8>::empty(),
{
    ArrayVec::new()
}

/// Relies on `ArrayVec::len`: the number of elements held, which never
/// exceeds the capacity.
#[verifier::external_body]
fn staging_len(a: &ArrayVec<u8, 15>) -> (n: usize)
    ensures
        n == staged(*a).len(),
        n <= 15,
{
    a.len()
}

/// Relies on `ArrayVec::as_slice`: the elements held, in order.
#[verifier::external_body]
fn staging_as_slice(a: &ArrayVec<u8, 15>) -> (s: &[u8])
    ensures
        s@ == staged(*a),
{
    a.as_slice()
}

/// Relies on `ArrayVec::try_extend_from_slice`: appends all of `s` when it
/// fits in the remaining capacity, and otherwise changes nothing.
#[verifier::external_body]
fn staging_extend(a: &mut ArrayVec<u8, 15>, s: &[u8]) -> (ok: bool)
    ensures
        ok == (staged(*old(a)).len() + s@.len() <= 15),
        ok ==> staged(*final(a)) == staged(*old(a)) + s@,
        !ok ==> staged(*final(a)) == staged(*old(a)),
{
    a.try_extend_from_slice(s).is_ok()
}

/// Relies on `ArrayVec::clear`: nothing is held afterwards.
#[verifier::external_body]
fn staging_clear(a: &mut ArrayVec<u8, 15>)
    ensures
        staged(*final(a)) == Seq::<u8>::empty(),
{
    a.clear()
}

/// Something that accepts code units in batches, and never fails.
pub trait UnitSink {
    /// Everything the sink has accepted, in order.
    spec fn units(&self) -> Seq<u16>;

    /// Appends `units`.
    fn extend_units(&mut self, units: &[u16])
        ensures
            final(self).units() == old(self).units() + units@,
    ;
}

impl UnitSink for Vec<u16> {
    open spec fn units(&self) -> Seq<u16> {
        self@
    }

    fn extend_units(&mut self, units: &[u16]) {
        let mut i: usize = 0;
        while i < units.len()
            invariant
                i <= units@.len(),
                self@ == old(self)@ + units@.take(i as int),
            decreases units@.len() - i,
        {
            self.push(units[i]);
            assert(units@.take(i + 1) =~= units@.take(i as int).push(units@[i as int]));
            i = i + 1;
        }
        assert(units@.take(i as int) =~= units@);
    }
}

/// A sink borrowed from its owner, who keeps it after the encoder is done.
pub struct ByRef<'a, T>(&'a mut T);

impl<'a, T> ByRef<'a, T> {
    /// The borrowed sink.
    pub closed spec fn target(&self) -> T {
        *self.0
    }
}

impl<'a, T: UnitSink> UnitSink for ByRef<'a, T> {
    open spec fn units(&self) -> Seq<u16> {
        self.target().units()
    }

    fn extend_units(&mut self, units: &[u16]) {
        self.0.extend_units(units);
    }
}

/// An encoder that takes bytes and hands the code units of each full block
/// to a sink, keeping up to 15 bytes staged in between.
pub struct WriteEncoder<'t, T: UnitSink> {
    buf: ArrayVec<u8, 15>,
    units: Vec<u16>,
    tables: &'t Tables,
    sent: Ghost<Seq<u8>>,
    before: Ghost<Seq<u16>>,
    sink: T,
}

impl<'t, T: UnitSink> WriteEncoder<'t, T> {
    /// Every byte written so far, sent on or staged.
    pub closed spec fn written(&self) -> Seq<u8> {
        self.sent@ + staged(self.buf)
    }

    /// The bytes staged and not yet encoded.
    pub closed spec fn staged_bytes(&self) -> Seq<u8> {
        staged(self.buf)
    }

    /// What the sink held before the encoder was made.
    pub closed spec fn sink_before(&self) -> Seq<u16> {
        self.before@
    }

    /// What the sink holds now.
    pub closed spec fn sink_units(&self) -> Seq<u16> {
        self.sink.units()
    }

    /// The bytes whose code units went to the sink: whole blocks.
    pub closed spec fn sent_bytes(&self) -> Seq<u8> {
        self.sent@
    }

    /// The sink holds what it held before, then the code units of every full
    /// block sent on, and the staged bytes are the rest of what was written.
    pub open spec fn consistent(&self) -> bool {
        &&& self.written() == self.sent_bytes() + self.staged_bytes()
        &&& self.sent_bytes().len() % (BLOCK_BYTES as nat) == 0
        &&& self.staged_bytes().len() <= BLOCK_BYTES
        &&& self.sink_units() == self.sink_before() + encode_units(self.sent_bytes())
    }

    /// The encoder's tables are the alphabet and its state is consistent.
    pub closed spec fn inv(&self) -> bool {
        &&& self.tables.wf()
        &&& self.consistent()
    }

    /// An encoder that hands its code units to `sink`.
    pub fn new(tables: &'t Tables, sink: T) -> (r: Self)
        requires
            tables.wf(),
        ensures
            r.inv(),
            r.consistent(),
            r.written() == Seq::<u8>::empty(),
            r.staged_bytes() == Seq::<u8>::empty(),
            r.sink_before() == sink.units(),
            r.sink_units() == sink.units(),
    {
        let r = WriteEncoder {
            buf: staging_new(),
            units: Vec::with_capacity(8),
            tables,
            sent: Ghost(Seq::empty()),
            before: Ghost(sink.units()),
            sink,
        };
        assert(encode_units(Seq::<u8>::empty()) =~= Seq::<u16>::empty()) by {
            assert(crate::codec::u15_words(Seq::<u8>::empty()) =~= Seq::<u16>::empty());
        }
        assert(r.written() =~= Seq::<u8>::empty());
        assert(r.written() =~= r.sent@ + staged(r.buf));
        assert(r.sink.units() =~= r.before@ + encode_units(r.sent@));
        r
    }

    /// An encoder that hands its code units to a sink its caller keeps.
    pub fn new_by_ref<'a>(tables: &'t Tables, sink: &'a mut T) -> (r: WriteEncoder<'t, ByRef<'a, T>>)
        requires
            tables.wf(),
        ensures
            r.inv(),
            r.consistent(),
            r.written() == Seq::<u8>::empty(),
            r.staged_bytes() == Seq::<u8>::empty(),
            r.sink_before() == old(sink).units(),
            r.sink_units() == old(sink).units(),
    {
        WriteEncoder::new(tables, ByRef(sink))
    }

    /// Encodes the staged full block and hands its code units to the sink.
    fn flush_full_buf(&mut self)
        requires
            old(self).inv(),
            old(self).staged_bytes().len() == BLOCK_BYTES,
        ensures
            final(self).inv(),
            final(self).written() == old(self).written(),
            final(self).staged_bytes() == Seq::<u8>::empty(),
            final(self).sent_bytes() == old(self).sent_bytes() + old(self).staged_bytes(),
            final(self).sink_before() == old(self).sink_before(),
    {
        let block = staging_as_slice(&self.buf);
        self.units.clear();
        encode_full_block(self.tables, block, &mut self.units);
        self.sink.extend_units(self.units.as_slice());
        proof {
            lemma_blockwise(self.sent@, block@);
            assert(encode_units(block@) == chunk_units(block@));
            assert(self.units@ =~= chunk_units(block@));
        }
        assert(self.sink.units() =~= self.before@ + encode_units(self.sent@ + block@));
        self.sent = Ghost(self.sent@ + block@);
        staging_clear(&mut self.buf);
        assert(self.written() =~= old(self).written());
        assert(self.written() =~= self.sent@ + staged(self.buf));
    }

    /// Encodes whatever is staged, a full block or the final partial one,
    /// and hands its code units to the sink.
    fn flush_buf(&mut self)
        requires
            old(self).inv(),
        ensures
            final(self).sink_units() == old(self).sink_before() + encode_units(old(self).written()),
            final(self).sink_before() == old(self).sink_before(),
            final(self).staged_bytes() == Seq::<u8>::empty(),
    {
        let staged_now = staging_as_slice(&self.buf);
        self.units.clear();
        encode_partial_block(self.tables, staged_now, &mut self.units);
        self.sink.extend_units(self.units.as_slice());
        proof {
            lemma_blockwise(self.sent@, staged_now@);
            assert(encode_units(staged_now@) == chunk_units(staged_now@));
            assert(self.units@ =~= chunk_units(staged_now@));
            assert(self.sink.units() =~= self.before@ + encode_units(self.sent@ + staged_now@));
        }
        staging_clear(&mut self.buf);
    }

    /// Writes as many bytes of `buf` as the staging buffer takes, first
    /// sending on a full staged block. Takes at least one byte unless `buf`
    /// is empty.
    pub fn write(&mut self, buf: &[u8]) -> (r: usize)
        requires
            old(self).inv(),
        ensures
            final(self).inv(),
            final(self).sink_before() == old(self).sink_before(),
            final(self).consistent(),
            r <= buf@.len(),
            buf@.len() > 0 ==> r > 0,
            final(self).written() == old(self).written() + buf@.take(r as int),
            ({
                let s = if old(self).staged_bytes().len() == BLOCK_BYTES { 0 } else { old(self).staged_bytes().len() };
                r == if buf@.len() < BLOCK_BYTES - s { buf@.len() } else { (BLOCK_BYTES - s) as nat }
            }),
            old(self).staged_bytes().len() == BLOCK_BYTES ==> final(self).sent_bytes() == old(self).sent_bytes()
                + old(self).staged_bytes() && final(self).staged_bytes() == buf@.take(r as int),
            old(self).staged_bytes().len() < BLOCK_BYTES ==> final(self).sent_bytes() == old(self).sent_bytes()
                && final(self).staged_bytes() == old(self).staged_bytes() + buf@.take(r as int),
    {
        if staging_len(&self.buf) == BLOCK_BYTES {
            self.flush_full_buf();
        }
        let room = BLOCK_BYTES - staging_len(&self.buf);
        let to_copy = if room < buf.len() { room } else { buf.len() };
        let ok = staging_extend(&mut self.buf, &buf[0..to_copy]);
        assert(ok);
        assert(self.written() =~= old(self).written() + buf@.take(to_copy as int));
        assert(self.written() =~= self.sent@ + staged(self.buf));
        to_copy
    }

    /// Sends on a staged block if it is full.
    pub fn flush(&mut self)
        requires
            old(self).inv(),
        ensures
            final(self).inv(),
            final(self).sink_before() == old(self).sink_before(),
            final(self).consistent(),
            final(self).written() == old(self).written(),
            final(self).staged_bytes().len() < BLOCK_BYTES,
            old(self).staged_bytes().len() < BLOCK_BYTES ==> final(self).staged_bytes() == old(self).staged_bytes()
                && final(self).sent_bytes() == old(self).sent_bytes()
                && final(self).sink_units() == old(self).sink_units(),
            old(self).staged_bytes().len() == BLOCK_BYTES ==> final(self).staged_bytes() == Seq::<u8>::empty()
                && final(self).sent_bytes() == old(self).sent_bytes() + old(self).staged_bytes(),
    {
        if staging_len(&self.buf) == BLOCK_BYTES {
            self.flush_full_buf();
        }
    }

    /// Writes all of `buf`: fills up the staged block, then encodes whole
    /// blocks straight from `buf`, and stages what is left.
    pub fn write_all(&mut self, buf: &[u8])
        requires
            old(self).inv(),
        ensures
            final(self).inv(),
            final(self).sink_before() == old(self).sink_before(),
            final(self).consistent(),
            final(self).written() == old(self).written() + buf@,
            final(self).staged_bytes().len() < BLOCK_BYTES,
    {
        let len = buf.len();
        let mut pos: usize = 0;
        let staged_len = staging_len(&self.buf);
        if staged_len != 0 || len < BLOCK_BYTES {
            let room = BLOCK_BYTES - staged_len;
            let copied = if room < len { room } else { len };
            let ok = staging_extend(&mut self.buf, &buf[0..copied]);
            assert(ok);
            assert(self.written() =~= old(self).written() + buf@.take(copied as int));
            if staging_len(&self.buf) == BLOCK_BYTES {
                self.flush_full_buf();
            } else {
                assert(copied == len);
                assert(buf@.take(copied as int) =~= buf@);
                return;
            }
            pos = copied;
        }
        assert(self.written() =~= old(self).written() + buf@.take(pos as int));
        while len - pos >= BLOCK_BYTES
            invariant
                self.inv(),
                self.before == old(self).before,
                len == buf@.len(),
                pos <= len,
                self.staged_bytes() == Seq::<u8>::empty(),
                self.written() == old(self).written() + buf@.take(pos as int),
            decreases len - pos,
        {
            let block = &buf[pos..pos + BLOCK_BYTES];
            self.units.clear();
            encode_full_block(self.tables, block, &mut self.units);
            self.sink.extend_units(self.units.as_slice());
            proof {
                lemma_blockwise(self.sent@, block@);
                assert(encode_units(block@) == chunk_units(block@));
                assert(self.units@ =~= chunk_units(block@));
                assert(buf@.take(pos + BLOCK_BYTES) =~= buf@.take(pos as int) + block@);
            }
            assert(self.sink.units() =~= self.before@ + encode_units(self.sent@ + block@));
            self.sent = Ghost(self.sent@ + block@);
            pos = pos + BLOCK_BYTES;
            assert(self.written() =~= old(self).written() + buf@.take(pos as int));
        }
        let ok = staging_extend(&mut self.buf, &buf[pos..len]);
        assert(ok);
        assert(buf@.take(pos as int) + buf@.subrange(pos as int, len as int) =~= buf@);
        assert(self.written() =~= old(self).written() + buf@);
    }

    /// Encodes the staged bytes as the final block and hands back the sink,
    /// which then holds the encoding of everything written.
    pub fn finish(self) -> (r: T)
        requires
            self.inv(),
        ensures
            r.units() == self.sink_before() + encode_units(self.written()),
    {
        let mut this = self;
        this.flush_buf();
        this.sink
    }
}

#[verifier::external_type_specification]
#[verifier::external_body]
pub struct ExJsString(JsString);

/// The code units that a JavaScript string holds.
pub uninterp spec fn js_units(s: JsString) -> Seq<u16>;

/// Relies on `JsString::from` on a `&str`: the empty string holds no code
/// unit. Like every js-sys call, it works only on a wasm host and panics on
/// any other target.
#[verifier::external_body]
fn js_empty() -> (r: JsString)
    ensures
        js_units(r) == Seq::<u16>::empty(),
{
    JsString::from("")
}

/// Relies on `JsString::from_char_code`: the string of exactly these code
/// units. The units are spread as arguments of `String.fromCharCode`, so a
/// call takes at most `JS_CHUNK` of them, well within the engine's argument
/// limit. Works only on a wasm host; panics on any other target.
#[verifier::external_body]
fn js_from_char_code(units: &[u16]) -> (r: JsString)
    requires
        units@.len() <= JS_CHUNK,
    ensures
        js_units(r) == units@,
{
    JsString::from_char_code(units)
}

/// Relies on `JsString::concat`: the code units of `a`, then those of `b`.
/// Works only on a wasm host; panics on any other target.
#[verifier::external_body]
fn js_concat(a: &JsString, b: &JsString) -> (r: JsString)
    ensures
        js_units(r) == js_units(*a) + js_units(*b),
{
    a.concat(b)
}

/// Code units handed to the JavaScript engine in one call.
pub const JS_CHUNK: usize = 64;

/// A sink that batches code units and appends them to a JavaScript string
/// `N` at a time.
pub struct BufferedJsString<const N: usize> {
    buf: Vec<u16>,
    js_str: JsString,
}

impl<const N: usize> BufferedJsString<N> {
    /// The code units batched and not yet appended.
    pub closed spec fn batched(&self) -> Seq<u16> {
        self.buf@
    }

    /// The batch holds fewer than `N` code units between calls.
    pub closed spec fn wf(&self) -> bool {
        self.buf@.len() < N
    }

    /// An empty string.
    pub fn new() -> (r: Self)
        requires
            N > 0,
        ensures
            r.wf(),
            r.units() == Seq::<u16>::empty(),
    {
        let r = BufferedJsString { buf: Vec::with_capacity(N), js_str: js_empty() };
        assert(js_units(r.js_str) + r.buf@ =~= Seq::<u16>::empty());
        r
    }

    /// A string that starts as `s`.
    pub fn new_from(s: JsString) -> (r: Self)
        requires
            N > 0,
        ensures
            r.wf(),
            r.units() == js_units(s),
    {
        let r = BufferedJsString { buf: Vec::with_capacity(N), js_str: s };
        assert(js_units(r.js_str) + r.buf@ =~= js_units(s));
        r
    }

    /// Appends the batched code units to the string, 64 at a time.
    pub fn flush(&mut self)
        ensures
            final(self).units() == old(self).units(),
            final(self).batched() == Seq::<u16>::empty(),
    {
        let len = self.buf.len();
        if len > 0 {
            let first_len = if len < JS_CHUNK { len } else { JS_CHUNK };
            let mut other = js_from_char_code(&self.buf.as_slice()[0..first_len]);
            let mut pos = first_len;
            while pos < len
                invariant
                    len == self.buf@.len(),
                    pos <= len,
                    js_units(other) == self.buf@.take(pos as int),
                decreases len - pos,
            {
                let end = if len - pos < JS_CHUNK { len } else { pos + JS_CHUNK };
                let piece = js_from_char_code(&self.buf.as_slice()[pos..end]);
                other = js_concat(&other, &piece);
                assert(self.buf@.take(end as int) =~= self.buf@.take(pos as int) + self.buf@.subrange(pos as int, end as int));
                pos = end;
            }
            assert(self.buf@.take(len as int) =~= self.buf@);
            self.js_str = js_concat(&self.js_str, &other);
            self.buf.clear();
        }
        assert(js_units(self.js_str) + self.buf@ =~= old(self).units());
    }

    /// The finished string, holding every code unit appended.
    pub fn finish(self) -> (r: JsString)
        ensures
            js_units(r) == self.units(),
    {
        let mut this = self;
        this.flush();
        assert(this.units() =~= js_units(this.js_str));
        this.js_str
    }
}

impl<const N: usize> UnitSink for BufferedJsString<N> {
    closed spec fn units(&self) -> Seq<u16> {
        js_units(self.js_str) + self.buf@
    }

    fn extend_units(&mut self, units: &[u16]) {
        let mut i: usize = 0;
        while i < units.len()
            invariant
                i <= units@.len(),
                self.units() == old(self).units() + units@.take(i as int),
            decreases units@.len() - i,
        {
            let ghost prev = self.units();
            assert(prev == js_units(self.js_str) + self.buf@);
            self.buf.push(units[i]);
            assert(units@.take(i + 1) =~= units@.take(i as int).push(units@[i as int]));
            assert(js_units(self.js_str) + self.buf@ =~= prev.push(units@[i as int]));
            assert(self.units() =~= old(self).units() + units@.take(i + 1));
            i = i + 1;
            if self.buf.len() >= N {
                self.flush();
            }
        }
        assert(units@.take(i as int) =~= units@);
    }
}

} // verus!
