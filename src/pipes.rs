//! The pipe buffers that carry data between the pipeline's stages, seen
//! through what each stage may do with its input and output ends.
use vstd::prelude::*;
use pipebuf::{PBufRd, PBufState, PBufWr};

verus! {

#[verifier::external_type_specification]
#[verifier::external_body]
#[verifier::reject_recursive_types(T)]
pub struct ExPBufRd<'a, T: 'static>(PBufRd<'a, T>);

#[verifier::external_type_specification]
#[verifier::external_body]
#[verifier::reject_recursive_types(T)]
pub struct ExPBufWr<'a, T: 'static>(PBufWr<'a, T>);

/// The end-of-stream and push state of a pipe.
#[derive(Clone, Copy, Debug, PartialEq, Eq, Structural)]
pub enum PipeState {
    /// Data may still come.
    Open,
    /// Data may still come, and the producer asks for it to be passed on.
    Push,
    /// The producer closed the stream; the consumer has not taken note yet.
    Closing,
    /// The producer closed the stream and the consumer took note.
    Closed,
    /// The producer aborted the stream; the consumer has not taken note yet.
    Aborting,
    /// The producer aborted the stream and the consumer took note.
    Aborted,
}

impl PipeState {
    /// Whether the producer has ended the stream, by closing or aborting it.
    pub open spec fn is_eof(self) -> bool {
        !(self == PipeState::Open || self == PipeState::Push)
    }

    /// Whether the producer aborted the stream.
    pub open spec fn is_aborted(self) -> bool {
        self == PipeState::Aborting || self == PipeState::Aborted
    }

    /// Whether an end of stream waits for the consumer to take note.
    pub open spec fn has_pending_eof(self) -> bool {
        self == PipeState::Closing || self == PipeState::Aborting
    }

    /// The state after the consumer takes note of a push.
    pub open spec fn push_consumed(self) -> PipeState {
        if self == PipeState::Push {
            PipeState::Open
        } else {
            self
        }
    }

    /// The state after the consumer takes note of an end of stream.
    pub open spec fn eof_consumed(self) -> PipeState {
        if self == PipeState::Closing {
            PipeState::Closed
        } else if self == PipeState::Aborting {
            PipeState::Aborted
        } else {
            self
        }
    }

    /// The state after the producer asks for a push.
    pub open spec fn pushed(self) -> PipeState {
        if self == PipeState::Open {
            PipeState::Push
        } else {
            self
        }
    }

    /// The state after the producer closes the stream.
    pub open spec fn closed(self) -> PipeState {
        if self.is_eof() {
            self
        } else {
            PipeState::Closing
        }
    }

    /// The state after the producer aborts the stream.
    pub open spec fn aborted(self) -> PipeState {
        if self.is_eof() {
            self
        } else {
            PipeState::Aborting
        }
    }
}

/// The data waiting in the pipe that a `u8` input end reads.
pub uninterp spec fn rd8_data(r: PBufRd<'_, u8>) -> Seq<u8>;

/// The state of the pipe that a `u8` input end reads.
pub uninterp spec fn rd8_state(r: PBufRd<'_, u8>) -> PipeState;

/// Relies on `PBufRd::data`: the data waiting in the pipe.
#[verifier::external_body]
pub fn rd8_slice<'r>(r: &'r PBufRd<'_, u8>) -> (s: &'r [u8])
    ensures
        s@ == rd8_data(*r),
{
    r.data()
}

/// Relies on `PBufRd::len`: the number of items waiting.
#[verifier::external_body]
pub fn rd8_len(r: &PBufRd<'_, u8>) -> (n: usize)
    ensures
        n == rd8_data(*r).len(),
{
    r.len()
}

/// Relies on `PBufRd::state`: the pipe's state.
#[verifier::external_body]
pub fn rd8_get_state(r: &PBufRd<'_, u8>) -> (s: PipeState)
    ensures
        s == rd8_state(*r),
{
    match r.state() {
        PBufState::Open => PipeState::Open,
        PBufState::Push => PipeState::Push,
        PBufState::Closing => PipeState::Closing,
        PBufState::Closed => PipeState::Closed,
        PBufState::Aborting => PipeState::Aborting,
        PBufState::Aborted => PipeState::Aborted,
    }
}

/// Relies on `PBufRd::consume`: drops `n` items from the front of the data,
/// which must hold that many.
#[verifier::external_body]
pub fn rd8_consume(r: &mut PBufRd<'_, u8>, n: usize)
    requires
        n <= rd8_data(*old(r)).len(),
    ensures
        rd8_data(*final(r)) == rd8_data(*old(r)).skip(n as int),
        rd8_state(*final(r)) == rd8_state(*old(r)),
{
    r.consume(n)
}

/// Relies on `PBufRd::consume_push`: takes note of a pending push.
#[verifier::external_body]
pub fn rd8_consume_push(r: &mut PBufRd<'_, u8>) -> (b: bool)
    ensures
        b == (rd8_state(*old(r)) == PipeState::Push),
        rd8_state(*final(r)) == rd8_state(*old(r)).push_consumed(),
        rd8_data(*final(r)) == rd8_data(*old(r)),
{
    r.consume_push()
}

/// Relies on `PBufRd::consume_eof`: takes note of a pending end of stream.
#[verifier::external_body]
pub fn rd8_consume_eof(r: &mut PBufRd<'_, u8>) -> (b: bool)
    ensures
        b == rd8_state(*old(r)).has_pending_eof(),
        rd8_state(*final(r)) == rd8_state(*old(r)).eof_consumed(),
        rd8_data(*final(r)) == rd8_data(*old(r)),
{
    r.consume_eof()
}

/// The data waiting in the pipe that a `u16` input end reads.
pub uninterp spec fn rd16_data(r: PBufRd<'_, u16>) -> Seq<u16>;

/// The state of the pipe that a `u16` input end reads.
pub uninterp spec fn rd16_state(r: PBufRd<'_, u16>) -> PipeState;

/// Relies on `PBufRd::data`: the data waiting in the pipe.
#[verifier::external_body]
pub fn rd16_slice<'r>(r: &'r PBufRd<'_, u16>) -> (s: &'r [u16])
    ensures
        s@ == rd16_data(*r),
{
    r.data()
}

/// Relies on `PBufRd::len`: the number of items waiting.
#[verifier::external_body]
pub fn rd16_len(r: &PBufRd<'_, u16>) -> (n: usize)
    ensures
        n == rd16_data(*r).len(),
{
    r.len()
}

/// Relies on `PBufRd::state`: the pipe's state.
#[verifier::external_body]
pub fn rd16_get_state(r: &PBufRd<'_, u16>) -> (s: PipeState)
    ensures
        s == rd16_state(*r),
{
    match r.state() {
        PBufState::Open => PipeState::Open,
        PBufState::Push => PipeState::Push,
        PBufState::Closing => PipeState::Closing,
        PBufState::Closed => PipeState::Closed,
        PBufState::Aborting => PipeState::Aborting,
        PBufState::Aborted => PipeState::Aborted,
    }
}

/// Relies on `PBufRd::consume`: drops `n` items from the front of the data,
/// which must hold that many.
#[verifier::external_body]
pub fn rd16_consume(r: &mut PBufRd<'_, u16>, n: usize)
    requires
        n <= rd16_data(*old(r)).len(),
    ensures
        rd16_data(*final(r)) == rd16_data(*old(r)).skip(n as int),
        rd16_state(*final(r)) == rd16_state(*old(r)),
{
    r.consume(n)
}

/// Relies on `PBufRd::consume_push`: takes note of a pending push.
#[verifier::external_body]
pub fn rd16_consume_push(r: &mut PBufRd<'_, u16>) -> (b: bool)
    ensures
        b == (rd16_state(*old(r)) == PipeState::Push),
        rd16_state(*final(r)) == rd16_state(*old(r)).push_consumed(),
        rd16_data(*final(r)) == rd16_data(*old(r)),
{
    r.consume_push()
}

/// Relies on `PBufRd::consume_eof`: takes note of a pending end of stream.
#[verifier::external_body]
pub fn rd16_consume_eof(r: &mut PBufRd<'_, u16>) -> (b: bool)
    ensures
        b == rd16_state(*old(r)).has_pending_eof(),
        rd16_state(*final(r)) == rd16_state(*old(r)).eof_consumed(),
        rd16_data(*final(r)) == rd16_data(*old(r)),
{
    r.consume_eof()
}

/// The data waiting in the pipe that a `u8` output end writes.
pub uninterp spec fn wr8_data(w: PBufWr<'_, u8>) -> Seq<u8>;

/// The state of the pipe that a `u8` output end writes.
pub uninterp spec fn wr8_state(w: PBufWr<'_, u8>) -> PipeState;

/// The fixed capacity of the pipe that a `u8` output end writes, if it has
/// one.
pub uninterp spec fn wr8_capacity(w: PBufWr<'_, u8>) -> Option<nat>;

/// Relies on `PBufWr::is_eof`: whether the stream has been closed or
/// aborted.
#[verifier::external_body]
pub fn wr8_is_eof(w: &PBufWr<'_, u8>) -> (b: bool)
    ensures
        b == wr8_state(*w).is_eof(),
{
    w.is_eof()
}

/// Relies on `PBufWr::free_space`: the room left in a pipe of fixed
/// capacity, or `None` for a pipe that grows.
#[verifier::external_body]
pub fn wr8_free_space(w: &PBufWr<'_, u8>) -> (r: Option<usize>)
    ensures
        match wr8_capacity(*w) {
            Some(c) => r == Some((c - wr8_data(*w).len()) as usize) && wr8_data(*w).len() <= c
                && c - wr8_data(*w).len() <= usize::MAX,
            None => r is None,
        },
{
    w.free_space()
}

/// Relies on `PBufWr::append`: adds `s` at the end of the data. The stream
/// must not have ended, and a pipe of fixed capacity must have room.
#[verifier::external_body]
pub fn wr8_append(w: &mut PBufWr<'_, u8>, s: &[u8])
    requires
        !wr8_state(*old(w)).is_eof(),
        wr8_capacity(*old(w)) matches Some(c) ==> wr8_data(*old(w)).len() + s@.len() <= c,
    ensures
        wr8_data(*final(w)) == wr8_data(*old(w)) + s@,
        wr8_state(*final(w)) == wr8_state(*old(w)),
        wr8_capacity(*final(w)) == wr8_capacity(*old(w)),
{
    w.append(s)
}

/// Relies on `PBufWr::push`: asks the consumer to pass data on.
#[verifier::external_body]
pub fn wr8_push(w: &mut PBufWr<'_, u8>)
    ensures
        wr8_state(*final(w)) == wr8_state(*old(w)).pushed(),
        wr8_data(*final(w)) == wr8_data(*old(w)),
        wr8_capacity(*final(w)) == wr8_capacity(*old(w)),
{
    w.push()
}

/// Relies on `PBufWr::close`: ends the stream, unless it has ended already.
#[verifier::external_body]
pub fn wr8_close(w: &mut PBufWr<'_, u8>)
    ensures
        wr8_state(*final(w)) == wr8_state(*old(w)).closed(),
        wr8_data(*final(w)) == wr8_data(*old(w)),
        wr8_capacity(*final(w)) == wr8_capacity(*old(w)),
{
    w.close()
}

/// Relies on `PBufWr::abort`: aborts the stream, unless it has ended
/// already.
#[verifier::external_body]
pub fn wr8_abort(w: &mut PBufWr<'_, u8>)
    ensures
        wr8_state(*final(w)) == wr8_state(*old(w)).aborted(),
        wr8_data(*final(w)) == wr8_data(*old(w)),
        wr8_capacity(*final(w)) == wr8_capacity(*old(w)),
{
    w.abort()
}

/// The data waiting in the pipe that a `u16` output end writes.
pub uninterp spec fn wr16_data(w: PBufWr<'_, u16>) -> Seq<u16>;

/// The state of the pipe that a `u16` output end writes.
pub uninterp spec fn wr16_state(w: PBufWr<'_, u16>) -> PipeState;

/// The fixed capacity of the pipe that a `u16` output end writes, if it has
/// one.
pub uninterp spec fn wr16_capacity(w: PBufWr<'_, u16>) -> Option<nat>;

/// Relies on `PBufWr::is_eof`: whether the stream has been closed or
/// aborted.
#[verifier::external_body]
pub fn wr16_is_eof(w: &PBufWr<'_, u16>) -> (b: bool)
    ensures
        b == wr16_state(*w).is_eof(),
{
    w.is_eof()
}

/// Relies on `PBufWr::free_space`: the room left in a pipe of fixed
/// capacity, or `None` for a pipe that grows.
#[verifier::external_body]
pub fn wr16_free_space(w: &PBufWr<'_, u16>) -> (r: Option<usize>)
    ensures
        match wr16_capacity(*w) {
            Some(c) => r == Some((c - wr16_data(*w).len()) as usize) && wr16_data(*w).len() <= c
                && c - wr16_data(*w).len() <= usize::MAX,
            None => r is None,
        },
{
    w.free_space()
}

/// Relies on `PBufWr::append`: adds `s` at the end of the data. The stream
/// must not have ended, and a pipe of fixed capacity must have room.
#[verifier::external_body]
pub fn wr16_append(w: &mut PBufWr<'_, u16>, s: &[u16])
    requires
        !wr16_state(*old(w)).is_eof(),
        wr16_capacity(*old(w)) matches Some(c) ==> wr16_data(*old(w)).len() + s@.len() <= c,
    ensures
        wr16_data(*final(w)) == wr16_data(*old(w)) + s@,
        wr16_state(*final(w)) == wr16_state(*old(w)),
        wr16_capacity(*final(w)) == wr16_capacity(*old(w)),
{
    w.append(s)
}

/// Relies on `PBufWr::push`: asks the consumer to pass data on.
#[verifier::external_body]
pub fn wr16_push(w: &mut PBufWr<'_, u16>)
    ensures
        wr16_state(*final(w)) == wr16_state(*old(w)).pushed(),
        wr16_data(*final(w)) == wr16_data(*old(w)),
        wr16_capacity(*final(w)) == wr16_capacity(*old(w)),
{
    w.push()
}

/// Relies on `PBufWr::close`: ends the stream, unless it has ended already.
#[verifier::external_body]
pub fn wr16_close(w: &mut PBufWr<'_, u16>)
    ensures
        wr16_state(*final(w)) == wr16_state(*old(w)).closed(),
        wr16_data(*final(w)) == wr16_data(*old(w)),
        wr16_capacity(*final(w)) == wr16_capacity(*old(w)),
{
    w.close()
}

/// Relies on `PBufWr::abort`: aborts the stream, unless it has ended
/// already.
#[verifier::external_body]
pub fn wr16_abort(w: &mut PBufWr<'_, u16>)
    ensures
        wr16_state(*final(w)) == wr16_state(*old(w)).aborted(),
        wr16_data(*final(w)) == wr16_data(*old(w)),
        wr16_capacity(*final(w)) == wr16_capacity(*old(w)),
{
    w.abort()
}

} // verus!
