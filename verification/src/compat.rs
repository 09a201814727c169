//! The interfaces of the byte sources and sinks that the streaming adapters
//! wrap: a blocking pair and a poll-based pair. Implementations are supplied
//! by the user of the library (an in-memory pair lives in [`crate::mem`]);
//! their errors pass through the adapters unchanged.

use vstd::prelude::*;

verus! {

/// A blocking byte source: read up to `buf.len()` bytes into the front of
/// `buf`; returning 0 signals the end of the stream.
pub trait ReadCompat {
    /// The pass-through error type of the underlying source.
    type Err;

    /// Fill a prefix of `buf` and say how long it is; 0 means the stream
    /// ended.
    fn read(&mut self, buf: &mut Vec<u8>) -> (r: Result<usize, Self::Err>)
        ensures
            final(buf)@.len() == old(buf)@.len(),
            r matches Ok(n) ==> n <= final(buf)@.len(),
    ;
}

/// A blocking byte sink. `sunk` is the sequence of all bytes it has accepted,
/// the measure every writer guarantee is stated against.
pub trait WriteCompat {
    /// The pass-through error type of the underlying sink.
    type Err;

    /// All bytes this sink has accepted so far. The default stands for an
    /// unmodelled sink; an implementation whose writes are to mean anything
    /// overrides it.
    open spec fn sunk(&self) -> Seq<u8> {
        Seq::empty()
    }

    /// Accept all of `data`. On failure some prefix of `data` may have been
    /// accepted.
    fn write_all(&mut self, data: &[u8]) -> (r: Result<(), Self::Err>)
        ensures
            match r {
                Ok(()) => final(self).sunk() == old(self).sunk() + data@,
                Err(_) => exists|k: int|
                    0 <= k <= data@.len() && final(self).sunk() == old(self).sunk() + data@.take(
                        k,
                    ),
            },
    ;

    /// Push accepted bytes down; accepts nothing new.
    fn flush(&mut self) -> (r: Result<(), Self::Err>)
        ensures
            final(self).sunk() == old(self).sunk(),
    ;
}

/// The result of a non-blocking operation: done, or try again later.
pub enum Poll<T> {
    Ready(T),
    Pending,
}

/// A pollable byte source: like [`ReadCompat`], but the source may report
/// that it is not ready yet, in which case nothing happened.
pub trait AsyncReadCompat {
    /// The pass-through error type of the underlying source.
    type Err;

    /// Fill a prefix of `buf` and say how long it is; 0 means the stream
    /// ended; `Pending` means nothing was read yet.
    fn poll_read(&mut self, buf: &mut Vec<u8>) -> (r: Poll<Result<usize, Self::Err>>)
        ensures
            final(buf)@.len() == old(buf)@.len(),
            r matches Poll::Ready(Ok(n)) ==> n <= final(buf)@.len(),
    ;
}

/// A pollable byte sink. `sunk` is the sequence of all bytes it has
/// accepted. A sink that can make no progress reports `Pending` (or an
/// error); it never accepts zero bytes of a nonempty write.
pub trait AsyncWriteCompat {
    /// The pass-through error type of the underlying sink.
    type Err;

    /// All bytes this sink has accepted so far. The default stands for an
    /// unmodelled sink; an implementation whose writes are to mean anything
    /// overrides it.
    open spec fn sunk(&self) -> Seq<u8> {
        Seq::empty()
    }

    /// Accept some prefix of `data`; `Pending` means nothing was accepted.
    fn poll_write(&mut self, data: &[u8]) -> (r: Poll<Result<usize, Self::Err>>)
        ensures
            match r {
                Poll::Ready(Ok(n)) => {
                    &&& n <= data@.len()
                    &&& data@.len() > 0 ==> n > 0
                    &&& final(self).sunk() == old(self).sunk() + data@.take(n as int)
                },
                Poll::Ready(Err(_)) => exists|k: int|
                    0 <= k <= data@.len() && final(self).sunk() == old(self).sunk() + data@.take(
                        k,
                    ),
                Poll::Pending => final(self).sunk() == old(self).sunk(),
            },
    ;

    /// Push accepted bytes down; accepts nothing new.
    fn poll_flush(&mut self) -> (r: Poll<Result<(), Self::Err>>)
        ensures
            final(self).sunk() == old(self).sunk(),
    ;

    /// Signal the end of the stream; accepts nothing new.
    fn poll_finish(&mut self) -> (r: Poll<Result<(), Self::Err>>)
        ensures
            final(self).sunk() == old(self).sunk(),
    ;
}

} // verus!
