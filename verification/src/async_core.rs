//! Poll-based stream adapters: the counterparts of the blocking reader and
//! writer over pollable sources and sinks. Every operation that would block
//! is a poll that may report not-ready; transduction itself never suspends,
//! and a not-ready report leaves the transduction state untouched, so a
//! resumed call goes on where the stream left off without reordering or
//! duplicating bytes.

use vstd::prelude::*;

use core::marker::PhantomData;

use crate::compat::{AsyncReadCompat, AsyncWriteCompat, Poll};
use crate::formats::{lemma_out_empty, Normalize};
use crate::model::{carry, chunk_out, lemma_out_append, norm_out};
use vstd::slice::slice_subrange;

verus! {

/// The transduction state of a pull-model poll adapter; the underlying
/// source is handed in at each call.
pub struct ReadBuffer<N: Normalize> {
    _marker: PhantomData<N>,
    input_buf: Vec<u8>,
    output_buf: Vec<u8>,
    output_pos: usize,
    output_size: usize,
    last_was_cr: bool,
    end_of_stream: bool,
    consumed: Ghost<Seq<u8>>,
    produced: Ghost<Seq<u8>>,
}

impl<N: Normalize> ReadBuffer<N> {
    /// All bytes obtained from the underlying source so far.
    pub closed spec fn consumed(&self) -> Seq<u8> {
        self.consumed@
    }

    /// All bytes handed out to the caller so far.
    pub closed spec fn produced(&self) -> Seq<u8> {
        self.produced@
    }

    /// Whether the source has reported the end of the stream.
    pub closed spec fn exhausted(&self) -> bool {
        self.end_of_stream
    }

    /// Whether the buffered output has been fully handed out.
    pub closed spec fn drained(&self) -> bool {
        self.output_pos >= self.output_size
    }

    /// Whether a CR is carried, waiting for the next chunk.
    pub closed spec fn carried(&self) -> bool {
        self.last_was_cr
    }

    /// The invariant: the bytes handed out, followed by the bytes still
    /// buffered, are exactly the normalization of the bytes consumed.
    pub closed spec fn wf(&self) -> bool {
        &&& 1 <= self.input_buf@.len()
        &&& N::spec_required(self.input_buf@.len() as int, true) <= usize::MAX
        &&& self.output_buf@.len() as int == N::spec_required(self.input_buf@.len() as int, true)
        &&& self.output_pos <= self.output_size <= self.output_buf@.len()
        &&& {
            let pending = self.output_buf@.subrange(
                self.output_pos as int,
                self.output_size as int,
            );
            if !self.end_of_stream {
                &&& self.produced@ + pending == norm_out::<N>(false, self.consumed@)
                &&& self.last_was_cr == carry(false, self.consumed@)
            } else {
                self.produced@ + pending == chunk_out::<N>(false, self.consumed@, true)
            }
        }
    }

    /// A fresh buffer with the given internal input buffer size.
    pub fn new(buf_size: usize) -> (r: Self)
        requires
            1 <= buf_size,
            N::spec_required(buf_size as int, true) <= usize::MAX as int,
        ensures
            r.wf(),
            r.consumed() == Seq::<u8>::empty(),
            r.produced() == Seq::<u8>::empty(),
    {
        let cap = N::required_capacity(buf_size, true);
        let r = ReadBuffer {
            _marker: PhantomData,
            input_buf: vec![0u8; buf_size],
            output_buf: vec![0u8; cap],
            output_pos: 0,
            output_size: 0,
            last_was_cr: false,
            end_of_stream: false,
            consumed: Ghost(Seq::empty()),
            produced: Ghost(Seq::empty()),
        };
        assert(r.output_buf@.subrange(0, 0) =~= Seq::<u8>::empty());
        assert(Seq::<u8>::empty() + Seq::<u8>::empty() =~= norm_out::<N>(false, Seq::empty()));
        r
    }

    /// Poll the source for one chunk and transduce it into the output
    /// buffer; a zero-byte read finalizes the stream; not-ready changes
    /// nothing.
    pub fn poll_fill_buf<R: AsyncReadCompat>(&mut self, inner: &mut R) -> (r: Poll<
        Result<(), <R as AsyncReadCompat>::Err>,
    >)
        requires
            old(self).wf(),
            old(self).drained(),
        ensures
            final(self).wf(),
            final(self).produced() == old(self).produced(),
            old(self).exhausted() ==> r matches Poll::Ready(Ok(())),
            match r {
                Poll::Ready(Ok(())) => {
                    &&& old(self).consumed().is_prefix_of(final(self).consumed())
                    &&& old(self).exhausted() ==> (final(self).exhausted() && final(self).drained())
                    &&& (!old(self).exhausted() && final(self).drained()
                        && !final(self).exhausted()) ==> (old(self).carried()
                        && !final(self).carried())
                },
                _ => {
                    &&& final(self).consumed() == old(self).consumed()
                    &&& final(self).drained()
                    &&& final(self).exhausted() == old(self).exhausted()
                    &&& final(self).carried() == old(self).carried()
                },
            },
    {
        let ghost pre = *self;
        self.output_pos = 0;
        self.output_size = 0;
        proof {
            assert(pre.output_buf@.subrange(pre.output_pos as int, pre.output_size as int)
                =~= Seq::<u8>::empty());
            assert(self.output_buf@.subrange(0, 0) =~= Seq::<u8>::empty());
        }
        if self.end_of_stream {
            return Poll::Ready(Ok(()));
        }
        let n = match inner.poll_read(&mut self.input_buf) {
            Poll::Ready(Ok(n)) => n,
            Poll::Ready(Err(e)) => {
                return Poll::Ready(Err(e));
            },
            Poll::Pending => {
                return Poll::Pending;
            },
        };
        let is_last = n == 0;
        if is_last {
            self.end_of_stream = true;
        }
        let chunk = slice_subrange(self.input_buf.as_slice(), 0, n);
        let ghost c = chunk@;
        let ghost p0 = self.last_was_cr;
        proof {
            N::lemma_required_mono(c.len() as int, self.input_buf@.len() as int, is_last);
        }
        let st = match N::normalize_chunk(
            chunk,
            self.output_buf.as_mut_slice(),
            self.last_was_cr,
            is_last,
        ) {
            Ok(st) => st,
            Err(_) => {
                return vstd::pervasive::unreached();
            },
        };
        self.output_size = st.output_len;
        self.last_was_cr = st.ended_with_cr;
        proof {
            self.consumed@ = self.consumed@ + c;
            lemma_out_append::<N>(false, pre.consumed@, c);
            assert(self.produced@ + Seq::<u8>::empty() =~= self.produced@);
            assert(self.output_buf@.subrange(0, st.output_len as int) == chunk_out::<N>(
                p0,
                c,
                is_last,
            ));
            if is_last {
                assert(c =~= Seq::<u8>::empty());
                assert(pre.consumed@ + c =~= pre.consumed@);
                assert(self.produced@ + self.output_buf@.subrange(
                    0,
                    self.output_size as int,
                ) =~= chunk_out::<N>(false, self.consumed@, true));
            } else {
                assert(chunk_out::<N>(p0, c, false) =~= norm_out::<N>(p0, c));
                assert(self.produced@ + self.output_buf@.subrange(
                    0,
                    self.output_size as int,
                ) =~= norm_out::<N>(false, self.consumed@));
                if self.output_size == 0 && !self.end_of_stream && c.len() > 0 {
                    lemma_out_empty::<N>(p0, c);
                }
            }
            assert(pre.consumed@.is_prefix_of(self.consumed@)) by {
                assert(self.consumed@.take(pre.consumed@.len() as int) =~= pre.consumed@);
            }
        }
        Poll::Ready(Ok(()))
    }

    /// Poll for normalized bytes into the front of `buf` and say how many; a
    /// ready 0 into a nonempty `buf` means the session is complete, and
    /// `produced` is then exactly the normalization of everything the source
    /// yielded, finalized.
    pub fn poll_read<R: AsyncReadCompat>(&mut self, inner: &mut R, buf: &mut Vec<u8>) -> (r: Poll<
        Result<usize, <R as AsyncReadCompat>::Err>,
    >)
        requires
            old(self).wf(),
        ensures
            final(self).wf(),
            final(buf)@.len() == old(buf)@.len(),
            old(self).exhausted() ==> (final(self).exhausted() && final(self).consumed() == old(
                self,
            ).consumed()),
            old(self).exhausted() && old(self).drained() ==> (r matches Poll::Ready(Ok(n)) && n
                == 0),
            !old(self).drained() ==> (r matches Poll::Ready(Ok(n)) && (old(buf)@.len() > 0 ==> n
                > 0)),
            match r {
                Poll::Ready(Ok(n)) => {
                    &&& n <= final(buf)@.len()
                    &&& final(self).produced() == old(self).produced() + final(buf)@.take(n as int)
                    &&& final(buf)@.skip(n as int) == old(buf)@.skip(n as int)
                    &&& old(self).consumed().is_prefix_of(final(self).consumed())
                    &&& (n == 0 && old(buf)@.len() > 0) ==> final(self).exhausted()
                    &&& (n == 0 && old(buf)@.len() > 0) ==> final(self).produced() == chunk_out::<
                        N,
                    >(false, final(self).consumed(), true)
                },
                _ => {
                    &&& final(self).produced() == old(self).produced()
                    &&& old(self).consumed().is_prefix_of(final(self).consumed())
                    &&& final(buf)@ == old(buf)@
                },
            },
    {
        loop
            invariant
                self.wf(),
                self.produced@ == old(self).produced(),
                old(self).consumed().is_prefix_of(self.consumed@),
                buf@ == old(buf)@,
                (!old(self).drained() || old(self).exhausted()) ==> *self == *old(self),
            ensures
                self.wf(),
                self.produced@ == old(self).produced(),
                old(self).consumed().is_prefix_of(self.consumed@),
                buf@ == old(buf)@,
                (!old(self).drained() || old(self).exhausted()) ==> *self == *old(self),
                self.output_pos < self.output_size || (self.end_of_stream && self.output_pos
                    >= self.output_size),
            decreases
                    (if self.end_of_stream {
                        0int
                    } else {
                        1int
                    }),
                    (if self.last_was_cr {
                        1int
                    } else {
                        0int
                    }),
        {
            if self.output_pos < self.output_size {
                break ;
            }
            if self.end_of_stream {
                break ;
            }
            let ghost at_entry = *self;
            match self.poll_fill_buf(inner) {
                Poll::Ready(Ok(())) => {},
                Poll::Ready(Err(e)) => {
                    return Poll::Ready(Err(e));
                },
                Poll::Pending => {
                    return Poll::Pending;
                },
            }
            if self.output_pos < self.output_size {
                break ;
            }
            proof {
                if !self.end_of_stream {
                    assert(at_entry.last_was_cr && !self.last_was_cr);
                }
            }
        }
        if self.output_pos >= self.output_size {
            proof {
                assert(self.output_buf@.subrange(
                    self.output_pos as int,
                    self.output_size as int,
                ) =~= Seq::<u8>::empty());
                assert(self.produced@ + Seq::<u8>::empty() =~= self.produced@);
                assert(final(buf)@.take(0) =~= Seq::<u8>::empty());
            }
            return Poll::Ready(Ok(0));
        }
        let avail = self.output_size - self.output_pos;
        let k = if buf.len() < avail {
            buf.len()
        } else {
            avail
        };
        let ghost pre = *self;
        let ghost buf0 = buf@;
        let mut i: usize = 0;
        while i < k
            invariant
                i <= k,
                k <= buf@.len(),
                k <= pre.output_size - pre.output_pos,
                *self == pre,
                self.output_pos + k <= self.output_buf@.len(),
                buf@.len() == buf0.len(),
                forall|j: int|
                    0 <= j < i ==> #[trigger] buf@[j] == self.output_buf@[self.output_pos + j],
                forall|j: int| i <= j < buf@.len() ==> buf@[j] == buf0[j],
            decreases k - i,
        {
            let b = self.output_buf[self.output_pos + i];
            buf[i] = b;
            i = i + 1;
        }
        self.output_pos = self.output_pos + k;
        proof {
            let drained = buf@.take(k as int);
            assert(drained =~= pre.output_buf@.subrange(
                pre.output_pos as int,
                pre.output_pos + k,
            ));
            self.produced@ = self.produced@ + drained;
            assert(pre.output_buf@.subrange(pre.output_pos as int, pre.output_size as int)
                =~= drained + self.output_buf@.subrange(
                self.output_pos as int,
                self.output_size as int,
            ));
            if !self.end_of_stream {
                assert(self.produced@ + self.output_buf@.subrange(
                    self.output_pos as int,
                    self.output_size as int,
                ) =~= norm_out::<N>(false, self.consumed@));
            } else {
                assert(self.produced@ + self.output_buf@.subrange(
                    self.output_pos as int,
                    self.output_size as int,
                ) =~= chunk_out::<N>(false, self.consumed@, true));
            }
            assert(buf@.skip(k as int) =~= buf0.skip(k as int));
        }
        Poll::Ready(Ok(k))
    }
}

/// Where a push-model poll adapter stands in its two-phase completion:
/// still accepting writes, draining and finalizing, or done.
pub enum State {
    Writing,
    Finishing,
    Finished,
}

/// The transduction state of a push-model poll adapter; the underlying sink
/// is handed in at each call.
pub struct WriteBuffer<N: Normalize> {
    _marker: PhantomData<N>,
    input_buf: Vec<u8>,
    output_buf: Vec<u8>,
    input_pos: usize,
    output_pos: usize,
    output_size: usize,
    last_was_cr: bool,
    finalized: bool,
    stream_state: State,
    processed: Ghost<Seq<u8>>,
}

impl<N: Normalize> WriteBuffer<N> {
    /// All bytes accepted from the caller so far.
    pub closed spec fn accepted(&self) -> Seq<u8> {
        self.processed@ + self.input_buf@.take(self.input_pos as int)
    }

    /// The already-transduced prefix of the accepted bytes.
    pub closed spec fn processed(&self) -> Seq<u8> {
        self.processed@
    }

    /// Transduced bytes not yet handed to the sink.
    pub closed spec fn pending(&self) -> Seq<u8> {
        self.output_buf@.subrange(self.output_pos as int, self.output_size as int)
    }

    /// How many more bytes the input buffer takes before a transduction
    /// becomes due.
    pub closed spec fn free_space(&self) -> int {
        self.input_buf@.len() - self.input_pos
    }

    /// Whether the stream has been finalized (the last chunk transduced).
    pub closed spec fn is_finalized(&self) -> bool {
        self.finalized
    }

    /// Whether completion has signalled end-of-stream to the sink.
    pub closed spec fn is_finished(&self) -> bool {
        self.stream_state is Finished
    }

    /// Whether the adapter still accepts writes.
    pub closed spec fn is_writing(&self) -> bool {
        self.stream_state is Writing
    }

    /// The buffer's invariant, except that the input buffer may be
    /// momentarily full (it is emptied by transduction before the call
    /// returns).
    pub closed spec fn wf_core(&self) -> bool {
        &&& 1 <= self.input_buf@.len()
        &&& N::spec_required(self.input_buf@.len() as int, true) <= usize::MAX
        &&& self.output_buf@.len() as int == N::spec_required(self.input_buf@.len() as int, true)
        &&& self.input_pos <= self.input_buf@.len()
        &&& self.output_pos <= self.output_size <= self.output_buf@.len()
        &&& (self.finalized ==> self.input_pos == 0 && !self.last_was_cr)
        &&& (!self.finalized ==> self.last_was_cr == carry(false, self.processed@))
        &&& (!(self.stream_state is Writing) ==> self.finalized && self.output_pos
            == self.output_size)
    }

    /// The buffer's own invariant.
    pub closed spec fn wf(&self) -> bool {
        &&& self.wf_core()
        &&& self.input_pos < self.input_buf@.len()
    }

    /// The relation this buffer keeps with its sink, stated over the bytes
    /// the sink has received: those bytes plus the not-yet-handed-over
    /// pending bytes are exactly the normalization of the transduced prefix,
    /// finalized once the last chunk went through.
    pub closed spec fn synced_with(&self, sunk: Seq<u8>) -> bool {
        if !self.finalized {
            sunk + self.pending() == norm_out::<N>(false, self.processed@)
        } else {
            sunk + self.pending() == chunk_out::<N>(false, self.processed@, true)
        }
    }

    /// A fresh buffer with the given internal input buffer size, in sync
    /// with any sink that has received nothing yet.
    pub fn new(buf_size: usize) -> (r: Self)
        requires
            1 <= buf_size,
            N::spec_required(buf_size as int, true) <= usize::MAX as int,
        ensures
            r.wf(),
            r.accepted() == Seq::<u8>::empty(),
            r.pending() == Seq::<u8>::empty(),
            !r.is_finalized(),
            !r.is_finished(),
            r.synced_with(Seq::<u8>::empty()),
    {
        let cap = N::required_capacity(buf_size, true);
        let r = WriteBuffer {
            _marker: PhantomData,
            input_buf: vec![0u8; buf_size],
            output_buf: vec![0u8; cap],
            input_pos: 0,
            output_pos: 0,
            output_size: 0,
            last_was_cr: false,
            finalized: false,
            stream_state: State::Writing,
            processed: Ghost(Seq::empty()),
        };
        assert(r.output_buf@.subrange(0, 0) =~= Seq::<u8>::empty());
        assert(r.input_buf@.take(0) =~= Seq::<u8>::empty());
        assert(r.accepted() =~= Seq::<u8>::empty());
        assert(Seq::<u8>::empty() + r.pending() =~= norm_out::<N>(false, r.processed@));
        r
    }

    /// Transduce the buffered input as one chunk into the output buffer.
    fn transduce(&mut self, is_last: bool)
        requires
            old(self).wf_core(),
            old(self).output_pos == old(self).output_size,
            is_last || !old(self).is_finalized(),
        ensures
            final(self).wf(),
            final(self).accepted() == old(self).accepted(),
            final(self).input_pos == 0,
            final(self).is_finalized() == (is_last || old(self).is_finalized()),
            final(self).stream_state == old(self).stream_state,
            final(self).output_pos == 0,
            ({
                let moved = final(self).pending();
                if is_last {
                    chunk_out::<N>(false, final(self).processed(), true) == (
                    if old(self).is_finalized() {
                        chunk_out::<N>(false, old(self).processed(), true)
                    } else {
                        norm_out::<N>(false, old(self).processed())
                    }) + moved
                } else {
                    norm_out::<N>(false, final(self).processed()) == norm_out::<N>(
                        false,
                        old(self).processed(),
                    ) + moved
                }
            }),
    {
        let ghost pre = *self;
        let n = self.input_pos;
        let chunk = slice_subrange(self.input_buf.as_slice(), 0, n);
        let ghost c = chunk@;
        proof {
            N::lemma_required_mono(c.len() as int, self.input_buf@.len() as int, is_last);
        }
        let st = match N::normalize_chunk(
            chunk,
            self.output_buf.as_mut_slice(),
            self.last_was_cr,
            is_last,
        ) {
            Ok(st) => st,
            Err(_) => {
                return vstd::pervasive::unreached();
            },
        };
        self.input_pos = 0;
        self.output_pos = 0;
        self.output_size = st.output_len;
        self.last_was_cr = st.ended_with_cr;
        if is_last {
            self.finalized = true;
        }
        proof {
            self.processed@ = pre.processed@ + c;
            lemma_out_append::<N>(false, pre.processed@, c);
            assert(self.input_buf@.take(0) =~= Seq::<u8>::empty());
            assert(self.accepted() =~= pre.accepted());
            assert(self.pending() == chunk_out::<N>(pre.last_was_cr, c, is_last));
            if is_last {
                if pre.finalized {
                    assert(c =~= Seq::<u8>::empty());
                    assert(pre.processed@ + c =~= pre.processed@);
                    N::lemma_fin_quiet();
                    assert(chunk_out::<N>(pre.last_was_cr, c, true) =~= Seq::<u8>::empty());
                    assert(chunk_out::<N>(false, self.processed@, true) =~= chunk_out::<N>(
                        false,
                        pre.processed@,
                        true,
                    ) + self.pending());
                } else {
                    assert(chunk_out::<N>(false, self.processed@, true) =~= norm_out::<N>(
                        false,
                        pre.processed@,
                    ) + self.pending());
                }
            } else {
                assert(chunk_out::<N>(pre.last_was_cr, c, false) =~= norm_out::<N>(
                    pre.last_was_cr,
                    c,
                ));
                assert(norm_out::<N>(false, self.processed@) =~= norm_out::<N>(
                    false,
                    pre.processed@,
                ) + self.pending());
            }
        }
    }

    /// Hand pending transduced bytes to the sink until none are left or the
    /// sink reports not-ready.
    fn drain<W: AsyncWriteCompat>(&mut self, inner: &mut W) -> (r: Poll<
        Result<(), <W as AsyncWriteCompat>::Err>,
    >)
        requires
            old(self).wf(),
            old(self).synced_with(old(inner).sunk()),
        ensures
            final(self).wf(),
            final(self).accepted() == old(self).accepted(),
            final(self).processed() == old(self).processed(),
            final(self).is_finalized() == old(self).is_finalized(),
            final(self).stream_state == old(self).stream_state,
            final(self).input_pos == old(self).input_pos,
            final(self).input_buf == old(self).input_buf,
            old(self).pending() == Seq::<u8>::empty() ==> (r matches Poll::Ready(Ok(()))
                && *final(self) == *old(self) && *final(inner) == *old(inner)),
            match r {
                Poll::Ready(Ok(())) => final(self).synced_with(final(inner).sunk()) && final(self).pending()
                    == Seq::<u8>::empty() && final(self).output_pos == final(self).output_size,
                Poll::Ready(Err(_)) => true,
                Poll::Pending => final(self).synced_with(final(inner).sunk()),
            },
    {
        proof {
            if old(self).pending() == Seq::<u8>::empty() {
                assert(old(self).output_size - old(self).output_pos == 0);
            }
        }
        loop
            invariant
                self.wf(),
                self.synced_with(inner.sunk()),
                self.accepted() == old(self).accepted(),
                self.processed() == old(self).processed(),
                self.is_finalized() == old(self).is_finalized(),
                self.stream_state == old(self).stream_state,
                self.input_pos == old(self).input_pos,
                self.input_buf == old(self).input_buf,
                old(self).pending() == Seq::<u8>::empty() ==> (*self == *old(self) && *inner
                    == *old(inner)),
            ensures
                self.wf(),
                self.synced_with(inner.sunk()),
                self.accepted() == old(self).accepted(),
                self.processed() == old(self).processed(),
                self.is_finalized() == old(self).is_finalized(),
                self.stream_state == old(self).stream_state,
                self.input_pos == old(self).input_pos,
                self.input_buf == old(self).input_buf,
                old(self).pending() == Seq::<u8>::empty() ==> (*self == *old(self) && *inner
                    == *old(inner)),
                self.output_pos == self.output_size,
            decreases self.output_size - self.output_pos,
        {
            if self.output_pos >= self.output_size {
                break ;
            }
            let part = slice_subrange(self.output_buf.as_slice(), self.output_pos,
                self.output_size);
            let ghost pend0 = self.pending();
            let ghost sunk0 = inner.sunk();
            match inner.poll_write(part) {
                Poll::Ready(Ok(n)) => {
                    proof {
                        assert(pend0 =~= part@);
                        assert((sunk0 + part@.take(n as int)) + pend0.skip(n as int) =~= sunk0
                            + pend0);
                    }
                    self.output_pos = self.output_pos + n;
                    proof {
                        assert(self.pending() =~= pend0.skip(n as int));
                    }
                },
                Poll::Ready(Err(e)) => {
                    return Poll::Ready(Err(e));
                },
                Poll::Pending => {
                    return Poll::Pending;
                },
            }
        }
        Poll::Ready(Ok(()))
    }

    /// Accept a prefix of `data`, transducing whenever the input buffer
    /// fills up; pending output is handed to the sink first. A not-ready
    /// sink means nothing was accepted and nothing changed.
    pub fn poll_write<W: AsyncWriteCompat>(&mut self, inner: &mut W, data: &[u8]) -> (r: Poll<
        Result<usize, <W as AsyncWriteCompat>::Err>,
    >)
        requires
            old(self).wf(),
            old(self).synced_with(old(inner).sunk()),
            !old(self).is_finalized(),
            old(self).is_writing(),
        ensures
            final(self).wf(),
            final(self).is_finalized() == old(self).is_finalized(),
            final(self).is_writing(),
            old(self).pending() == Seq::<u8>::empty() ==> (r matches Poll::Ready(Ok(n)) && n as int
                == (if data@.len() as int <= old(self).free_space() {
                data@.len() as int
            } else {
                old(self).free_space()
            })),
            match r {
                Poll::Ready(Ok(n)) => {
                    &&& final(self).synced_with(final(inner).sunk())
                    &&& n <= data@.len()
                    &&& data@.len() > 0 ==> n > 0
                    &&& final(self).accepted() == old(self).accepted() + data@.take(n as int)
                },
                Poll::Ready(Err(_)) => final(self).accepted() == old(self).accepted(),
                Poll::Pending => final(self).synced_with(final(inner).sunk()) && final(self).accepted()
                    == old(self).accepted(),
            },
    {
        match self.drain(inner) {
            Poll::Ready(Ok(())) => {},
            Poll::Ready(Err(e)) => {
                return Poll::Ready(Err(e));
            },
            Poll::Pending => {
                return Poll::Pending;
            },
        }
        let ghost pre = *self;
        let space = self.input_buf.len() - self.input_pos;
        let k = if data.len() < space {
            data.len()
        } else {
            space
        };
        let blen: usize = data.len();
        let ilen: usize = self.input_buf.len();
        let mut i: usize = 0;
        while i < k
            invariant
                i <= k,
                k <= blen,
                blen == data@.len(),
                ilen == self.input_buf@.len(),
                pre.input_pos + k <= ilen,
                self.input_buf@.len() == pre.input_buf@.len(),
                self.input_pos == pre.input_pos,
                self.output_buf == pre.output_buf,
                self.output_pos == pre.output_pos,
                self.output_size == pre.output_size,
                self.last_was_cr == pre.last_was_cr,
                self.finalized == pre.finalized,
                self.stream_state == pre.stream_state,
                self.processed == pre.processed,
                forall|j: int| 0 <= j < pre.input_pos ==> self.input_buf@[j] == pre.input_buf@[j],
                forall|j: int|
                    pre.input_pos <= j < pre.input_pos + i ==> #[trigger] self.input_buf@[j]
                        == data@[j - pre.input_pos],
            decreases k - i,
        {
            let b = data[i];
            self.input_buf[self.input_pos + i] = b;
            i = i + 1;
        }
        self.input_pos = self.input_pos + k;
        proof {
            assert(self.input_buf@.take(self.input_pos as int) =~= pre.input_buf@.take(
                pre.input_pos as int,
            ) + data@.take(k as int));
            assert(self.accepted() =~= pre.accepted() + data@.take(k as int));
            assert(self.pending() =~= pre.pending());
            assert(self.synced_with(inner.sunk()));
        }
        if self.input_pos == self.input_buf.len() {
            let ghost mid = *self;
            self.transduce(false);
            proof {
                assert(inner.sunk() + self.pending() =~= norm_out::<N>(false, self.processed@));
            }
        }
        Poll::Ready(Ok(k))
    }

    /// Transduce what is buffered (finalizing if `finish`), hand everything
    /// to the sink, and flush it. Resumable: a not-ready report leaves the
    /// stream's bytes where they are and a later call goes on from there.
    pub fn poll_flush<W: AsyncWriteCompat>(&mut self, inner: &mut W, finish: bool) -> (r: Poll<
        Result<(), <W as AsyncWriteCompat>::Err>,
    >)
        requires
            old(self).wf(),
            old(self).synced_with(old(inner).sunk()),
            old(self).is_finalized() ==> finish,
        ensures
            final(self).wf(),
            match r {
                Poll::Ready(Ok(())) => {
                    &&& final(self).synced_with(final(inner).sunk())
                    &&& final(self).accepted() == old(self).accepted()
                    &&& final(self).pending() == Seq::<u8>::empty()
                    &&& final(self).processed() == old(self).accepted()
                    &&& final(self).is_finalized() == finish
                    &&& final(inner).sunk() == (if finish {
                        chunk_out::<N>(false, old(self).accepted(), true)
                    } else {
                        norm_out::<N>(false, old(self).accepted())
                    })
                },
                Poll::Ready(Err(_)) => final(self).accepted() == old(self).accepted(),
                Poll::Pending => final(self).synced_with(final(inner).sunk()) && final(self).accepted()
                    == old(self).accepted() && (final(self).is_finalized() ==> finish),
            },
    {
        match self.drain(inner) {
            Poll::Ready(Ok(())) => {},
            Poll::Ready(Err(e)) => {
                return Poll::Ready(Err(e));
            },
            Poll::Pending => {
                return Poll::Pending;
            },
        }
        let ghost mid = *self;
        self.transduce(finish);
        proof {
            if finish {
                if mid.finalized {
                    assert(inner.sunk() + self.pending() =~= chunk_out::<N>(
                        false,
                        self.processed@,
                        true,
                    ));
                } else {
                    assert(inner.sunk() + self.pending() =~= chunk_out::<N>(
                        false,
                        self.processed@,
                        true,
                    ));
                }
            } else {
                assert(inner.sunk() + self.pending() =~= norm_out::<N>(false, self.processed@));
            }
        }
        match self.drain(inner) {
            Poll::Ready(Ok(())) => {},
            Poll::Ready(Err(e)) => {
                return Poll::Ready(Err(e));
            },
            Poll::Pending => {
                return Poll::Pending;
            },
        }
        match inner.poll_flush() {
            Poll::Ready(Ok(())) => {},
            Poll::Ready(Err(e)) => {
                return Poll::Ready(Err(e));
            },
            Poll::Pending => {
                return Poll::Pending;
            },
        }
        proof {
            assert(inner.sunk() + Seq::<u8>::empty() =~= inner.sunk());
        }
        Poll::Ready(Ok(()))
    }

    /// Two-phase completion: first drain, transduce the last chunk and flush
    /// (phase `Finishing`), then signal end-of-stream to the sink (phase
    /// `Finished`). Each phase may report not-ready and resumes without
    /// redoing completed work.
    pub fn poll_finish<W: AsyncWriteCompat>(&mut self, inner: &mut W) -> (r: Poll<
        Result<(), <W as AsyncWriteCompat>::Err>,
    >)
        requires
            old(self).wf(),
            old(self).synced_with(old(inner).sunk()),
        ensures
            final(self).wf(),
            old(self).is_finished() ==> r matches Poll::Ready(Ok(())),
            match r {
                Poll::Ready(Ok(())) => {
                    &&& final(self).synced_with(final(inner).sunk())
                    &&& final(self).is_finished()
                    &&& final(self).accepted() == old(self).accepted()
                    &&& final(inner).sunk() == chunk_out::<N>(false, old(self).accepted(), true)
                },
                Poll::Ready(Err(_)) => final(self).accepted() == old(self).accepted(),
                Poll::Pending => final(self).synced_with(final(inner).sunk()) && final(self).accepted()
                    == old(self).accepted(),
            },
    {
        let in_writing = match self.stream_state {
            State::Writing => true,
            State::Finishing => false,
            State::Finished => false,
        };
        if in_writing {
            match self.poll_flush(inner, true) {
                Poll::Ready(Ok(())) => {},
                Poll::Ready(Err(e)) => {
                    return Poll::Ready(Err(e));
                },
                Poll::Pending => {
                    return Poll::Pending;
                },
            }
            self.stream_state = State::Finishing;
        }
        let in_finishing = match self.stream_state {
            State::Writing => false,
            State::Finishing => true,
            State::Finished => false,
        };
        if in_finishing {
            match inner.poll_finish() {
                Poll::Ready(Ok(())) => {},
                Poll::Ready(Err(e)) => {
                    return Poll::Ready(Err(e));
                },
                Poll::Pending => {
                    return Poll::Pending;
                },
            }
            self.stream_state = State::Finished;
        }
        proof {
            assert(inner.sunk() + self.pending() =~= inner.sunk());
        }
        Poll::Ready(Ok(()))
    }
}

} // verus!
