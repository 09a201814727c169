//! Blocking stream adapters: a pull-model reader and a push-model writer
//! that normalize on the fly, over any [`ReadCompat`] source or
//! [`WriteCompat`] sink. Their buffers are sized at construction from the
//! format's worst-case formula, so the transducer's capacity error is
//! unreachable inside them; what they guarantee is stated against the whole
//! session: the bytes handed out (or to the sink) are exactly the
//! normalization of the bytes taken in.

use vstd::prelude::*;

use core::marker::PhantomData;

use crate::compat::{ReadCompat, WriteCompat};
use crate::formats::{lemma_out_empty, Normalize};
use crate::model::{carry, chunk_out, lemma_out_append, norm_out};
use vstd::slice::slice_subrange;

verus! {

/// The internal buffer size used when none is given.
pub const DEFAULT_BUF_SIZE: usize = 8192;

/// A pull-model adapter that normalizes newlines on-the-fly while reading
/// from an underlying source.
///
/// Once a `read` returns 0 into a nonempty buffer, the bytes handed out so
/// far are exactly the normalization of everything the source yielded, and
/// every later `read` returns 0 again.
pub struct NormalizingReader<R, N: Normalize> {
    _marker: PhantomData<N>,
    reader: R,
    input_buf: Vec<u8>,
    output_buf: Vec<u8>,
    output_pos: usize,
    output_size: usize,
    last_was_cr: bool,
    end_of_stream: bool,
    consumed: Ghost<Seq<u8>>,
    produced: Ghost<Seq<u8>>,
}

impl<R: ReadCompat, N: Normalize> NormalizingReader<R, N> {
    /// All bytes obtained from the underlying source so far.
    pub closed spec fn consumed(&self) -> Seq<u8> {
        self.consumed@
    }

    /// All bytes handed out to the caller so far.
    pub closed spec fn produced(&self) -> Seq<u8> {
        self.produced@
    }

    /// Whether the source has reported the end of the stream.
    pub closed spec fn exhausted(&self) -> bool {
        self.end_of_stream
    }

    /// Whether the buffered output has been fully handed out.
    pub closed spec fn drained(&self) -> bool {
        self.output_pos >= self.output_size
    }

    /// The wrapped underlying source.
    pub closed spec fn source(&self) -> R {
        self.reader
    }

    /// The adapter's invariant: the bytes handed out, followed by the bytes
    /// still buffered, are exactly the normalization of the bytes consumed.
    pub closed spec fn wf(&self) -> bool {
        &&& 1 <= self.input_buf@.len()
        &&& N::spec_required(self.input_buf@.len() as int, true) <= usize::MAX
        &&& self.output_buf@.len() as int == N::spec_required(self.input_buf@.len() as int, true)
        &&& self.output_pos <= self.output_size <= self.output_buf@.len()
        &&& {
            let pending = self.output_buf@.subrange(
                self.output_pos as int,
                self.output_size as int,
            );
            if !self.end_of_stream {
                &&& self.produced@ + pending == norm_out::<N>(false, self.consumed@)
                &&& self.last_was_cr == carry(false, self.consumed@)
            } else {
                self.produced@ + pending == chunk_out::<N>(false, self.consumed@, true)
            }
        }
    }

    /// Wrap a source, with the default internal buffer size.
    pub fn new(reader: R) -> (r: Self)
        requires
            N::spec_required(DEFAULT_BUF_SIZE as int, true) <= usize::MAX as int,
        ensures
            r.wf(),
            r.consumed() == Seq::<u8>::empty(),
            r.produced() == Seq::<u8>::empty(),
    {
        Self::with_size(reader, DEFAULT_BUF_SIZE)
    }

    /// Wrap a source and choose the internal input buffer size.
    pub fn with_size(reader: R, buf_size: usize) -> (r: Self)
        requires
            1 <= buf_size,
            N::spec_required(buf_size as int, true) <= usize::MAX as int,
        ensures
            r.wf(),
            r.consumed() == Seq::<u8>::empty(),
            r.produced() == Seq::<u8>::empty(),
    {
        let cap = N::required_capacity(buf_size, true);
        let r = NormalizingReader {
            _marker: PhantomData,
            reader,
            input_buf: vec![0u8; buf_size],
            output_buf: vec![0u8; cap],
            output_pos: 0,
            output_size: 0,
            last_was_cr: false,
            end_of_stream: false,
            consumed: Ghost(Seq::empty()),
            produced: Ghost(Seq::empty()),
        };
        assert(r.output_buf@.subrange(0, 0) =~= Seq::<u8>::empty());
        assert(Seq::<u8>::empty() + Seq::<u8>::empty() =~= norm_out::<N>(false, Seq::empty()));
        r
    }

    /// Give the underlying source back, unchanged; any buffered, not yet
    /// drained normalized bytes are discarded.
    pub fn into_inner(self) -> (r: R)
        ensures
            r == self.source(),
    {
        self.reader
    }

    /// Pull one chunk from the source and transduce it into the output
    /// buffer; a zero-byte read finalizes the stream.
    fn fill_buf(&mut self) -> (r: Result<(), <R as ReadCompat>::Err>)
        requires
            old(self).wf(),
            old(self).output_pos >= old(self).output_size,
        ensures
            final(self).wf(),
            final(self).produced() == old(self).produced(),
            match r {
                Ok(()) => {
                    &&& final(self).output_pos == 0
                    &&& old(self).consumed().is_prefix_of(final(self).consumed())
                    &&& (old(self).end_of_stream ==> final(self).end_of_stream
                        && final(self).output_size == 0)
                    &&& (!old(self).end_of_stream && final(self).output_size == 0
                        && !final(self).end_of_stream) ==> (old(self).last_was_cr
                        && !final(self).last_was_cr)
                },
                Err(_) => {
                    &&& final(self).consumed() == old(self).consumed()
                    &&& final(self).output_size == final(self).output_pos
                    &&& final(self).end_of_stream == old(self).end_of_stream
                    &&& final(self).last_was_cr == old(self).last_was_cr
                },
            },
    {
        let ghost pre = *self;
        self.output_pos = 0;
        self.output_size = 0;
        proof {
            assert(pre.output_buf@.subrange(pre.output_pos as int, pre.output_size as int)
                =~= Seq::<u8>::empty());
            assert(self.output_buf@.subrange(0, 0) =~= Seq::<u8>::empty());
        }
        if self.end_of_stream {
            return Ok(());
        }
        let n = match self.reader.read(&mut self.input_buf) {
            Ok(n) => n,
            Err(e) => {
                return Err(e);
            },
        };
        let is_last = n == 0;
        if is_last {
            self.end_of_stream = true;
        }
        let chunk = slice_subrange(self.input_buf.as_slice(), 0, n);
        let ghost c = chunk@;
        let ghost p0 = self.last_was_cr;
        proof {
            N::lemma_required_mono(c.len() as int, self.input_buf@.len() as int, is_last);
        }
        let st = match N::normalize_chunk(
            chunk,
            self.output_buf.as_mut_slice(),
            self.last_was_cr,
            is_last,
        ) {
            Ok(st) => st,
            Err(_) => {
                return vstd::pervasive::unreached();
            },
        };
        self.output_size = st.output_len;
        self.last_was_cr = st.ended_with_cr;
        proof {
            self.consumed@ = self.consumed@ + c;
            lemma_out_append::<N>(false, pre.consumed@, c);
            assert(self.produced@ + Seq::<u8>::empty() =~= self.produced@);
            assert(self.output_buf@.subrange(0, st.output_len as int) == chunk_out::<N>(
                p0,
                c,
                is_last,
            ));
            if is_last {
                assert(c =~= Seq::<u8>::empty());
                assert(pre.consumed@ + c =~= pre.consumed@);
                assert(self.produced@ + self.output_buf@.subrange(
                    0,
                    self.output_size as int,
                ) =~= chunk_out::<N>(false, self.consumed@, true));
            } else {
                assert(chunk_out::<N>(p0, c, false) =~= norm_out::<N>(p0, c));
                assert(self.produced@ + self.output_buf@.subrange(
                    0,
                    self.output_size as int,
                ) =~= norm_out::<N>(false, self.consumed@));
                if self.output_size == 0 && !self.end_of_stream && c.len() > 0 {
                    lemma_out_empty::<N>(p0, c);
                }
            }
            assert(pre.consumed@.is_prefix_of(self.consumed@)) by {
                assert(self.consumed@.take(pre.consumed@.len() as int) =~= pre.consumed@);
            }
        }
        Ok(())
    }

    /// Read normalized bytes into the front of `buf` and say how many.
    ///
    /// Every byte handed out extends `produced`, which is always a prefix of
    /// the normalization of `consumed`. A return of 0 into a nonempty `buf`
    /// means the session is complete: `produced` is then exactly the
    /// normalization of everything the source yielded, finalized.
    pub fn read(&mut self, buf: &mut Vec<u8>) -> (r: Result<usize, <R as ReadCompat>::Err>)
        requires
            old(self).wf(),
        ensures
            final(self).wf(),
            final(buf)@.len() == old(buf)@.len(),
            old(self).exhausted() ==> (final(self).exhausted() && final(self).consumed() == old(
                self,
            ).consumed()),
            old(self).exhausted() && old(self).drained() ==> (r matches Ok(n) && n == 0),
            !old(self).drained() ==> (r matches Ok(n) && (old(buf)@.len() > 0 ==> n > 0)),
            match r {
                Ok(n) => {
                    &&& n <= final(buf)@.len()
                    &&& final(self).produced() == old(self).produced() + final(buf)@.take(n as int)
                    &&& final(buf)@.skip(n as int) == old(buf)@.skip(n as int)
                    &&& old(self).consumed().is_prefix_of(final(self).consumed())
                    &&& (n == 0 && old(buf)@.len() > 0) ==> final(self).exhausted()
                    &&& (n == 0 && old(buf)@.len() > 0) ==> final(self).produced() == chunk_out::<
                        N,
                    >(false, final(self).consumed(), true)
                },
                Err(_) => {
                    &&& final(self).produced() == old(self).produced()
                    &&& old(self).consumed().is_prefix_of(final(self).consumed())
                    &&& final(buf)@ == old(buf)@
                },
            },
    {
        loop
            invariant
                self.wf(),
                self.produced@ == old(self).produced(),
                old(self).consumed().is_prefix_of(self.consumed@),
                buf@ == old(buf)@,
                (!old(self).drained() || old(self).exhausted()) ==> *self == *old(self),
            ensures
                self.wf(),
                self.produced@ == old(self).produced(),
                old(self).consumed().is_prefix_of(self.consumed@),
                buf@ == old(buf)@,
                (!old(self).drained() || old(self).exhausted()) ==> *self == *old(self),
                self.output_pos < self.output_size || (self.end_of_stream && self.output_pos
                    >= self.output_size),
            decreases
                    (if self.end_of_stream {
                        0int
                    } else {
                        1int
                    }),
                    (if self.last_was_cr {
                        1int
                    } else {
                        0int
                    }),
        {
            if self.output_pos < self.output_size {
                break ;
            }
            if self.end_of_stream {
                break ;
            }
            let ghost at_entry = *self;
            match self.fill_buf() {
                Ok(()) => {},
                Err(e) => {
                    assert(self.output_buf@.subrange(
                        self.output_pos as int,
                        self.output_size as int,
                    ) =~= Seq::<u8>::empty());
                    assert(self.produced@ + Seq::<u8>::empty() =~= self.produced@);
                    return Err(e);
                },
            }
            if self.output_size > 0 {
                break ;
            }
            proof {
                if !self.end_of_stream {
                    assert(at_entry.last_was_cr && !self.last_was_cr);
                }
            }
        }
        if self.output_pos >= self.output_size {
            proof {
                assert(self.output_buf@.subrange(
                    self.output_pos as int,
                    self.output_size as int,
                ) =~= Seq::<u8>::empty());
                assert(self.produced@ + Seq::<u8>::empty() =~= self.produced@);
                assert(final(buf)@.take(0) =~= Seq::<u8>::empty());
                assert(self.produced@ + final(buf)@.take(0) =~= self.produced@);
            }
            return Ok(0);
        }
        // Drain buffered output into the caller's buffer.
        let avail = self.output_size - self.output_pos;
        let k = if buf.len() < avail {
            buf.len()
        } else {
            avail
        };
        let ghost pre = *self;
        let ghost buf0 = buf@;
        let mut i: usize = 0;
        while i < k
            invariant
                i <= k,
                k <= buf@.len(),
                k <= pre.output_size - pre.output_pos,
                *self == pre,
                self.output_pos + k <= self.output_buf@.len(),
                buf@.len() == buf0.len(),
                forall|j: int|
                    0 <= j < i ==> #[trigger] buf@[j] == self.output_buf@[self.output_pos + j],
                forall|j: int| i <= j < buf@.len() ==> buf@[j] == buf0[j],
            decreases k - i,
        {
            let b = self.output_buf[self.output_pos + i];
            buf[i] = b;
            i = i + 1;
        }
        self.output_pos = self.output_pos + k;
        proof {
            let drained = buf@.take(k as int);
            assert(drained =~= pre.output_buf@.subrange(
                pre.output_pos as int,
                pre.output_pos + k,
            ));
            self.produced@ = self.produced@ + drained;
            assert(pre.output_buf@.subrange(pre.output_pos as int, pre.output_size as int)
                =~= drained + self.output_buf@.subrange(
                self.output_pos as int,
                self.output_size as int,
            ));
            if !self.end_of_stream {
                assert(self.produced@ + self.output_buf@.subrange(
                    self.output_pos as int,
                    self.output_size as int,
                ) =~= norm_out::<N>(false, self.consumed@));
            } else {
                assert(self.produced@ + self.output_buf@.subrange(
                    self.output_pos as int,
                    self.output_size as int,
                ) =~= chunk_out::<N>(false, self.consumed@, true));
            }
            assert(buf@.skip(k as int) =~= buf0.skip(k as int));
        }
        Ok(k)
    }
}

/// A push-model adapter that normalizes newlines on-the-fly while writing to
/// an underlying sink.
///
/// At all times the sink has received exactly the normalization of the bytes
/// already transduced; `finish` transduces what is still buffered, finalizes
/// the stream and hands the sink back, which has then received exactly the
/// normalization of everything that was written.
pub struct NormalizingWriter<W, N: Normalize> {
    _marker: PhantomData<N>,
    inner: W,
    input_buf: Vec<u8>,
    output_buf: Vec<u8>,
    input_pos: usize,
    last_was_cr: bool,
    processed: Ghost<Seq<u8>>,
}

impl<W: WriteCompat, N: Normalize> NormalizingWriter<W, N> {
    /// All bytes accepted from the caller so far.
    pub closed spec fn accepted(&self) -> Seq<u8> {
        self.processed@ + self.input_buf@.take(self.input_pos as int)
    }

    /// All bytes the underlying sink has received.
    pub closed spec fn sunk(&self) -> Seq<u8> {
        self.inner.sunk()
    }

    /// How many more bytes the input buffer takes before a transduction to
    /// the sink becomes due.
    pub closed spec fn free_space(&self) -> int {
        self.input_buf@.len() - self.input_pos
    }

    /// The adapter's invariant: the sink has received exactly the
    /// normalization of the already-transduced prefix of the accepted bytes;
    /// the rest sits in the input buffer.
    pub closed spec fn wf(&self) -> bool {
        &&& 1 <= self.input_buf@.len()
        &&& N::spec_required(self.input_buf@.len() as int, true) <= usize::MAX
        &&& self.output_buf@.len() as int == N::spec_required(self.input_buf@.len() as int, true)
        &&& self.input_pos <= self.input_buf@.len()
        &&& self.inner.sunk() == norm_out::<N>(false, self.processed@)
        &&& self.last_was_cr == carry(false, self.processed@)
    }

    /// Wrap a sink, with the default internal buffer size.
    pub fn new(inner: W) -> (r: Self)
        requires
            N::spec_required(DEFAULT_BUF_SIZE as int, true) <= usize::MAX as int,
            inner.sunk() == Seq::<u8>::empty(),
        ensures
            r.wf(),
            r.accepted() == Seq::<u8>::empty(),
            r.sunk() == Seq::<u8>::empty(),
    {
        Self::with_size(inner, DEFAULT_BUF_SIZE)
    }

    /// Wrap a sink and choose the internal input buffer size.
    pub fn with_size(inner: W, buf_size: usize) -> (r: Self)
        requires
            1 <= buf_size,
            N::spec_required(buf_size as int, true) <= usize::MAX as int,
            inner.sunk() == Seq::<u8>::empty(),
        ensures
            r.wf(),
            r.accepted() == Seq::<u8>::empty(),
            r.sunk() == Seq::<u8>::empty(),
    {
        let cap = N::required_capacity(buf_size, true);
        let r = NormalizingWriter {
            _marker: PhantomData,
            inner,
            input_buf: vec![0u8; buf_size],
            output_buf: vec![0u8; cap],
            input_pos: 0,
            last_was_cr: false,
            processed: Ghost(Seq::empty()),
        };
        assert(r.input_buf@.take(0) =~= Seq::<u8>::empty());
        assert(r.accepted() =~= Seq::<u8>::empty());
        r
    }

    /// Transduce the buffered input as one chunk and forward the result to
    /// the sink.
    fn pump(&mut self, is_last: bool) -> (r: Result<(), <W as WriteCompat>::Err>)
        requires
            old(self).wf(),
        ensures
            match r {
                Ok(()) => {
                    &&& !is_last ==> final(self).wf()
                    &&& final(self).accepted() == old(self).accepted()
                    &&& final(self).input_pos == 0
                    &&& final(self).sunk() == chunk_out::<N>(false, old(self).accepted(), is_last)
                    &&& final(self).input_buf@.len() == old(self).input_buf@.len()
                },
                Err(_) => {
                    &&& final(self).accepted() == old(self).accepted()
                    &&& exists|k: int|
                        0 <= k && final(self).sunk() == chunk_out::<N>(
                            false,
                            old(self).accepted(),
                            is_last,
                        ).take(k)
                },
            },
    {
        let ghost pre = *self;
        let n = self.input_pos;
        let chunk = slice_subrange(self.input_buf.as_slice(), 0, n);
        let ghost c = chunk@;
        proof {
            N::lemma_required_mono(c.len() as int, self.input_buf@.len() as int, is_last);
        }
        let st = match N::normalize_chunk(
            chunk,
            self.output_buf.as_mut_slice(),
            self.last_was_cr,
            is_last,
        ) {
            Ok(st) => st,
            Err(_) => {
                return vstd::pervasive::unreached();
            },
        };
        let ghost emitted = chunk_out::<N>(pre.last_was_cr, c, is_last);
        proof {
            lemma_out_append::<N>(false, pre.processed@, c);
            assert(norm_out::<N>(false, pre.processed@ + c) == norm_out::<N>(
                false,
                pre.processed@,
            ) + norm_out::<N>(pre.last_was_cr, c));
            assert(chunk_out::<N>(false, pre.processed@ + c, is_last) =~= norm_out::<N>(
                false,
                pre.processed@,
            ) + emitted);
            assert(pre.accepted() =~= pre.processed@ + c);
        }
        let part = slice_subrange(self.output_buf.as_slice(), 0, st.output_len);
        assert(part@ == emitted);
        match self.inner.write_all(part) {
            Ok(()) => {},
            Err(e) => {
                proof {
                    let k0 = choose|k0: int|
                        0 <= k0 <= part@.len() && self.inner.sunk() == pre.inner.sunk()
                            + part@.take(k0);
                    assert(self.inner.sunk() =~= chunk_out::<N>(
                        false,
                        pre.accepted(),
                        is_last,
                    ).take(norm_out::<N>(false, pre.processed@).len() + k0));
                }
                return Err(e);
            },
        }
        self.input_pos = 0;
        self.last_was_cr = st.ended_with_cr;
        proof {
            self.processed@ = pre.processed@ + c;
            assert(self.inner.sunk() =~= chunk_out::<N>(false, pre.accepted(), is_last));
            assert(self.input_buf@.take(0) =~= Seq::<u8>::empty());
            assert(self.accepted() =~= pre.accepted());
            if !is_last {
                assert(chunk_out::<N>(pre.last_was_cr, c, false) =~= norm_out::<N>(
                    pre.last_was_cr,
                    c,
                ));
                assert(self.inner.sunk() =~= norm_out::<N>(false, self.processed@));
            }
        }
        Ok(())
    }

    /// Accept bytes, transducing and forwarding each time the input buffer
    /// fills up. All of `buf` is accepted on success.
    pub fn write(&mut self, buf: &[u8]) -> (r: Result<usize, <W as WriteCompat>::Err>)
        requires
            old(self).wf(),
        ensures
            buf@.len() < old(self).free_space() ==> r matches Ok(n),
            match r {
                Ok(n) => {
                    &&& final(self).wf()
                    &&& n == buf@.len()
                    &&& final(self).accepted() == old(self).accepted() + buf@
                },
                Err(_) => exists|k: int|
                    0 <= k <= buf@.len() && final(self).accepted() == old(self).accepted()
                        + buf@.take(k),
            },
    {
        let ghost acc0 = self.accepted();
        let mut done: usize = 0;
        loop
            invariant
                self.wf(),
                done <= buf@.len(),
                self.accepted() == acc0 + buf@.take(done as int),
                acc0 == old(self).accepted(),
                old(self).free_space() > buf@.len() ==> self.input_pos as int == old(
                    self,
                ).input_pos + done && self.input_buf@.len() == old(self).input_buf@.len(),
            ensures
                self.wf(),
                done == buf@.len(),
                self.accepted() == acc0 + buf@.take(done as int),
            decreases buf@.len() - done,
        {
            if done >= buf.len() {
                break ;
            }
            if self.input_pos == self.input_buf.len() {
                let ghost before = *self;
                match self.pump(false) {
                    Ok(()) => {},
                    Err(e) => {
                        return Err(e);
                    },
                }
                proof {
                    assert(chunk_out::<N>(false, before.accepted(), false) =~= norm_out::<N>(
                        false,
                        before.accepted(),
                    ));
                }
            }
            let ghost pre = *self;
            let space = self.input_buf.len() - self.input_pos;
            let remaining = buf.len() - done;
            let bytes_now = if remaining < space {
                remaining
            } else {
                space
            };
            let blen: usize = buf.len();
            let ilen: usize = self.input_buf.len();
            let mut i: usize = 0;
            while i < bytes_now
                invariant
                    i <= bytes_now,
                    done + bytes_now <= blen,
                    blen == buf@.len(),
                    ilen == self.input_buf@.len(),
                    pre.input_pos + bytes_now <= ilen,
                    self.input_buf@.len() == pre.input_buf@.len(),
                    self.input_pos == pre.input_pos,
                    self.output_buf == pre.output_buf,
                    self.inner == pre.inner,
                    self.last_was_cr == pre.last_was_cr,
                    self.processed == pre.processed,
                    forall|j: int| 0 <= j < pre.input_pos ==> self.input_buf@[j] == pre.input_buf@[j],
                    forall|j: int|
                        pre.input_pos <= j < pre.input_pos + i ==> #[trigger] self.input_buf@[j]
                            == buf@[done + (j - pre.input_pos)],
                decreases bytes_now - i,
            {
                let b = buf[done + i];
                self.input_buf[self.input_pos + i] = b;
                i = i + 1;
            }
            self.input_pos = self.input_pos + bytes_now;
            done = done + bytes_now;
            proof {
                assert(self.input_buf@.take(self.input_pos as int) =~= pre.input_buf@.take(
                    pre.input_pos as int,
                ) + buf@.subrange(done - bytes_now, done as int));
                assert(buf@.take(done as int) =~= buf@.take(done - bytes_now) + buf@.subrange(
                    done - bytes_now,
                    done as int,
                ));
                assert(pre.accepted() == acc0 + buf@.take(done - bytes_now));
                assert(self.processed@ == pre.processed@);
                assert(self.accepted() == self.processed@ + self.input_buf@.take(
                    self.input_pos as int,
                ));
                assert(self.accepted() =~= (pre.processed@ + pre.input_buf@.take(
                    pre.input_pos as int,
                )) + buf@.subrange(done - bytes_now, done as int));
                assert(self.accepted() =~= acc0 + buf@.take(done as int));
            }
        }
        Ok(done)
    }

    /// Transduce whatever partial input is buffered (not finalizing, so a
    /// trailing lone CR stays deferred), forward it, and flush the sink.
    /// Afterwards the sink has received exactly the un-finalized
    /// normalization of all accepted bytes.
    pub fn flush(&mut self) -> (r: Result<(), <W as WriteCompat>::Err>)
        requires
            old(self).wf(),
        ensures
            match r {
                Ok(()) => {
                    &&& final(self).wf()
                    &&& final(self).accepted() == old(self).accepted()
                    &&& final(self).sunk() == norm_out::<N>(false, old(self).accepted())
                },
                Err(_) => final(self).accepted() == old(self).accepted(),
            },
    {
        match self.pump(false) {
            Ok(()) => {},
            Err(e) => {
                return Err(e);
            },
        }
        proof {
            assert(chunk_out::<N>(false, old(self).accepted(), false) =~= norm_out::<N>(
                false,
                old(self).accepted(),
            ));
        }
        match self.inner.flush() {
            Ok(()) => Ok(()),
            Err(e) => Err(e),
        }
    }

    /// Transduce the remaining input as the stream's last chunk, forward it,
    /// and yield the sink back: it has then received exactly the finalized
    /// normalization of everything that was written.
    pub fn finish(self) -> (r: Result<W, <W as WriteCompat>::Err>)
        requires
            self.wf(),
        ensures
            match r {
                Ok(w) => w.sunk() == chunk_out::<N>(false, self.accepted(), true),
                Err(_) => true,
            },
    {
        let mut this = self;
        match this.pump(true) {
            Ok(()) => {},
            Err(e) => {
                return Err(e);
            },
        }
        Ok(this.inner)
    }
}

/// Extension trait giving each format convenient constructors for the
/// blocking adapters over any compatible source or sink.
pub trait IoExt: Normalize {
    /// Wrap a source with a newline-normalizing reader, using the default
    /// internal buffer size.
    fn wrap_reader<R: ReadCompat>(reader: R) -> (r: NormalizingReader<R, Self>)
        requires
            Self::spec_required(DEFAULT_BUF_SIZE as int, true) <= usize::MAX as int,
        ensures
            r.wf(),
            r.consumed() == Seq::<u8>::empty(),
            r.produced() == Seq::<u8>::empty(),
    ;

    /// Wrap a source with a newline-normalizing reader and choose the
    /// internal buffer size.
    fn wrap_reader_with_buffer_size<R: ReadCompat>(reader: R, buf_size: usize) -> (r:
        NormalizingReader<R, Self>)
        requires
            1 <= buf_size,
            Self::spec_required(buf_size as int, true) <= usize::MAX as int,
        ensures
            r.wf(),
            r.consumed() == Seq::<u8>::empty(),
            r.produced() == Seq::<u8>::empty(),
    ;

    /// Wrap a sink with a newline-normalizing writer, using the default
    /// internal buffer size.
    fn wrap_writer<W: WriteCompat>(writer: W) -> (r: NormalizingWriter<W, Self>)
        requires
            Self::spec_required(DEFAULT_BUF_SIZE as int, true) <= usize::MAX as int,
            writer.sunk() == Seq::<u8>::empty(),
        ensures
            r.wf(),
            r.accepted() == Seq::<u8>::empty(),
            r.sunk() == Seq::<u8>::empty(),
    ;

    /// Wrap a sink with a newline-normalizing writer and choose the internal
    /// buffer size.
    fn wrap_writer_with_buffer_size<W: WriteCompat>(writer: W, buf_size: usize) -> (r:
        NormalizingWriter<W, Self>)
        requires
            1 <= buf_size,
            Self::spec_required(buf_size as int, true) <= usize::MAX as int,
            writer.sunk() == Seq::<u8>::empty(),
        ensures
            r.wf(),
            r.accepted() == Seq::<u8>::empty(),
            r.sunk() == Seq::<u8>::empty(),
    ;
}

impl IoExt for crate::crlf::CRLF {
    fn wrap_reader<R: ReadCompat>(reader: R) -> (r: NormalizingReader<R, Self>) {
        NormalizingReader::new(reader)
    }

    fn wrap_reader_with_buffer_size<R: ReadCompat>(reader: R, buf_size: usize) -> (r:
        NormalizingReader<R, Self>) {
        NormalizingReader::with_size(reader, buf_size)
    }

    fn wrap_writer<W: WriteCompat>(writer: W) -> (r: NormalizingWriter<W, Self>) {
        NormalizingWriter::new(writer)
    }

    fn wrap_writer_with_buffer_size<W: WriteCompat>(writer: W, buf_size: usize) -> (r:
        NormalizingWriter<W, Self>) {
        NormalizingWriter::with_size(writer, buf_size)
    }
}

impl IoExt for crate::lf::LF {
    fn wrap_reader<R: ReadCompat>(reader: R) -> (r: NormalizingReader<R, Self>) {
        NormalizingReader::new(reader)
    }

    fn wrap_reader_with_buffer_size<R: ReadCompat>(reader: R, buf_size: usize) -> (r:
        NormalizingReader<R, Self>) {
        NormalizingReader::with_size(reader, buf_size)
    }

    fn wrap_writer<W: WriteCompat>(writer: W) -> (r: NormalizingWriter<W, Self>) {
        NormalizingWriter::new(writer)
    }

    fn wrap_writer_with_buffer_size<W: WriteCompat>(writer: W, buf_size: usize) -> (r:
        NormalizingWriter<W, Self>) {
        NormalizingWriter::with_size(writer, buf_size)
    }
}

/// Extension trait to wrap any byte source directly.
pub trait ReadExt: ReadCompat + Sized {
    /// Wrap this source with a newline-normalizing reader, using the
    /// default internal buffer size.
    fn normalize_newlines<N: Normalize>(self, format: N) -> (r: NormalizingReader<Self, N>)
        requires
            N::spec_required(DEFAULT_BUF_SIZE as int, true) <= usize::MAX as int,
        ensures
            r.wf(),
            r.consumed() == Seq::<u8>::empty(),
            r.produced() == Seq::<u8>::empty(),
    ;
}

impl<R: ReadCompat> ReadExt for R {
    fn normalize_newlines<N: Normalize>(self, format: N) -> (r: NormalizingReader<Self, N>) {
        NormalizingReader::new(self)
    }
}

/// Extension trait to wrap any byte sink directly.
pub trait WriteExt: WriteCompat + Sized {
    /// Wrap this sink with a newline-normalizing writer, using the default
    /// internal buffer size.
    fn normalize_newlines<N: Normalize>(self, format: N) -> (r: NormalizingWriter<Self, N>)
        requires
            N::spec_required(DEFAULT_BUF_SIZE as int, true) <= usize::MAX as int,
            self.sunk() == Seq::<u8>::empty(),
        ensures
            r.wf(),
            r.accepted() == Seq::<u8>::empty(),
            r.sunk() == Seq::<u8>::empty(),
    ;
}

impl<W: WriteCompat> WriteExt for W {
    fn normalize_newlines<N: Normalize>(self, format: N) -> (r: NormalizingWriter<Self, N>) {
        NormalizingWriter::new(self)
    }
}

} // verus!
