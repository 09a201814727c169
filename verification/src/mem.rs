//! In-memory byte sources and sinks: a segmented source that hands its data
//! out segment by segment (so chunk boundaries land wherever a test puts
//! them) and a sink that collects everything it is given. They implement
//! both the blocking and the pollable interfaces; the pollable ones are
//! always ready.

use vstd::prelude::*;

use crate::compat::{AsyncReadCompat, AsyncWriteCompat, Poll, ReadCompat, WriteCompat};

verus! {

/// A byte source over a list of segments. Each read draws from the current
/// segment only, so the segment boundaries decide how the stream is chunked.
pub struct VecSource {
    segments: Vec<Vec<u8>>,
    idx: usize,
    pos: usize,
}

impl VecSource {
    /// Cursor sanity: the segment index never runs past the list, and the
    /// byte position stays within the current segment.
    #[verifier::type_invariant]
    spec fn inv(&self) -> bool {
        &&& self.idx <= self.segments@.len()
        &&& self.idx < self.segments@.len() ==> self.pos <= self.segments@[self.idx as int]@.len()
    }

    /// The bytes not yet handed out: the rest of the current segment, then
    /// all later segments in order.
    pub closed spec fn remaining(&self) -> Seq<u8> {
        let segs = self.segments@.map_values(|v: Vec<u8>| v@);
        if self.idx < segs.len() {
            segs[self.idx as int].skip(self.pos as int) + segs.skip(self.idx + 1).flatten()
        } else {
            Seq::<u8>::empty()
        }
    }

    /// A source that yields the given segments in order.
    pub fn new(segments: Vec<Vec<u8>>) -> (r: Self)
        ensures
            r.remaining() == segments@.map_values(|v: Vec<u8>| v@).flatten(),
    {
        let r = VecSource { segments, idx: 0, pos: 0 };
        proof {
            let segs = r.segments@.map_values(|v: Vec<u8>| v@);
            if segs.len() > 0 {
                assert(segs[0].skip(0) =~= segs.first());
                assert(segs.skip(1) =~= segs.drop_first());
                assert(r.remaining() =~= segs.flatten());
            }
        }
        r
    }

    /// Whether every byte has been handed out.
    pub fn is_done(&self) -> (r: bool)
        ensures
            r ==> self.remaining() == Seq::<u8>::empty(),
    {
        self.idx >= self.segments.len()
    }
}

impl ReadCompat for VecSource {
    type Err = ();

    /// Reads never fail and deliver the next bytes in order: the filled
    /// prefix is the front of `remaining`, which shrinks by exactly that
    /// much; only an empty caller buffer or an exhausted source yields 0.
    fn read(&mut self, buf: &mut Vec<u8>) -> (r: Result<usize, ()>)
        ensures
            r is Ok,
            r matches Ok(n) ==> {
                &&& n <= final(buf)@.len()
                &&& n <= old(self).remaining().len()
                &&& final(buf)@.take(n as int) == old(self).remaining().take(n as int)
                &&& final(buf)@.skip(n as int) == old(buf)@.skip(n as int)
                &&& final(self).remaining() == old(self).remaining().skip(n as int)
                &&& n == 0 ==> (old(self).remaining().len() == 0 || old(buf)@.len() == 0)
            },
    {
        loop
            invariant
                self.remaining() == old(self).remaining(),
                buf@ == old(buf)@,
            decreases self.segments@.len() - self.idx,
        {
            proof {
                use_type_invariant(&*self);
            }
            let ghost segs = self.segments@.map_values(|v: Vec<u8>| v@);
            if self.idx >= self.segments.len() {
                proof {
                    assert(self.remaining() =~= Seq::<u8>::empty());
                    assert(final(buf)@.take(0) =~= old(self).remaining().take(0));
                    assert(final(buf)@.skip(0) =~= old(buf)@.skip(0));
                }
                return Ok(0);
            }
            let seg_len = self.segments[self.idx].len();
            if self.pos >= seg_len {
                // The current segment is spent; stepping to the next one
                // hands out nothing, so `remaining` does not change.
                let ghost pre = *self;
                proof {
                    assert(segs[pre.idx as int].skip(pre.pos as int) =~= Seq::<u8>::empty());
                }
                self.pos = 0;
                self.idx = self.idx + 1;
                proof {
                    let t = segs.skip(pre.idx + 1);
                    if self.idx < self.segments@.len() {
                        assert(t.first() == segs[self.idx as int]);
                        assert(t.drop_first() =~= segs.skip(self.idx + 1));
                        assert(segs[self.idx as int].skip(0) =~= segs[self.idx as int]);
                        assert(self.remaining() =~= t.flatten());
                    } else {
                        assert(t.len() == 0);
                    }
                    assert(pre.remaining() =~= Seq::<u8>::empty() + t.flatten());
                    assert(self.remaining() =~= pre.remaining());
                }
                continue ;
            }
            let avail = seg_len - self.pos;
            let k = if buf.len() < avail {
                buf.len()
            } else {
                avail
            };
            let ghost pre = *self;
            let ghost buf0 = buf@;
            let mut i: usize = 0;
            while i < k
                invariant
                    i <= k,
                    k <= buf@.len(),
                    buf@.len() <= usize::MAX,
                    *self == pre,
                    pre.pos + k <= pre.segments@[pre.idx as int]@.len(),
                    pre.segments@[pre.idx as int]@.len() <= usize::MAX,
                    pre.idx < pre.segments@.len(),
                    buf@.len() == buf0.len(),
                    forall|j: int|
                        0 <= j < i ==> #[trigger] buf@[j] == pre.segments@[pre.idx as int]@[pre.pos
                            + j],
                    forall|j: int| i <= j < buf@.len() ==> buf@[j] == buf0[j],
                decreases k - i,
            {
                let b = self.segments[self.idx][self.pos + i];
                buf[i] = b;
                i = i + 1;
            }
            self.pos = self.pos + k;
            proof {
                let a = segs[pre.idx as int].skip(pre.pos as int);
                let rest = segs.skip(pre.idx + 1).flatten();
                assert(segs[pre.idx as int] == pre.segments@[pre.idx as int]@);
                assert(buf@.take(k as int) =~= a.take(k as int));
                assert(pre.remaining().take(k as int) =~= a.take(k as int));
                assert(buf@.skip(k as int) =~= buf0.skip(k as int));
                assert(segs[pre.idx as int].skip(self.pos as int) =~= a.skip(k as int));
                assert(self.remaining() =~= pre.remaining().skip(k as int));
            }
            return Ok(k);
        }
    }
}

impl AsyncReadCompat for VecSource {
    type Err = ();

    fn poll_read(&mut self, buf: &mut Vec<u8>) -> (r: Poll<Result<usize, ()>>) {
        Poll::Ready(self.read(buf))
    }
}

/// A byte sink that collects everything it is given.
pub struct VecSink {
    data: Vec<u8>,
}

impl VecSink {
    /// An empty sink.
    pub fn new() -> (r: Self)
        ensures
            WriteCompat::sunk(&r) == Seq::<u8>::empty(),
            AsyncWriteCompat::sunk(&r) == Seq::<u8>::empty(),
    {
        VecSink { data: Vec::new() }
    }

    /// Hand the collected bytes back.
    pub fn into_inner(self) -> (r: Vec<u8>)
        ensures
            r@ == WriteCompat::sunk(&self),
            r@ == AsyncWriteCompat::sunk(&self),
    {
        self.data
    }

    /// The number of bytes collected so far.
    pub fn len(&self) -> (r: usize)
        ensures
            r == WriteCompat::sunk(self).len(),
    {
        self.data.len()
    }
}

impl WriteCompat for VecSink {
    type Err = ();

    closed spec fn sunk(&self) -> Seq<u8> {
        self.data@
    }

    fn write_all(&mut self, data: &[u8]) -> (r: Result<(), ()>) {
        self.data.extend_from_slice(data);
        Ok(())
    }

    fn flush(&mut self) -> (r: Result<(), ()>) {
        Ok(())
    }
}

impl AsyncWriteCompat for VecSink {
    type Err = ();

    closed spec fn sunk(&self) -> Seq<u8> {
        self.data@
    }

    fn poll_write(&mut self, data: &[u8]) -> (r: Poll<Result<usize, ()>>) {
        self.data.extend_from_slice(data);
        proof {
            assert(data@.take(data@.len() as int) =~= data@);
        }
        Poll::Ready(Ok(data.len()))
    }

    fn poll_flush(&mut self) -> (r: Poll<Result<(), ()>>) {
        Poll::Ready(Ok(()))
    }

    fn poll_finish(&mut self) -> (r: Poll<Result<(), ()>>) {
        Poll::Ready(Ok(()))
    }
}

} // verus!
