//! The capability interface shared by the two normalization formats, the
//! per-chunk result type, and the error type of the transducer layer.

use vstd::prelude::*;

use crate::model::{chunk_carry, chunk_out, norm_out, NormalizeModel};
use vstd::utf8::{encode_utf8, valid_utf8};

verus! {

/// The only failure of the transducer layer: the caller's output buffer is
/// smaller than the worst case computed from the input length alone.
#[derive(Debug, Clone, Copy, PartialEq, Eq, Structural)]
pub enum Error {
    /// The provided output buffer was too small.
    ///
    /// `required` is the number of bytes necessary to hold the worst-case
    /// expansion of the input (worst-case depends on the used normalization).
    OutputBufferTooSmall { required: usize },
}

impl Error {
    /// The buffer size that would have let the failed call succeed.
    pub fn required_size(&self) -> (r: usize)
        ensures
            self matches Error::OutputBufferTooSmall { required } && r == required,
    {
        match self {
            Error::OutputBufferTooSmall { required } => *required,
        }
    }
}

/// Result returned by `normalize_chunk` describing how many bytes were
/// written and whether the chunk ended with a `\r`.
#[derive(Debug, Clone, Copy, PartialEq, Eq, Structural)]
pub struct NormalizeChunkResult {
    pub output_len: usize,
    pub ended_with_cr: bool,
}

impl NormalizeChunkResult {
    /// Construct a new `NormalizeChunkResult`.
    pub fn new(output_len: usize, ended_with_cr: bool) -> (r: Self)
        ensures
            r.output_len == output_len,
            r.ended_with_cr == ended_with_cr,
    {
        Self { output_len, ended_with_cr }
    }

    /// Returns the number of bytes written into the output buffer for the
    /// last processed chunk.
    pub fn output_len(&self) -> (r: usize)
        ensures
            r == self.output_len,
    {
        self.output_len
    }

    /// Whether the input ended with an unpaired `\r`.
    ///
    /// If `true`, the next invocation of `normalize_chunk` should have
    /// `preceded_by_cr` set to `true` to properly handle a possible leading
    /// `\n`.
    pub fn ended_with_cr(&self) -> (r: bool)
        ensures
            r == self.ended_with_cr,
    {
        self.ended_with_cr
    }
}

/// This is the core trait that defines how to normalize data to a specific
/// format.
///
/// The supertrait [`NormalizeModel`] gives the format's mathematical model.
/// The proof members here oblige every format to show that the capacity
/// formula really covers the model. The exec methods perform the work and
/// promise, byte for byte, the output the model prescribes.
pub trait Normalize: NormalizeModel {
    /// The capacity formula covers every possible chunk output.
    proof fn lemma_chunk_len(p: bool, s: Seq<u8>, is_last: bool)
        ensures
            chunk_out::<Self>(p, s, is_last).len() <= Self::spec_required(s.len() as int, is_last),
    ;

    /// The capacity formula is nonnegative and grows with the input length,
    /// and a final chunk never needs less room than a non-final one.
    proof fn lemma_required_mono(len1: int, len2: int, is_last: bool)
        requires
            0 <= len1 <= len2,
        ensures
            0 <= Self::spec_required(len1, is_last) <= Self::spec_required(len2, true),
    ;

    /// Finalizing with no CR carried emits nothing.
    proof fn lemma_fin_quiet()
        ensures
            Self::spec_fin(false) == Seq::<u8>::empty(),
    ;

    /// A byte's step emits nothing only when it is an LF completing a CR
    /// carried in; in particular a step under no carried state always emits,
    /// and a silent byte is never itself a CR.
    proof fn lemma_step_empty(p: bool, b: u8)
        ensures
            Self::spec_step(p, b).len() == 0 ==> p && b != crate::model::CR,
    ;

    /// Normalization preserves UTF-8 validity: the formats only insert or
    /// remove the single-byte ASCII characters CR and LF.
    proof fn lemma_chunk_valid_utf8(p: bool, s: Seq<u8>, is_last: bool)
        requires
            valid_utf8(s),
        ensures
            valid_utf8(chunk_out::<Self>(p, s, is_last)),
    ;

    /// Returns the required output buffer size for a chunk of `len` input
    /// bytes, without looking at the input.
    fn required_capacity(len: usize, is_last: bool) -> (r: usize)
        requires
            Self::spec_required(len as int, is_last) <= usize::MAX as int,
        ensures
            r as int == Self::spec_required(len as int, is_last),
    ;

    /// Normalize a single chunk of input to the required format into the
    /// provided `output` buffer.
    ///
    /// Parameters:
    /// - `input`: bytes to normalize
    /// - `output`: destination buffer.
    /// - `preceded_by_cr`: set to `true` if the previous chunk ended with a `\r`.
    /// - `is_last_chunk`: set to `true` if this is the final chunk of the stream.
    ///
    /// Returns a `NormalizeChunkResult` on success which tells how many bytes
    /// were written and whether the chunk ended with a dangling `\r`.
    ///
    /// Returns `Err(Error::OutputBufferTooSmall { required })`, and writes
    /// nothing, exactly when `output` is smaller than the worst-case
    /// expansion of `input`, which is calculated without processing the
    /// input.
    fn normalize_chunk(
        input: &[u8],
        output: &mut [u8],
        preceded_by_cr: bool,
        is_last_chunk: bool,
    ) -> (r: Result<NormalizeChunkResult, Error>)
        requires
            Self::spec_required(input@.len() as int, is_last_chunk) <= usize::MAX as int,
        ensures
            final(output)@.len() == old(output)@.len(),
            match r {
                Ok(res) => {
                    &&& old(output)@.len() >= Self::spec_required(
                        input@.len() as int,
                        is_last_chunk,
                    )
                    &&& res.output_len as int == chunk_out::<Self>(
                        preceded_by_cr,
                        input@,
                        is_last_chunk,
                    ).len()
                    &&& res.output_len <= final(output)@.len()
                    &&& final(output)@.subrange(0, res.output_len as int) == chunk_out::<Self>(
                        preceded_by_cr,
                        input@,
                        is_last_chunk,
                    )
                    &&& final(output)@.skip(res.output_len as int) == old(output)@.skip(
                        res.output_len as int,
                    )
                    &&& res.ended_with_cr == chunk_carry(preceded_by_cr, input@, is_last_chunk)
                },
                Err(e) => {
                    &&& old(output)@.len() < Self::spec_required(input@.len() as int, is_last_chunk)
                    &&& final(output)@ == old(output)@
                    &&& e matches Error::OutputBufferTooSmall { required } && required as int
                        == Self::spec_required(input@.len() as int, is_last_chunk)
                },
            },
    ;

    /// Returns the required output buffer size for the given input buffer,
    /// treated as the final chunk of its stream.
    fn output_size_for(input: &[u8]) -> (r: usize)
        requires
            Self::spec_required(input@.len() as int, true) <= usize::MAX as int,
        ensures
            r as int == Self::spec_required(input@.len() as int, true),
    ;

    /// Normalize the entire input buffer and return a newly allocated
    /// `Vec<u8>` with the result.
    fn normalize(input: &[u8]) -> (r: Vec<u8>)
        requires
            Self::spec_required(input@.len() as int, true) <= usize::MAX as int,
        ensures
            r@ == chunk_out::<Self>(false, input@, true),
    ;

    /// Normalize the entire input string and return a newly allocated
    /// `String` with the result: its UTF-8 bytes are exactly the
    /// normalization of the input's UTF-8 bytes. The result is again valid
    /// UTF-8 because only the ASCII characters CR and LF are inserted or
    /// removed.
    fn normalize_str(input: &str) -> (r: String)
        requires
            Self::spec_required(encode_utf8(input@).len() as int, true) <= usize::MAX as int,
        ensures
            encode_utf8(r@) == chunk_out::<Self>(false, encode_utf8(input@), true),
    ;
}

/// The fold emits nothing for a nonempty chunk only when the chunk is a
/// single LF completing a CR carried in; nothing is then carried out.
pub(crate) proof fn lemma_out_empty<N: Normalize>(p: bool, c: Seq<u8>)
    requires
        norm_out::<N>(p, c).len() == 0,
        c.len() > 0,
    ensures
        !crate::model::carry(p, c),
        p,
{
    N::lemma_step_empty(p, c[0]);
    if c.len() > 1 {
        let c1 = c.drop_first();
        N::lemma_step_empty(c[0] == crate::model::CR, c1[0]);
        assert(norm_out::<N>(c[0] == crate::model::CR, c1).len() > 0);
    }
}

} // verus!
