//! LF normalization: every CR LF pair and every bare CR becomes a single LF,
//! bare LF bytes are kept as they are.

use vstd::prelude::*;

use crate::bytes::copy_span;
use crate::formats::{Error, Normalize, NormalizeChunkResult};
use crate::model::{
    self, carry, chunk_out, lemma_out_append, lemma_out_snoc, norm_out, NormalizeModel, CR,
};
use crate::scan::find_byte;

verus! {

/// LF normalization format implementation.
///
/// Will convert all line endings that are not LF (i.e. CRLF or CR alone) into
/// LF.
pub struct LF;

impl NormalizeModel for LF {
    /// A CR emits its replacement LF at once; an LF that completes a carried
    /// CR emits nothing, because that CR's replacement was already emitted;
    /// every other byte passes through.
    open spec fn spec_step(p: bool, b: u8) -> Seq<u8> {
        if b == model::LF {
            if p {
                Seq::empty()
            } else {
                seq![model::LF]
            }
        } else if b == CR {
            seq![model::LF]
        } else {
            seq![b]
        }
    }

    /// Nothing is owed at the end of the stream: a trailing CR's replacement
    /// LF was already emitted when the CR was seen.
    open spec fn spec_fin(p: bool) -> Seq<u8> {
        Seq::empty()
    }

    /// The output never exceeds the input: bytes are only dropped.
    open spec fn spec_required(len: int, is_last: bool) -> int {
        len
    }
}

/// The LF fold emits at most one byte per input byte.
pub(crate) proof fn lemma_lf_out_len(p: bool, s: Seq<u8>)
    ensures
        norm_out::<LF>(p, s).len() <= s.len(),
    decreases s.len(),
{
    if s.len() > 0 {
        lemma_lf_out_len(s[0] == CR, s.drop_first());
    }
}

/// A span without CR passes through unchanged, provided it does not start
/// with an LF that completes a carried CR; afterwards nothing is carried.
pub(crate) proof fn lemma_lf_gap(p: bool, g: Seq<u8>)
    requires
        forall|k: int| 0 <= k < g.len() ==> g[k] != CR,
        p && g.len() > 0 ==> g[0] != model::LF,
    ensures
        norm_out::<LF>(p, g) == g,
        carry(p, g) == (if g.len() == 0 {
            p
        } else {
            false
        }),
    decreases g.len(),
{
    if g.len() == 0 {
        assert(norm_out::<LF>(p, g) =~= g);
    } else {
        lemma_lf_gap(false, g.drop_first());
        assert(seq![g[0]] + g.drop_first() =~= g);
    }
}

impl Normalize for LF {
    proof fn lemma_chunk_len(p: bool, s: Seq<u8>, is_last: bool) {
        lemma_lf_out_len(p, s);
        assert(chunk_out::<LF>(p, s, is_last).len() == norm_out::<LF>(p, s).len());
    }

    proof fn lemma_required_mono(len1: int, len2: int, is_last: bool) {
    }

    proof fn lemma_fin_quiet() {
    }

    proof fn lemma_step_empty(p: bool, b: u8) {
    }

    proof fn lemma_chunk_valid_utf8(p: bool, s: Seq<u8>, is_last: bool) {
        crate::text::lemma_lf_chunk_valid_utf8(p, s, is_last);
    }

    fn required_capacity(len: usize, is_last: bool) -> (r: usize) {
        len
    }

    #[verifier::rlimit(100)]
    fn normalize_chunk(
        input: &[u8],
        output: &mut [u8],
        preceded_by_cr: bool,
        is_last_chunk: bool,
    ) -> (r: Result<NormalizeChunkResult, Error>) {
        let n = input.len();
        let required = n;
        if output.len() < required {
            return Err(Error::OutputBufferTooSmall { required });
        }
        let ghost s = input@;
        let ghost p0 = preceded_by_cr;
        let mut pos: usize = 0;
        let mut wpos: usize = 0;
        let mut p = preceded_by_cr;
        loop
            invariant
                n == s.len(),
                s == input@,
                p0 == preceded_by_cr,
                pos <= n,
                output@.len() == old(output)@.len(),
                output@.len() >= n,
                wpos == norm_out::<LF>(p0, s.take(pos as int)).len(),
                forall|ii: int|
                    0 <= ii < wpos ==> output@[ii] == norm_out::<LF>(p0, s.take(pos as int))[ii],
                forall|ii: int| wpos <= ii < output@.len() ==> output@[ii] == old(output)@[ii],
                p == carry(p0, s.take(pos as int)),
            ensures
                pos == n,
                output@.len() == old(output)@.len(),
                wpos == norm_out::<LF>(p0, s).len(),
                forall|ii: int| 0 <= ii < wpos ==> output@[ii] == norm_out::<LF>(p0, s)[ii],
                forall|ii: int| wpos <= ii < output@.len() ==> output@[ii] == old(output)@[ii],
                p == carry(p0, s),
            decreases n - pos,
        {
            proof {
                lemma_lf_out_len(p0, s.take(pos as int));
            }
            if p && pos < n {
                // An LF right after a carried CR completes a CR LF pair whose
                // replacement LF was already emitted: drop it.
                if input[pos] == model::LF {
                    proof {
                        assert(s.take(pos + 1) =~= s.take(pos as int).push(s[pos as int]));
                        lemma_out_snoc::<LF>(p0, s.take(pos as int), s[pos as int]);
                        assert(norm_out::<LF>(p0, s.take(pos + 1)) =~= norm_out::<LF>(
                            p0,
                            s.take(pos as int),
                        ));
                    }
                    pos = pos + 1;
                    p = false;
                }
            }
            let fr = find_byte(CR, input, pos);
            let hit = match fr {
                Some(j) => (pos + j, true),
                None => (n, false),
            };
            let i = hit.0;
            let found = hit.1;
            if pos < i {
                // The span before the next CR (or the end) passes through
                // unchanged.
                let ghost out0 = norm_out::<LF>(p0, s.take(pos as int));
                let ghost g = s.subrange(pos as int, i as int);
                let ghost out1 = norm_out::<LF>(p0, s.take(i as int));
                let ghost w0 = wpos as int;
                proof {
                    assert forall|k: int| 0 <= k < g.len() implies g[k] != CR by {
                        assert(g[k] == s[pos + k]);
                    }
                    assert(p && g.len() > 0 ==> g[0] != model::LF);
                    assert(s.take(i as int) =~= s.take(pos as int) + g);
                    lemma_out_append::<LF>(p0, s.take(pos as int), g);
                    lemma_lf_gap(p, g);
                    assert(out1 == out0 + g);
                }
                copy_span(input, pos, i, output, wpos);
                wpos = wpos + (i - pos);
                p = false;
                pos = i;
                assert forall|ii: int| 0 <= ii < wpos implies output@[ii] == out1[ii] by {
                    if ii < w0 {
                        assert(output@[ii] == out0[ii]);
                    } else {
                        assert(output@[ii] == input@[ii - w0 + (pos - g.len())]);
                    }
                }
            }
            if !found {
                proof {
                    assert(s.take(pos as int) =~= s);
                }
                break ;
            }
            // The CR itself emits its replacement LF at once; whether a
            // following LF must be dropped is decided at the next step.
            let ghost out1 = norm_out::<LF>(p0, s.take(i as int));
            let ghost out2 = norm_out::<LF>(p0, s.take(i + 1));
            let ghost w1 = wpos as int;
            proof {
                assert(s.take(i + 1) =~= s.take(i as int).push(s[i as int]));
                lemma_out_snoc::<LF>(p0, s.take(i as int), s[i as int]);
                assert(out2 == out1 + seq![model::LF]);
                lemma_lf_out_len(p0, s.take(i + 1));
            }
            output[wpos] = model::LF;
            wpos = wpos + 1;
            p = true;
            pos = i + 1;
            assert forall|ii: int| 0 <= ii < wpos implies output@[ii] == out2[ii] by {
                if ii < w1 {
                    assert(output@[ii] == out1[ii]);
                }
            }
            assert(p == carry(p0, s.take(pos as int)));
        }
        // Nothing is emitted at finalization; a final chunk simply reports
        // that nothing is carried on.
        let ghost fullv = chunk_out::<LF>(p0, s, is_last_chunk);
        proof {
            lemma_lf_out_len(p0, s);
            assert(fullv =~= norm_out::<LF>(p0, s));
        }
        let ended_with_cr = if is_last_chunk {
            false
        } else {
            p
        };
        assert(wpos == fullv.len());
        assert forall|ii: int| 0 <= ii < wpos implies output@[ii] == fullv[ii] by {
            assert(output@[ii] == norm_out::<LF>(p0, s)[ii]);
        }
        assert(output@.subrange(0, wpos as int) =~= fullv);
        assert(output@.skip(wpos as int) =~= old(output)@.skip(wpos as int));
        Ok(NormalizeChunkResult { output_len: wpos, ended_with_cr })
    }

    fn output_size_for(input: &[u8]) -> (r: usize) {
        Self::required_capacity(input.len(), true)
    }

    fn normalize(input: &[u8]) -> (r: Vec<u8>) {
        let cap = Self::required_capacity(input.len(), true);
        let mut out: Vec<u8> = vec![0u8; cap];
        let res = match Self::normalize_chunk(input, out.as_mut_slice(), false, true) {
            Ok(res) => res,
            Err(_) => vstd::pervasive::unreached(),
        };
        out.truncate(res.output_len);
        assert(out@ =~= chunk_out::<LF>(false, input@, true));
        out
    }

    fn normalize_str(input: &str) -> (r: String) {
        let bytes = input.as_bytes();
        let norm = Self::normalize(bytes);
        proof {
            vstd::utf8::encode_utf8_valid_utf8(input@);
            crate::text::lemma_lf_chunk_valid_utf8(false, bytes@, true);
        }
        match crate::text::string_from_utf8(norm) {
            Some(t) => t,
            None => vstd::pervasive::unreached(),
        }
    }
}

/// Normalize a whole byte slice to LF, returning an owned `Vec<u8>`.
pub fn normalize(input: &[u8]) -> (r: Vec<u8>)
    ensures
        r@ == chunk_out::<LF>(false, input@, true),
{
    let n: usize = input.len();
    assert(input@.len() == n);
    <LF as Normalize>::normalize(input)
}

/// Normalize a UTF-8 string to LF and return an owned String.
///
/// The result is again valid UTF-8 because normalization only removes ASCII
/// CR bytes and inserts ASCII LF bytes.
pub fn normalize_str(input: &str) -> (r: String)
    ensures
        vstd::utf8::encode_utf8(r@) == chunk_out::<LF>(
            false,
            vstd::utf8::encode_utf8(input@),
            true,
        ),
{
    let bytes = input.as_bytes();
    let n: usize = bytes.len();
    assert(vstd::utf8::encode_utf8(input@).len() == n);
    <LF as Normalize>::normalize_str(input)
}

} // verus!
