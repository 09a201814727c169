//! CRLF normalization: every bare LF and every bare CR becomes a CR LF pair,
//! existing CR LF pairs are kept as they are.

use vstd::prelude::*;

use crate::bytes::copy_span;
use crate::formats::{Error, Normalize, NormalizeChunkResult};
use crate::model::{
    carry, chunk_out, lemma_out_append, lemma_out_snoc, norm_out, NormalizeModel, CR, LF,
};
use crate::scan::find_byte2;

verus! {

/// CRLF normalization format implementation.
///
/// Will convert all line endings that are not CRLF (i.e. LF or CR alone) into
/// CRLF.
pub struct CRLF;

impl NormalizeModel for CRLF {
    /// One byte emits at most a pair: a bare LF or bare CR becomes CR LF, an
    /// LF that completes a carried CR emits just itself, and a carried CR
    /// followed by anything else first receives its closing LF.
    open spec fn spec_step(p: bool, b: u8) -> Seq<u8> {
        if b == LF {
            if p {
                seq![LF]
            } else {
                seq![CR, LF]
            }
        } else if b == CR {
            if p {
                seq![LF, CR]
            } else {
                seq![CR]
            }
        } else {
            if p {
                seq![LF, b]
            } else {
                seq![b]
            }
        }
    }

    /// A CR still open when the stream ends receives its closing LF.
    open spec fn spec_fin(p: bool) -> Seq<u8> {
        if p {
            seq![LF]
        } else {
            Seq::empty()
        }
    }

    /// Worst case: every input byte doubles, plus one closing LF on the last
    /// chunk.
    open spec fn spec_required(len: int, is_last: bool) -> int {
        2 * len + if is_last {
            1int
        } else {
            0int
        }
    }
}

/// The CRLF fold emits at most two bytes per input byte.
pub(crate) proof fn lemma_crlf_out_len(p: bool, s: Seq<u8>)
    ensures
        norm_out::<CRLF>(p, s).len() <= 2 * s.len(),
    decreases s.len(),
{
    if s.len() > 0 {
        lemma_crlf_out_len(s[0] == CR, s.drop_first());
    }
}

/// The bytes a span without CR or LF turns into: the span itself, preceded by
/// the LF that closes a carried CR.
pub(crate) open spec fn crlf_gap_out(p: bool, g: Seq<u8>) -> Seq<u8> {
    (if p && g.len() > 0 {
        seq![LF]
    } else {
        Seq::<u8>::empty()
    }) + g
}

/// A span without CR or LF passes through unchanged, except that a carried CR
/// is first closed with an LF; afterwards nothing is carried.
pub(crate) proof fn lemma_crlf_gap(p: bool, g: Seq<u8>)
    requires
        forall|k: int| 0 <= k < g.len() ==> g[k] != CR && g[k] != LF,
    ensures
        norm_out::<CRLF>(p, g) == crlf_gap_out(p, g),
        carry(p, g) == (if g.len() == 0 {
            p
        } else {
            false
        }),
    decreases g.len(),
{
    if g.len() == 0 {
        assert(Seq::<u8>::empty() + g =~= norm_out::<CRLF>(p, g));
    } else {
        lemma_crlf_gap(false, g.drop_first());
        assert(Seq::<u8>::empty() + g.drop_first() =~= g.drop_first());
        if p {
            assert(seq![LF] + g =~= seq![LF, g[0]] + g.drop_first());
        } else {
            assert(Seq::<u8>::empty() + g =~= seq![g[0]] + g.drop_first());
        }
    }
}

/// Write `crlf_gap_out(p, input[from..to])` at `wpos`: the closing LF for a
/// carried CR if one is open and the span is nonempty, then the span itself.
fn crlf_emit_gap(input: &[u8], from: usize, to: usize, output: &mut [u8], wpos: usize, p: bool)
    -> (w: usize)
    requires
        from <= to <= input@.len(),
        wpos + crlf_gap_out(p, input@.subrange(from as int, to as int)).len() <= old(
            output,
        )@.len(),
    ensures
        w == wpos + crlf_gap_out(p, input@.subrange(from as int, to as int)).len(),
        final(output)@.len() == old(output)@.len(),
        forall|ii: int| 0 <= ii < wpos ==> final(output)@[ii] == old(output)@[ii],
        forall|ii: int|
            wpos <= ii < w ==> #[trigger] final(output)@[ii] == crlf_gap_out(
                p,
                input@.subrange(from as int, to as int),
            )[ii - wpos],
        forall|ii: int| w <= ii < final(output)@.len() ==> final(output)@[ii] == old(output)@[ii],
{
    let ghost g = input@.subrange(from as int, to as int);
    let ghost gv = crlf_gap_out(p, g);
    let olen: usize = output.len();
    assert(wpos + gv.len() <= olen);
    let mut w = wpos;
    if p && from < to {
        output[w] = LF;
        w = w + 1;
    }
    copy_span(input, from, to, output, w);
    w = w + (to - from);
    assert forall|ii: int| wpos <= ii < w implies #[trigger] output@[ii] == gv[ii - wpos] by {
        if p && from < to {
            if ii > wpos {
                assert(output@[ii] == input@[ii - (wpos + 1) + from]);
            }
        } else {
            assert(output@[ii] == input@[ii - wpos + from]);
        }
    }
    w
}

/// Write `CRLF::spec_step(p, b)` at `wpos`: the rewriting of one control byte.
fn crlf_emit_step(b: u8, output: &mut [u8], wpos: usize, p: bool) -> (w: usize)
    requires
        wpos + CRLF::spec_step(p, b).len() <= old(output)@.len(),
    ensures
        w == wpos + CRLF::spec_step(p, b).len(),
        final(output)@.len() == old(output)@.len(),
        forall|ii: int| 0 <= ii < wpos ==> final(output)@[ii] == old(output)@[ii],
        forall|ii: int|
            wpos <= ii < w ==> #[trigger] final(output)@[ii] == CRLF::spec_step(p, b)[ii - wpos],
        forall|ii: int| w <= ii < final(output)@.len() ==> final(output)@[ii] == old(output)@[ii],
{
    if b == LF {
        if p {
            output[wpos] = LF;
            wpos + 1
        } else {
            output[wpos] = CR;
            output[wpos + 1] = LF;
            wpos + 2
        }
    } else if b == CR {
        if p {
            output[wpos] = LF;
            output[wpos + 1] = CR;
            wpos + 2
        } else {
            output[wpos] = CR;
            wpos + 1
        }
    } else {
        if p {
            output[wpos] = LF;
            output[wpos + 1] = b;
            wpos + 2
        } else {
            output[wpos] = b;
            wpos + 1
        }
    }
}

impl Normalize for CRLF {
    proof fn lemma_chunk_len(p: bool, s: Seq<u8>, is_last: bool) {
        lemma_crlf_out_len(p, s);
    }

    proof fn lemma_required_mono(len1: int, len2: int, is_last: bool) {
    }

    proof fn lemma_fin_quiet() {
    }

    proof fn lemma_step_empty(p: bool, b: u8) {
    }

    proof fn lemma_chunk_valid_utf8(p: bool, s: Seq<u8>, is_last: bool) {
        crate::text::lemma_crlf_chunk_valid_utf8(p, s, is_last);
    }

    fn required_capacity(len: usize, is_last: bool) -> (r: usize) {
        len * 2 + if is_last {
            1
        } else {
            0
        }
    }

    #[verifier::rlimit(100)]
    fn normalize_chunk(
        input: &[u8],
        output: &mut [u8],
        preceded_by_cr: bool,
        is_last_chunk: bool,
    ) -> (r: Result<NormalizeChunkResult, Error>) {
        let n = input.len();
        let required = n * 2 + if is_last_chunk {
            1
        } else {
            0
        };
        if output.len() < required {
            return Err(Error::OutputBufferTooSmall { required });
        }
        let ghost s = input@;
        let ghost p0 = preceded_by_cr;
        let mut pos: usize = 0;
        let mut wpos: usize = 0;
        let mut p = preceded_by_cr;
        loop
            invariant
                n == s.len(),
                s == input@,
                p0 == preceded_by_cr,
                pos <= n,
                output@.len() == old(output)@.len(),
                output@.len() >= required,
                required == 2 * n + if is_last_chunk {
                    1int
                } else {
                    0int
                },
                required <= usize::MAX,
                wpos == norm_out::<CRLF>(p0, s.take(pos as int)).len(),
                forall|ii: int|
                    0 <= ii < wpos ==> output@[ii] == norm_out::<CRLF>(p0, s.take(pos as int))[ii],
                forall|ii: int| wpos <= ii < output@.len() ==> output@[ii] == old(output)@[ii],
                p == carry(p0, s.take(pos as int)),
            ensures
                pos == n,
                output@.len() == old(output)@.len(),
                wpos == norm_out::<CRLF>(p0, s).len(),
                forall|ii: int| 0 <= ii < wpos ==> output@[ii] == norm_out::<CRLF>(p0, s)[ii],
                forall|ii: int| wpos <= ii < output@.len() ==> output@[ii] == old(output)@[ii],
                p == carry(p0, s),
            decreases n - pos,
        {
            let fr = find_byte2(CR, LF, input, pos);
            let hit = match fr {
                Some(j) => (pos + j, true),
                None => (n, false),
            };
            let i = hit.0;
            let found = hit.1;
            if pos < i {
                // The span before the next control byte (or the end) passes
                // through unchanged, after closing a carried CR with its LF.
                let ghost out0 = norm_out::<CRLF>(p0, s.take(pos as int));
                let ghost g = s.subrange(pos as int, i as int);
                let ghost out1 = norm_out::<CRLF>(p0, s.take(i as int));
                let ghost w0 = wpos as int;
                proof {
                    assert forall|k: int| 0 <= k < g.len() implies g[k] != CR && g[k] != LF by {
                        assert(g[k] == s[pos + k]);
                    }
                    assert(s.take(i as int) =~= s.take(pos as int) + g);
                    lemma_out_append::<CRLF>(p0, s.take(pos as int), g);
                    lemma_crlf_gap(p, g);
                    lemma_crlf_out_len(p0, s.take(i as int));
                    assert(out1 == out0 + crlf_gap_out(p, g));
                    assert(out1.len() <= 2 * i);
                }
                wpos = crlf_emit_gap(input, pos, i, output, wpos, p);
                p = false;
                pos = i;
                assert forall|ii: int| 0 <= ii < wpos implies output@[ii] == out1[ii] by {
                    if ii < w0 {
                        assert(output@[ii] == out0[ii]);
                    }
                }
            }
            if !found {
                proof {
                    assert(s.take(pos as int) =~= s);
                }
                break ;
            }
            // Rewrite the control byte itself as one fold step.
            let b = input[i];
            let ghost out1 = norm_out::<CRLF>(p0, s.take(i as int));
            let ghost out2 = norm_out::<CRLF>(p0, s.take(i + 1));
            let ghost w1 = wpos as int;
            proof {
                assert(s.take(i + 1) =~= s.take(i as int).push(s[i as int]));
                lemma_out_snoc::<CRLF>(p0, s.take(i as int), s[i as int]);
                lemma_crlf_out_len(p0, s.take(i + 1));
                assert(out2 == out1 + CRLF::spec_step(p, b));
                assert(out2.len() <= 2 * (i + 1));
            }
            wpos = crlf_emit_step(b, output, wpos, p);
            p = b == CR;
            pos = i + 1;
            assert forall|ii: int| 0 <= ii < wpos implies output@[ii] == out2[ii] by {
                if ii < w1 {
                    assert(output@[ii] == out1[ii]);
                }
            }
            assert(p == carry(p0, s.take(pos as int)));
        }
        // Finalize: on the last chunk a still-open CR receives its LF and
        // nothing is carried on.
        let ghost outw = norm_out::<CRLF>(p0, s);
        let ghost fullv = chunk_out::<CRLF>(p0, s, is_last_chunk);
        let ghost wb = wpos as int;
        proof {
            lemma_crlf_out_len(p0, s);
        }
        let ended_with_cr = if is_last_chunk {
            if p {
                output[wpos] = LF;
                wpos = wpos + 1;
                proof {
                    assert(fullv == outw + seq![LF]);
                }
            } else {
                proof {
                    assert(fullv =~= outw);
                }
            }
            false
        } else {
            proof {
                assert(fullv =~= outw);
            }
            p
        };
        assert forall|ii: int| 0 <= ii < wpos implies output@[ii] == fullv[ii] by {
            if ii < wb {
                assert(output@[ii] == outw[ii]);
            }
        }
        assert(output@.subrange(0, wpos as int) =~= fullv);
        assert(output@.skip(wpos as int) =~= old(output)@.skip(wpos as int));
        Ok(NormalizeChunkResult { output_len: wpos, ended_with_cr })
    }

    fn output_size_for(input: &[u8]) -> (r: usize) {
        Self::required_capacity(input.len(), true)
    }

    fn normalize(input: &[u8]) -> (r: Vec<u8>) {
        let cap = Self::required_capacity(input.len(), true);
        let mut out: Vec<u8> = vec![0u8; cap];
        let res = match Self::normalize_chunk(input, out.as_mut_slice(), false, true) {
            Ok(res) => res,
            Err(_) => vstd::pervasive::unreached(),
        };
        out.truncate(res.output_len);
        assert(out@ =~= chunk_out::<CRLF>(false, input@, true));
        out
    }

    fn normalize_str(input: &str) -> (r: String) {
        let bytes = input.as_bytes();
        let norm = Self::normalize(bytes);
        proof {
            vstd::utf8::encode_utf8_valid_utf8(input@);
            crate::text::lemma_crlf_chunk_valid_utf8(false, bytes@, true);
        }
        match crate::text::string_from_utf8(norm) {
            Some(t) => t,
            None => vstd::pervasive::unreached(),
        }
    }
}

/// Normalize a whole byte slice to CRLF, returning an owned `Vec<u8>`.
pub fn normalize(input: &[u8]) -> (r: Vec<u8>)
    requires
        2 * input@.len() + 1 <= usize::MAX as int,
    ensures
        r@ == chunk_out::<CRLF>(false, input@, true),
{
    <CRLF as Normalize>::normalize(input)
}

/// Normalize a UTF-8 string to CRLF and return an owned String.
///
/// The result is again valid UTF-8 because normalization only inserts ASCII
/// CR and LF bytes.
pub fn normalize_str(input: &str) -> (r: String)
    requires
        2 * vstd::utf8::encode_utf8(input@).len() + 1 <= usize::MAX as int,
    ensures
        vstd::utf8::encode_utf8(r@) == chunk_out::<CRLF>(
            false,
            vstd::utf8::encode_utf8(input@),
            true,
        ),
{
    <CRLF as Normalize>::normalize_str(input)
}

} // verus!
