//! The library's laws: what holds of whole sessions, not just single calls.
//!
//! A session is an ordered sequence of `normalize_chunk` calls threading one
//! carried bit, with `is_last_chunk` set only on the final call. The proofs
//! here state that chunking is invisible (any split of the input gives the
//! bytes of one whole-input call), that the CRLF output never holds a bare CR
//! or LF, that the LF output never holds a CR, and that normalizing twice is
//! the same as normalizing once.

use vstd::prelude::*;

use crate::crlf::CRLF;
use crate::formats::Normalize;
use crate::lf;
use crate::model::{carry, chunk_out, lemma_out_append, norm_out, NormalizeModel, CR, LF};

verus! {

/// The bytes emitted by a sequence of non-final `normalize_chunk` calls, one
/// chunk each, threading the carried state.
pub open spec fn session_out<N: NormalizeModel>(p: bool, chunks: Seq<Seq<u8>>) -> Seq<u8>
    decreases chunks.len(),
{
    if chunks.len() == 0 {
        Seq::empty()
    } else {
        norm_out::<N>(p, chunks[0]) + session_out::<N>(carry(p, chunks[0]), chunks.drop_first())
    }
}

/// The carried state after a sequence of non-final calls.
pub open spec fn session_carry(p: bool, chunks: Seq<Seq<u8>>) -> bool
    decreases chunks.len(),
{
    if chunks.len() == 0 {
        p
    } else {
        session_carry(carry(p, chunks[0]), chunks.drop_first())
    }
}

/// Feeding chunks one by one emits exactly the fold over their concatenation,
/// and leaves exactly its carried state.
pub proof fn lemma_session_flatten<N: NormalizeModel>(p: bool, chunks: Seq<Seq<u8>>)
    ensures
        session_out::<N>(p, chunks) == norm_out::<N>(p, chunks.flatten()),
        session_carry(p, chunks) == carry(p, chunks.flatten()),
    decreases chunks.len(),
{
    if chunks.len() == 0 {
        assert(chunks.flatten() =~= Seq::<u8>::empty());
    } else {
        lemma_session_flatten::<N>(carry(p, chunks[0]), chunks.drop_first());
        lemma_out_append::<N>(p, chunks[0], chunks.drop_first().flatten());
        assert(chunks.flatten() == chunks[0] + chunks.drop_first().flatten());
    }
}

/// Chunk-boundary invariance: however the input is split, running the
/// session (the carried state threaded through, `is_last_chunk` only on the
/// final call) emits byte for byte what normalizing the whole input in one
/// call emits.
pub proof fn lemma_chunk_boundary_invariance<N: NormalizeModel>(
    chunks: Seq<Seq<u8>>,
    last_chunk: Seq<u8>,
)
    ensures
        session_out::<N>(false, chunks) + chunk_out::<N>(
            session_carry(false, chunks),
            last_chunk,
            true,
        ) == chunk_out::<N>(false, chunks.flatten() + last_chunk, true),
{
    lemma_session_flatten::<N>(false, chunks);
    lemma_out_append::<N>(false, chunks.flatten(), last_chunk);
    let flat = chunks.flatten();
    let q = carry(false, flat);
    assert(session_out::<N>(false, chunks) + chunk_out::<N>(q, last_chunk, true) =~= norm_out::<
        N,
    >(false, flat + last_chunk) + N::spec_fin(carry(false, flat + last_chunk)));
}

/// No lone control byte: every LF is immediately preceded by a CR and every
/// CR immediately followed by an LF, except that the first byte may be an LF
/// completing a CR from before the sequence (`leading_lf_ok`), and the last
/// byte may be a CR whose resolution is still open (`trailing_cr`).
pub open spec fn crlf_proper(o: Seq<u8>, leading_lf_ok: bool, trailing_cr: bool) -> bool {
    &&& forall|i: int|
        0 <= i < o.len() && #[trigger] o[i] == LF ==> (i == 0 && leading_lf_ok) || (0 < i && o[i
            - 1] == CR)
    &&& forall|i: int|
        0 <= i < o.len() && #[trigger] o[i] == CR ==> (i + 1 < o.len() && o[i + 1] == LF) || (i + 1
            == o.len() && trailing_cr)
}

/// What the CRLF fold emits has no lone control byte: a leading LF only under
/// a carried CR, a trailing CR exactly when one is carried out.
proof fn lemma_crlf_out_proper(p: bool, s: Seq<u8>)
    ensures
        crlf_proper(norm_out::<CRLF>(p, s), p, carry(p, s)),
        (norm_out::<CRLF>(p, s).len() == 0) == (s.len() == 0),
        s.len() > 0 && p ==> norm_out::<CRLF>(p, s)[0] == LF,
        s.len() > 0 ==> (norm_out::<CRLF>(p, s).last() == CR) == carry(p, s),
    decreases s.len(),
{
    if s.len() > 0 {
        let b = s[0];
        let q = b == CR;
        let st = CRLF::spec_step(p, b);
        let rest = norm_out::<CRLF>(q, s.drop_first());
        let o = norm_out::<CRLF>(p, s);
        lemma_crlf_out_proper(q, s.drop_first());
        assert(o == st + rest);
        assert(s.len() > 1 ==> s.drop_first().last() == s.last());
        assert forall|i: int| 0 <= i < o.len() && #[trigger] o[i] == LF implies (i == 0 && p) || (0 < i && o[i
            - 1] == CR) by {
            if i < st.len() {
                if 0 < i {
                    assert(o[i - 1] == st[i - 1]);
                }
            } else {
                let k = i - st.len();
                assert(o[i] == rest[k]);
                if k == 0 {
                    assert(q);
                    assert(o[i - 1] == st[st.len() - 1]);
                } else {
                    assert(o[i - 1] == rest[k - 1]);
                }
            }
        }
        assert forall|i: int| 0 <= i < o.len() && #[trigger] o[i] == CR implies (i + 1 < o.len() && o[i + 1]
            == LF) || (i + 1 == o.len() && carry(p, s)) by {
            if i < st.len() {
                assert(st[i] == CR);
                if i + 1 < st.len() {
                    assert(o[i + 1] == st[i + 1]);
                } else {
                    assert(q);
                    if rest.len() > 0 {
                        assert(o[i + 1] == rest[0]);
                        assert(rest[0] == LF);
                    } else {
                        assert(s.drop_first().len() == 0);
                        assert(carry(p, s) == q);
                    }
                }
            } else {
                let k = i - st.len();
                assert(o[i] == rest[k]);
                if k + 1 < rest.len() {
                    assert(o[i + 1] == rest[k + 1]);
                } else {
                    assert(s.drop_first().len() > 0);
                    assert(rest.last() == CR);
                }
            }
        }
        if s.len() == 1 {
            assert(o.last() == st.last());
        } else {
            assert(o.last() == rest.last());
        }
    }
}

/// No-lone-control-byte invariant for one call: the bytes a CRLF
/// `normalize_chunk` call emits have no lone control byte; a leading LF
/// appears only under `preceded_by_cr`, a trailing CR exactly when the call
/// reports `ended_with_cr`. Together with `lemma_chunk_boundary_invariance`
/// this carries over to a whole session's concatenated output.
pub proof fn lemma_crlf_chunk_proper(p: bool, s: Seq<u8>, is_last: bool)
    ensures
        crlf_proper(
            chunk_out::<CRLF>(p, s, is_last),
            p,
            crate::model::chunk_carry(p, s, is_last),
        ),
{
    lemma_crlf_out_proper(p, s);
    let o = norm_out::<CRLF>(p, s);
    let c = chunk_out::<CRLF>(p, s, is_last);
    if is_last && carry(p, s) {
        assert(c == o + seq![LF]);
        assert forall|i: int| 0 <= i < c.len() && #[trigger] c[i] == LF implies (i == 0 && p) || (0 < i && c[i
            - 1] == CR) by {
            if i < o.len() {
                if 0 < i {
                    assert(c[i - 1] == o[i - 1]);
                }
            } else {
                if o.len() == 0 {
                    assert(s.len() == 0 && p);
                } else {
                    assert(c[i - 1] == o.last());
                }
            }
        }
        assert forall|i: int| 0 <= i < c.len() && #[trigger] c[i] == CR implies (i + 1 < c.len() && c[i + 1]
            == LF) || (i + 1 == c.len() && crate::model::chunk_carry(p, s, is_last)) by {
            assert(i < o.len());
            assert(c[i] == o[i]);
            if i + 1 < o.len() {
                assert(c[i + 1] == o[i + 1]);
            } else {
                assert(c[i + 1] == LF);
            }
        }
    } else {
        assert(c =~= o);
    }
}

/// No-lone-control-byte invariant for a whole session: the concatenation of
/// the outputs of a CRLF session (any non-final chunks followed by one final
/// chunk) has every LF preceded by CR and every CR followed by LF, with no
/// exception left at the end.
pub proof fn lemma_session_crlf_proper(chunks: Seq<Seq<u8>>, last_chunk: Seq<u8>)
    ensures
        crlf_proper(
            session_out::<CRLF>(false, chunks) + chunk_out::<CRLF>(
                session_carry(false, chunks),
                last_chunk,
                true,
            ),
            false,
            false,
        ),
{
    lemma_chunk_boundary_invariance::<CRLF>(chunks, last_chunk);
    lemma_crlf_chunk_proper(false, chunks.flatten() + last_chunk, true);
}

/// Zero-CR invariant for a whole session: the concatenation of the outputs
/// of an LF session contains no CR byte whatsoever.
pub proof fn lemma_session_lf_no_cr(chunks: Seq<Seq<u8>>, last_chunk: Seq<u8>)
    ensures
        forall|i: int|
            0 <= i < (session_out::<lf::LF>(false, chunks) + chunk_out::<lf::LF>(
                session_carry(false, chunks),
                last_chunk,
                true,
            )).len() ==> (session_out::<lf::LF>(false, chunks) + chunk_out::<lf::LF>(
                session_carry(false, chunks),
                last_chunk,
                true,
            ))[i] != CR,
{
    lemma_chunk_boundary_invariance::<lf::LF>(chunks, last_chunk);
    lemma_lf_chunk_no_cr(false, chunks.flatten() + last_chunk, true);
}

/// The CRLF fold leaves a sequence with no lone control byte and no trailing
/// CR untouched, and carries nothing out of it.
proof fn lemma_crlf_identity(p: bool, o: Seq<u8>)
    requires
        crlf_proper(o, p, false),
        p ==> o.len() == 0 || o[0] == LF,
    ensures
        norm_out::<CRLF>(p, o) == o,
        carry(p, o) == (if o.len() == 0 {
            p
        } else {
            false
        }),
    decreases o.len(),
{
    if o.len() == 0 {
        assert(norm_out::<CRLF>(p, o) =~= o);
    } else {
        let b = o[0];
        let q = b == CR;
        let o1 = o.drop_first();
        assert forall|i: int| 0 <= i < o1.len() && #[trigger] o1[i] == LF implies (i == 0 && q) || (0 < i
            && o1[i - 1] == CR) by {
            assert(o1[i] == o[i + 1]);
            if 0 < i {
                assert(o1[i - 1] == o[i]);
            }
        }
        assert forall|i: int| 0 <= i < o1.len() && #[trigger] o1[i] == CR implies (i + 1 < o1.len() && o1[i
            + 1] == LF) || (i + 1 == o1.len() && false) by {
            assert(o1[i] == o[i + 1]);
            assert(i + 2 < o.len() || !(o[i + 1] == CR && i + 2 == o.len()) || false);
            assert(o1[i + 1] == o[i + 2]);
        }
        if q {
            assert(o[0] == CR);
            assert(o.len() > 1 && o[1] == LF);
            assert(o1[0] == LF);
        }
        lemma_crlf_identity(q, o1);
        if b == LF {
            assert(p);
        } else if b == CR {
            assert(!p);
        } else {
            assert(!p);
        }
        assert(CRLF::spec_step(p, b) == seq![b]);
        assert(seq![b] + o1 =~= o);
    }
}

/// Idempotence of CRLF normalization: normalizing an already normalized
/// input changes nothing.
pub proof fn lemma_crlf_idempotent(x: Seq<u8>)
    ensures
        chunk_out::<CRLF>(false, chunk_out::<CRLF>(false, x, true), true) == chunk_out::<CRLF>(
            false,
            x,
            true,
        ),
{
    let o = chunk_out::<CRLF>(false, x, true);
    lemma_crlf_chunk_proper(false, x, true);
    lemma_crlf_identity(false, o);
    assert(chunk_out::<CRLF>(false, o, true) =~= o);
}

/// CRLF normalization never shrinks and at most doubles (plus the one
/// closing LF of a final chunk): each input byte emits one or two bytes.
pub proof fn lemma_crlf_output_len_bounds(p: bool, s: Seq<u8>, is_last: bool)
    ensures
        chunk_out::<CRLF>(p, s, is_last).len() <= 2 * s.len() + if is_last {
            1int
        } else {
            0int
        },
        chunk_out::<CRLF>(p, s, is_last).len() >= s.len(),
    decreases s.len(),
{
    <CRLF as Normalize>::lemma_chunk_len(p, s, is_last);
    if s.len() > 0 {
        lemma_crlf_output_len_bounds(s[0] == CR, s.drop_first(), is_last);
        assert(carry(p, s) == carry(s[0] == CR, s.drop_first()));
        assert(chunk_out::<CRLF>(p, s, is_last) == CRLF::spec_step(p, s[0]) + chunk_out::<CRLF>(
            s[0] == CR,
            s.drop_first(),
            is_last,
        ));
    }
}

/// LF normalization never grows: each input byte emits at most one byte.
pub proof fn lemma_lf_output_len_bound(p: bool, s: Seq<u8>, is_last: bool)
    ensures
        chunk_out::<lf::LF>(p, s, is_last).len() <= s.len(),
{
    <lf::LF as Normalize>::lemma_chunk_len(p, s, is_last);
}

/// No byte the LF fold emits is a CR.
proof fn lemma_lf_out_no_cr(p: bool, s: Seq<u8>)
    ensures
        forall|i: int|
            0 <= i < norm_out::<lf::LF>(p, s).len() ==> norm_out::<lf::LF>(p, s)[i] != CR,
    decreases s.len(),
{
    if s.len() > 0 {
        lemma_lf_out_no_cr(s[0] == CR, s.drop_first());
        let st = lf::LF::spec_step(p, s[0]);
        let rest = norm_out::<lf::LF>(s[0] == CR, s.drop_first());
        assert forall|i: int| 0 <= i < norm_out::<lf::LF>(p, s).len() implies norm_out::<lf::LF>(
            p,
            s,
        )[i] != CR by {
            if i >= st.len() {
                assert(norm_out::<lf::LF>(p, s)[i] == rest[i - st.len()]);
            }
        }
    }
}

/// Zero-CR invariant: the output of an LF `normalize_chunk` call contains no
/// CR byte whatsoever, so neither does any session's concatenated output.
pub proof fn lemma_lf_chunk_no_cr(p: bool, s: Seq<u8>, is_last: bool)
    ensures
        forall|i: int|
            0 <= i < chunk_out::<lf::LF>(p, s, is_last).len() ==> chunk_out::<lf::LF>(
                p,
                s,
                is_last,
            )[i] != CR,
{
    lemma_lf_out_no_cr(p, s);
    assert(chunk_out::<lf::LF>(p, s, is_last) =~= norm_out::<lf::LF>(p, s));
}

/// The LF fold leaves a CR-free sequence untouched and carries nothing.
proof fn lemma_lf_identity(o: Seq<u8>)
    requires
        forall|i: int| 0 <= i < o.len() ==> o[i] != CR,
    ensures
        norm_out::<lf::LF>(false, o) == o,
        carry(false, o) == false,
    decreases o.len(),
{
    if o.len() == 0 {
        assert(norm_out::<lf::LF>(false, o) =~= o);
    } else {
        lemma_lf_identity(o.drop_first());
        assert(seq![o[0]] + o.drop_first() =~= o);
    }
}

/// Idempotence of LF normalization: normalizing an already normalized input
/// changes nothing.
pub proof fn lemma_lf_idempotent(x: Seq<u8>)
    ensures
        chunk_out::<lf::LF>(false, chunk_out::<lf::LF>(false, x, true), true) == chunk_out::<
            lf::LF,
        >(false, x, true),
{
    let o = chunk_out::<lf::LF>(false, x, true);
    lemma_lf_chunk_no_cr(false, x, true);
    lemma_lf_identity(o);
    assert(chunk_out::<lf::LF>(false, o, true) =~= o);
}

} // verus!
