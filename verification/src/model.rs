//! Mathematical model of the two chunk transducers.
//!
//! A transduction is modelled as a left-to-right fold over the input bytes.
//! The fold state is one bit: whether the byte just processed was a CR whose
//! resolution (pairing with a following LF) is still open. Each format
//! contributes a step function saying which bytes one input byte emits, and a
//! finalization function saying which bytes close the stream; the combinators
//! here assemble those into whole-chunk and whole-session outputs.

use vstd::prelude::*;

verus! {

/// The carriage-return control byte.
pub const CR: u8 = 0x0D;

/// The line-feed control byte.
pub const LF: u8 = 0x0A;

/// The mathematical model of one normalization format: which bytes one input
/// byte emits given the carried state, which bytes finalization emits, and
/// the worst-case output size computable from the input length alone.
pub trait NormalizeModel: Sized {
    /// The bytes emitted for one input byte `b` under carried state `p`.
    spec fn spec_step(p: bool, b: u8) -> Seq<u8>;

    /// The bytes emitted when the stream ends with carried state `p`.
    spec fn spec_fin(p: bool) -> Seq<u8>;

    /// The worst-case output size for a chunk of `len` bytes.
    spec fn spec_required(len: int, is_last: bool) -> int;
}

/// The carried state after folding `s` starting from state `p`: true iff the
/// last byte processed was a CR (or, for an empty `s`, the entry state).
pub open spec fn carry(p: bool, s: Seq<u8>) -> bool {
    if s.len() == 0 {
        p
    } else {
        s.last() == CR
    }
}

/// All bytes emitted while folding the format's step function over `s`,
/// starting from carried state `p`, without finalization.
pub open spec fn norm_out<N: NormalizeModel>(p: bool, s: Seq<u8>) -> Seq<u8>
    decreases s.len(),
{
    if s.len() == 0 {
        Seq::empty()
    } else {
        N::spec_step(p, s[0]) + norm_out::<N>(s[0] == CR, s.drop_first())
    }
}

/// The bytes one `normalize_chunk` call emits: the fold over the chunk, plus
/// the finalization bytes when this is the stream's last chunk.
pub open spec fn chunk_out<N: NormalizeModel>(p: bool, s: Seq<u8>, is_last: bool) -> Seq<u8> {
    norm_out::<N>(p, s) + if is_last {
        N::spec_fin(carry(p, s))
    } else {
        Seq::empty()
    }
}

/// The `ended_with_cr` flag one `normalize_chunk` call reports: a final chunk
/// settles everything, a non-final chunk hands the carried state on.
pub open spec fn chunk_carry(p: bool, s: Seq<u8>, is_last: bool) -> bool {
    !is_last && carry(p, s)
}

/// Folding a concatenation equals folding both parts in order, threading the
/// carried state through; the fold is a homomorphism on byte sequences.
pub proof fn lemma_out_append<N: NormalizeModel>(p: bool, a: Seq<u8>, b: Seq<u8>)
    ensures
        norm_out::<N>(p, a + b) == norm_out::<N>(p, a) + norm_out::<N>(carry(p, a), b),
        carry(p, a + b) == carry(carry(p, a), b),
    decreases a.len(),
{
    if a.len() == 0 {
        assert(a + b =~= b);
    } else {
        lemma_out_append::<N>(a[0] == CR, a.drop_first(), b);
        assert((a + b).drop_first() =~= a.drop_first() + b);
        assert(norm_out::<N>(p, a) + norm_out::<N>(carry(p, a), b) =~= N::spec_step(p, a[0])
            + (norm_out::<N>(a[0] == CR, a.drop_first()) + norm_out::<N>(carry(p, a), b)));
        if b.len() == 0 {
            assert(a + b =~= a);
        }
    }
}

/// Folding one more byte appends that byte's step output.
pub proof fn lemma_out_snoc<N: NormalizeModel>(p: bool, s: Seq<u8>, b: u8)
    ensures
        norm_out::<N>(p, s.push(b)) == norm_out::<N>(p, s) + N::spec_step(carry(p, s), b),
        carry(p, s.push(b)) == (b == CR),
{
    let t = seq![b];
    assert(s.push(b) =~= s + t);
    lemma_out_append::<N>(p, s, t);
    assert(t.drop_first() =~= Seq::<u8>::empty());
    assert(norm_out::<N>(t[0] == CR, t.drop_first()) =~= Seq::<u8>::empty());
    assert(norm_out::<N>(carry(p, s), t) =~= N::spec_step(carry(p, s), t[0])
        + Seq::<u8>::empty());
    assert(N::spec_step(carry(p, s), b) + Seq::<u8>::empty() =~= N::spec_step(carry(p, s), b));
}

} // verus!
