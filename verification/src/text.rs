//! Normalization of UTF-8 text. Both formats only insert or remove the
//! single-byte ASCII characters CR and LF, and a multi-byte scalar contains
//! no byte below 0x80, so normalizing the bytes of a valid UTF-8 string
//! yields a valid UTF-8 string; the proofs here establish that, and
//! [`normalize_text`] builds on it to normalize a `&str` into a `String`.

use vstd::prelude::*;

use crate::crlf::{crlf_gap_out, lemma_crlf_gap, CRLF};
use crate::lf;
use crate::model::{carry, chunk_out, lemma_out_append, norm_out, NormalizeModel, CR, LF};
use vstd::utf8::{
    decode_first_codepoint, encode_utf8, length_of_first_scalar,
    partial_valid_utf8_extend_ascii_block, pop_first_scalar, take_first_scalar, valid_first_scalar,
    valid_utf8, valid_utf8_concat,
};

verus! {

/// A sequence of ASCII bytes is valid UTF-8: each byte is its own scalar.
proof fn lemma_ascii_valid_utf8(a: Seq<u8>)
    requires
        forall|i: int| 0 <= i < a.len() ==> a[i] < 0x80,
    ensures
        valid_utf8(a),
{
    assert(a.subrange(0, 0) =~= Seq::<u8>::empty());
    partial_valid_utf8_extend_ascii_block(a, 0, a.len() as int);
    assert(a.subrange(0, a.len() as int) =~= a);
}

/// Peeling the first scalar off a valid UTF-8 sequence: the head is itself
/// valid, the tail is valid, a one-byte head is ASCII, and a longer head
/// holds no byte below 0x80 (so no CR and no LF).
proof fn lemma_first_scalar(s: Seq<u8>)
    requires
        valid_utf8(s),
        s.len() > 0,
    ensures
        1 <= length_of_first_scalar(s) <= s.len(),
        valid_utf8(take_first_scalar(s)),
        valid_utf8(pop_first_scalar(s)),
        s =~= take_first_scalar(s) + pop_first_scalar(s),
        length_of_first_scalar(s) == 1 ==> s[0] < 0x80,
        length_of_first_scalar(s) >= 2 ==> forall|i: int|
            0 <= i < length_of_first_scalar(s) ==> s[i] >= 0x80,
{
    let k = length_of_first_scalar(s);
    let sc = take_first_scalar(s);
    assert(valid_first_scalar(s));
    assert(1 <= k <= s.len());
    assert(s =~= sc + pop_first_scalar(s));
    // The head on its own is a valid UTF-8 sequence: the class predicates
    // and the decoded codepoint only read its own bytes.
    assert(sc.len() == k);
    assert(forall|i: int| 0 <= i < k ==> sc[i] == s[i]);
    assert(valid_first_scalar(sc));
    assert(decode_first_codepoint(sc) == decode_first_codepoint(s));
    assert(length_of_first_scalar(sc) == k);
    assert(pop_first_scalar(sc) =~= Seq::<u8>::empty());
    assert(valid_utf8(Seq::<u8>::empty()));
    assert(valid_utf8(sc));
}

/// The CRLF fold maps valid UTF-8 to valid UTF-8.
proof fn lemma_crlf_out_valid_utf8(p: bool, s: Seq<u8>)
    requires
        valid_utf8(s),
    ensures
        valid_utf8(norm_out::<CRLF>(p, s)),
    decreases s.len(),
{
    if s.len() == 0 {
    } else {
        lemma_first_scalar(s);
        let k = length_of_first_scalar(s);
        let sc = take_first_scalar(s);
        let rest = pop_first_scalar(s);
        lemma_out_append::<CRLF>(p, sc, rest);
        let q = carry(p, sc);
        lemma_crlf_out_valid_utf8(q, rest);
        if k == 1 {
            // A single ASCII byte: its step emits only ASCII bytes.
            let st = norm_out::<CRLF>(p, sc);
            assert(sc[0] == s[0]);
            assert(sc.drop_first() =~= Seq::<u8>::empty());
            assert(norm_out::<CRLF>(sc[0] == CR, sc.drop_first()) =~= Seq::<u8>::empty());
            assert(st =~= CRLF::spec_step(p, s[0]) + Seq::<u8>::empty());
            assert(st =~= CRLF::spec_step(p, s[0]));
            lemma_ascii_valid_utf8(st);
            valid_utf8_concat(st, norm_out::<CRLF>(q, rest));
        } else {
            // A multi-byte scalar: none of its bytes is CR or LF, so it
            // passes through whole, after at most one closing LF.
            lemma_crlf_gap(p, sc);
            assert(norm_out::<CRLF>(p, sc) == crlf_gap_out(p, sc));
            if p {
                lemma_ascii_valid_utf8(seq![LF]);
                valid_utf8_concat(seq![LF], sc);
                assert(crlf_gap_out(p, sc) == seq![LF] + sc);
            } else {
                assert(crlf_gap_out(p, sc) =~= sc);
            }
            valid_utf8_concat(crlf_gap_out(p, sc), norm_out::<CRLF>(q, rest));
        }
    }
}

/// The LF fold maps valid UTF-8 to valid UTF-8.
proof fn lemma_lf_out_valid_utf8(p: bool, s: Seq<u8>)
    requires
        valid_utf8(s),
    ensures
        valid_utf8(norm_out::<lf::LF>(p, s)),
    decreases s.len(),
{
    if s.len() == 0 {
    } else {
        lemma_first_scalar(s);
        let k = length_of_first_scalar(s);
        let sc = take_first_scalar(s);
        let rest = pop_first_scalar(s);
        lemma_out_append::<lf::LF>(p, sc, rest);
        let q = carry(p, sc);
        lemma_lf_out_valid_utf8(q, rest);
        if k == 1 {
            let st = norm_out::<lf::LF>(p, sc);
            assert(sc[0] == s[0]);
            assert(sc.drop_first() =~= Seq::<u8>::empty());
            assert(norm_out::<lf::LF>(sc[0] == CR, sc.drop_first()) =~= Seq::<u8>::empty());
            assert(st =~= lf::LF::spec_step(p, s[0]) + Seq::<u8>::empty());
            assert(st =~= lf::LF::spec_step(p, s[0]));
            lemma_ascii_valid_utf8(st);
            valid_utf8_concat(st, norm_out::<lf::LF>(q, rest));
        } else {
            crate::lf::lemma_lf_gap(p, sc);
            assert(norm_out::<lf::LF>(p, sc) == sc);
            valid_utf8_concat(sc, norm_out::<lf::LF>(q, rest));
        }
    }
}

/// Chunk-level UTF-8 preservation for the CRLF format.
pub(crate) proof fn lemma_crlf_chunk_valid_utf8(p: bool, s: Seq<u8>, is_last: bool)
    requires
        valid_utf8(s),
    ensures
        valid_utf8(chunk_out::<CRLF>(p, s, is_last)),
{
    lemma_crlf_out_valid_utf8(p, s);
    let fin = if is_last {
        CRLF::spec_fin(carry(p, s))
    } else {
        Seq::<u8>::empty()
    };
    lemma_ascii_valid_utf8(fin);
    valid_utf8_concat(norm_out::<CRLF>(p, s), fin);
}

/// Chunk-level UTF-8 preservation for the LF format.
pub(crate) proof fn lemma_lf_chunk_valid_utf8(p: bool, s: Seq<u8>, is_last: bool)
    requires
        valid_utf8(s),
    ensures
        valid_utf8(chunk_out::<lf::LF>(p, s, is_last)),
{
    lemma_lf_out_valid_utf8(p, s);
    assert(chunk_out::<lf::LF>(p, s, is_last) =~= norm_out::<lf::LF>(p, s));
}

/// Relies on String::from_utf8: it returns Ok exactly when the bytes are
/// valid UTF-8, and the returned String holds exactly those bytes.
#[verifier::external_body]
pub(crate) fn string_from_utf8(v: Vec<u8>) -> (r: Option<String>)
    ensures
        match r {
            Some(t) => valid_utf8(v@) && encode_utf8(t@) == v@,
            None => !valid_utf8(v@),
        },
{
    String::from_utf8(v).ok()
}

} // verus!
