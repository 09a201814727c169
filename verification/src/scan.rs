//! Control-byte search: the one place the transducers call into the `memchr`
//! crate. Each wrapper searches the tail of the haystack starting at `from`
//! and reports an index into the whole haystack's tail, so callers never
//! re-scan bytes they already processed.

use vstd::prelude::*;

verus! {

/// Relies on memchr::memchr: the index of the first occurrence of `needle`
/// in the haystack, or None if it does not occur; semantically
/// `haystack.iter().position(|&b| b == needle)`.
#[verifier::external_body]
pub(crate) fn find_byte(needle: u8, haystack: &[u8], from: usize) -> (r: Option<usize>)
    requires
        from <= haystack@.len(),
    ensures
        match r {
            Some(i) => {
                &&& from + i < haystack@.len()
                &&& haystack@[from + i] == needle
                &&& forall|j: int|
                    from <= j < from + i ==> haystack@[j] != needle
            },
            None => forall|j: int|
                from <= j < haystack@.len() ==> haystack@[j] != needle,
        },
{
    memchr::memchr(needle, &haystack[from..])
}

/// Relies on memchr::memchr2: the index of the first occurrence of either
/// needle byte in the haystack, or None if neither occurs; semantically
/// `haystack.iter().position(|&b| b == needle1 || b == needle2)`.
#[verifier::external_body]
pub(crate) fn find_byte2(needle1: u8, needle2: u8, haystack: &[u8], from: usize) -> (r: Option<
    usize,
>)
    requires
        from <= haystack@.len(),
    ensures
        match r {
            Some(i) => {
                &&& from + i < haystack@.len()
                &&& (haystack@[from + i] == needle1 || haystack@[from + i] == needle2)
                &&& forall|j: int|
                    from <= j < from + i ==> haystack@[j] != needle1 && haystack@[j] != needle2
            },
            None => forall|j: int|
                from <= j < haystack@.len() ==> haystack@[j] != needle1 && haystack@[j] != needle2,
        },
{
    memchr::memchr2(needle1, needle2, &haystack[from..])
}

} // verus!
