//! A bounds-checked bulk copy between byte buffers, the workhorse the
//! transducers use to move spans that need no rewriting.

use vstd::prelude::*;

verus! {

/// Copy `input[from..to]` into `output` starting at `at`, leaving every other
/// byte of `output` unchanged.
pub(crate) fn copy_span(input: &[u8], from: usize, to: usize, output: &mut [u8], at: usize)
    requires
        from <= to <= input@.len(),
        at + (to - from) <= old(output)@.len(),
    ensures
        final(output)@.len() == old(output)@.len(),
        forall|i: int| 0 <= i < at ==> final(output)@[i] == old(output)@[i],
        forall|i: int|
            at <= i < at + (to - from) ==> #[trigger] final(output)@[i] == input@[i - at + from],
        forall|i: int|
            at + (to - from) <= i < final(output)@.len() ==> final(output)@[i] == old(output)@[i],
{
    let olen: usize = output.len();
    let len = to - from;
    let mut k: usize = 0;
    while k < len
        invariant
            len == to - from,
            from <= to <= input@.len(),
            at + len <= old(output)@.len(),
            olen == old(output)@.len(),
            k <= len,
            output@.len() == old(output)@.len(),
            forall|i: int| 0 <= i < at ==> output@[i] == old(output)@[i],
            forall|i: int| at <= i < at + k ==> #[trigger] output@[i] == input@[i - at + from],
            forall|i: int| at + k <= i < output@.len() ==> output@[i] == old(output)@[i],
        decreases len - k,
    {
        output[at + k] = input[from + k];
        k = k + 1;
    }
}

} // verus!
