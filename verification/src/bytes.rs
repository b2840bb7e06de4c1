//! Byte-buffer helpers: reading a run of bytes out of a message and writing
//! a transformed run back in place.

use vstd::prelude::*;

verus! {

/// Copy `len` bytes of `msg` starting at `start` into a fresh buffer.
pub(crate) fn copy_range(msg: &Vec<u8>, start: usize, len: usize) -> (b: Vec<u8>)
    requires
        start + len <= msg@.len(),
    ensures
        b@ == msg@.subrange(start as int, start as int + len as int),
{
    let n = msg.len();
    let mut b: Vec<u8> = Vec::new();
    let mut j: usize = 0;
    while j < len
        invariant
            j <= len,
            start + len <= n,
            n == msg@.len(),
            b@ == msg@.subrange(start as int, start as int + j as int),
        decreases len - j,
    {
        b.push(msg[start + j]);
        proof {
            assert(b@ =~= msg@.subrange(start as int, start as int + (j + 1) as int));
        }
        j += 1;
    }
    b
}

/// Overwrite the bytes of `msg` from `start` on with the contents of `b`,
/// leaving everything before and after untouched.
pub(crate) fn write_range(msg: &mut Vec<u8>, start: usize, b: &Vec<u8>)
    requires
        start + b@.len() <= old(msg)@.len(),
    ensures
        final(msg)@ == old(msg)@.subrange(0, start as int) + b@ + old(msg)@.subrange(
            start as int + b@.len(), old(msg)@.len() as int),
{
    let len = b.len();
    let n = msg.len();
    let ghost orig = msg@;
    let mut j: usize = 0;
    while j < len
        invariant
            j <= len,
            len == b@.len(),
            start + len <= n,
            n == orig.len(),
            msg@.len() == orig.len(),
            forall|k: int|
                0 <= k < orig.len() ==> msg@[k] == (if start <= k < start + j {
                    b@[k - start]
                } else {
                    orig[k]
                }),
        decreases len - j,
    {
        msg[start + j] = b[j];
        j += 1;
    }
    proof {
        assert(msg@ =~= orig.subrange(0, start as int) + b@ + orig.subrange(
            start as int + b@.len(), orig.len() as int));
    }
}

} // verus!
