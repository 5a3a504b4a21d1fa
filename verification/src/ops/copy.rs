//! Contiguous copies.
use crate::tensor::filled;
use vstd::prelude::*;

verus! {

/// The elements of `src` from `off` on.
pub open spec fn from_offset<T>(src: Seq<T>, off: int) -> spec_fn(int) -> T {
    |i: int| src[off + i]
}

/// Copies the first `n` elements: `out[i] = a[i]`.
pub fn iron_copy<T: Copy>(a: &[T], out: &mut Vec<T>, n: u32)
    requires
        n <= a@.len(),
        n <= old(out)@.len(),
    ensures
        filled(old(out)@, final(out)@, n as int, from_offset(a@, 0)),
{
    let ghost was = out@;
    let mut idx: usize = 0;
    while idx < n as usize
        invariant
            idx <= n,
            n <= a@.len(),
            n <= was.len(),
            filled(was, out@, idx as int, from_offset(a@, 0)),
        decreases n - idx,
    {
        out[idx] = a[idx];
        idx = idx + 1;
    }
}

/// Copies a slice: `dst[i] = src[off + i]` for `i < len`.
pub fn iron_slice<T: Copy>(src: &[T], dst: &mut Vec<T>, off: u32, len: u32)
    requires
        off + len <= src@.len(),
        len <= old(dst)@.len(),
    ensures
        filled(old(dst)@, final(dst)@, len as int, from_offset(src@, off as int)),
{
    let ghost was = dst@;
    assert(src@.len() == src.len());
    let mut i: usize = 0;
    while i < len as usize
        invariant
            i <= len,
            off + len <= src@.len() <= usize::MAX,
            len <= was.len(),
            filled(was, dst@, i as int, from_offset(src@, off as int)),
        decreases len - i,
    {
        dst[i] = src[off as usize + i];
        i = i + 1;
    }
}

/// A copy holds the stretch of the source that it was taken from, and behind it what it held
/// before.
pub proof fn law_copies_are_stretches<T>(
    src: Seq<T>,
    before: Seq<T>,
    now: Seq<T>,
    off: int,
    n: int,
)
    requires
        filled(before, now, n, from_offset(src, off)),
        0 <= n <= before.len(),
        0 <= off,
        off + n <= src.len(),
    ensures
        now == src.subrange(off, off + n) + before.skip(n),
{
    assert(now =~= src.subrange(off, off + n) + before.skip(n));
}

} // verus!
