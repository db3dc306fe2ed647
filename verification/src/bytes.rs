//! Copying between byte buffers and the fixed-size encodings.

use vstd::prelude::*;

verus! {

/// Writes `src` into `buff` from position `offset` on; the rest of `buff`
/// stays as it was.
pub(crate) fn write_at(buff: &mut [u8], offset: usize, src: &[u8])
    requires
        offset + src@.len() <= old(buff)@.len(),
    ensures
        final(buff)@.len() == old(buff)@.len(),
        final(buff)@.subrange(offset as int, offset + src@.len()) == src@,
        forall|i: int|
            0 <= i < old(buff)@.len() && !(offset <= i < offset + src@.len()) ==> final(buff)@[i]
                == old(buff)@[i],
{
    let n: usize = src.len();
    let total: usize = buff.len();
    let mut i: usize = 0;
    while i < n
        invariant
            n == src@.len(),
            i <= n,
            total == buff@.len(),
            offset + n <= total,
            buff@.len() == old(buff)@.len(),
            forall|j: int| 0 <= j < i ==> buff@[offset + j] == src@[j],
            forall|j: int|
                0 <= j < buff@.len() && !(offset <= j < offset + i) ==> buff@[j] == old(buff)@[j],
        decreases n - i,
    {
        buff[offset + i] = src[i];
        i = i + 1;
    }
    assert(buff@.subrange(offset as int, offset + n) =~= src@);
}

/// The 32 bytes of `src` from position `offset` on.
pub(crate) fn read_32(src: &[u8], offset: usize) -> (r: [u8; 32])
    requires
        offset + 32 <= src@.len(),
    ensures
        r@ == src@.subrange(offset as int, offset + 32),
{
    let mut r: [u8; 32] = [0u8; 32];
    let total: usize = src.len();
    let mut i: usize = 0;
    while i < 32
        invariant
            i <= 32,
            total == src@.len(),
            offset + 32 <= total,
            forall|j: int| 0 <= j < i ==> r@[j] == src@[offset + j],
        decreases 32 - i,
    {
        r[i] = src[offset + i];
        i = i + 1;
    }
    assert(r@ =~= src@.subrange(offset as int, offset + 32));
    r
}

/// The first 96 bytes of `src`.
pub(crate) fn read_96(src: &[u8]) -> (r: [u8; 96])
    requires
        96 <= src@.len(),
    ensures
        r@ == src@.subrange(0, 96),
{
    let mut r: [u8; 96] = [0u8; 96];
    let mut i: usize = 0;
    while i < 96
        invariant
            i <= 96,
            96 <= src@.len(),
            forall|j: int| 0 <= j < i ==> r@[j] == src@[j],
        decreases 96 - i,
    {
        r[i] = src[i];
        i = i + 1;
    }
    assert(r@ =~= src@.subrange(0, 96));
    r
}

} // verus!
