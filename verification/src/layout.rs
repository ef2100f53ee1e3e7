//! Byte-level helpers shared by the 64-byte records: copying slices into
//! buffers and arrays, and the position of the checksum inside a record.

use vstd::prelude::*;

verus! {

/// Every wire message and every log record is exactly this many bytes.
pub const RECORD_SIZE: usize = 64;

/// The bytes of a record as the checksum sees them: the four bytes of the
/// checksum field at `offset` replaced by zeros.
pub open spec fn checksum_input(bytes: Seq<u8>, offset: int) -> Seq<u8> {
    bytes.subrange(0, offset) + seq![0u8, 0u8, 0u8, 0u8] + bytes.subrange(offset + 4, bytes.len() as int)
}

/// Appends every byte of `src` to `out`.
pub fn push_slice(out: &mut Vec<u8>, src: &[u8])
    ensures
        final(out)@ == old(out)@ + src@,
{
    let mut i: usize = 0;
    while i < src.len()
        invariant
            i <= src.len(),
            out@ == old(out)@ + src@.take(i as int),
        decreases src.len() - i,
    {
        out.push(src[i]);
        i = i + 1;
        assert(src@.take(i as int) =~= src@.take(i - 1).push(src@[i - 1]));
    }
    assert(src@.take(src.len() as int) =~= src@);
}

/// Copies `N` bytes of `bytes`, starting at `start`, into an array.
pub fn read_array<const N: usize>(bytes: &[u8], start: usize) -> (r: [u8; N])
    requires
        start + N <= bytes@.len(),
    ensures
        r@ == bytes@.subrange(start as int, start + N),
{
    let mut r: [u8; N] = [0u8; N];
    let mut i: usize = 0;
    while i < N
        invariant
            i <= N,
            start + N <= bytes.len(),
            r@.len() == N,
            forall|k: int| 0 <= k < i ==> #[trigger] r@[k] == bytes@[start + k],
        decreases N - i,
    {
        r[i] = bytes[start + i];
        i = i + 1;
    }
    assert(r@ =~= bytes@.subrange(start as int, start + N));
    r
}

/// The checksum of a 64-byte record whose checksum field starts at `offset`,
/// computed over the record with that field read as zero, in three chained
/// pieces so that no copy of the record is needed.
pub fn record_checksum(bytes: &[u8], offset: usize) -> (r: u32)
    requires
        bytes@.len() == RECORD_SIZE,
        offset + 4 <= RECORD_SIZE,
    ensures
        r == crate::crc::spec_crc32(checksum_input(bytes@, offset as int)),
{
    let head = vstd::slice::slice_subrange(bytes, 0, offset);
    let zeros: [u8; 4] = [0u8; 4];
    let zero_slice = zeros.as_slice();
    let tail = vstd::slice::slice_subrange(bytes, offset + 4, RECORD_SIZE);
    let mut chunks: Vec<&[u8]> = Vec::new();
    chunks.push(head);
    chunks.push(zero_slice);
    chunks.push(tail);
    let r = crate::crc::crc32_chained(chunks.as_slice());
    proof {
        let cv = crate::crc::chunks_view(chunks@);
        assert(cv =~= seq![head@, zero_slice@, tail@]);
        assert(zero_slice@ =~= seq![0u8, 0u8, 0u8, 0u8]);
        reveal_with_fuel(Seq::<_>::flatten, 4);
        assert(cv.drop_first().drop_first().drop_first() =~= Seq::<Seq<u8>>::empty());
        assert(cv.drop_first().drop_first() =~= seq![tail@]);
        assert(cv.drop_first() =~= seq![zero_slice@, tail@]);
        assert(cv.flatten() =~= checksum_input(bytes@, offset as int));
    }
    r
}

} // verus!
