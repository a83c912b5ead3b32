use vstd::prelude::*;
use crate::u256::{u64_be_bytes, u64_to_be};

verus! {

/// Appends bytes to a buffer.
pub fn put_bytes(out: &mut Vec<u8>, bytes: &[u8])
    ensures
        final(out)@ == old(out)@ + bytes@,
{
    let mut i: usize = 0;
    let ghost start = out@;
    while i < bytes.len()
        invariant
            i <= bytes@.len(),
            out@ == start + bytes@.subrange(0, i as int),
        decreases bytes.len() - i,
    {
        out.push(bytes[i]);
        i = i + 1;
        assert(out@ =~= start + bytes@.subrange(0, i as int));
    }
    assert(bytes@.subrange(0, bytes@.len() as int) =~= bytes@);
}

/// Appends the eight big-endian bytes of a word to a buffer.
pub fn put_u64(out: &mut Vec<u8>, x: u64)
    ensures
        final(out)@ == old(out)@ + u64_be_bytes(x),
{
    let b = u64_to_be(x);
    put_bytes(out, &b);
}

/// The encoding of a 128-bit word: its high then its low 64 bits, big-endian.
pub open spec fn u128_be_bytes(x: u128) -> Seq<u8> {
    u64_be_bytes((x >> 64u128) as u64) + u64_be_bytes(x as u64)
}

/// Appends the sixteen big-endian bytes of a 128-bit word to a buffer.
pub fn put_u128(out: &mut Vec<u8>, x: u128)
    ensures
        final(out)@ == old(out)@ + u128_be_bytes(x),
{
    put_u64(out, (x >> 64u128) as u64);
    put_u64(out, x as u64);
    assert(out@ =~= old(out)@ + u128_be_bytes(x));
}

} // verus!
