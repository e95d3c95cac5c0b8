//! Byte-vector helpers.
use vstd::prelude::*;

verus! {

/// `n` zero bytes.
pub open spec fn zeros(n: nat) -> Seq<u8> {
    Seq::new(n, |i: int| 0u8)
}

/// Little-endian bytes of a 32-bit word (`u32::to_le_bytes`).
pub open spec fn le32(x: u32) -> Seq<u8> {
    seq![
        (x % 0x100) as u8,
        ((x / 0x100) % 0x100) as u8,
        ((x / 0x1_0000) % 0x100) as u8,
        ((x / 0x100_0000) % 0x100) as u8,
    ]
}

/// `u32::to_le_bytes`.
pub fn le32_bytes(x: u32) -> (r: [u8; 4])
    ensures
        r@ == le32(x),
{
    let b0 = (x & 0xff) as u8;
    let b1 = ((x >> 8u32) & 0xff) as u8;
    let b2 = ((x >> 16u32) & 0xff) as u8;
    let b3 = ((x >> 24u32) & 0xff) as u8;
    assert(x & 0xff == x % 0x100) by (bit_vector);
    assert((x >> 8u32) & 0xff == (x / 0x100) % 0x100) by (bit_vector);
    assert((x >> 16u32) & 0xff == (x / 0x1_0000) % 0x100) by (bit_vector);
    assert((x >> 24u32) & 0xff == (x / 0x100_0000) % 0x100) by (bit_vector);
    let r = [b0, b1, b2, b3];
    assert(r@ =~= le32(x));
    r
}

/// Appends `src` to `dst`.
pub fn extend_bytes(dst: &mut Vec<u8>, src: &[u8])
    ensures
        final(dst)@ == old(dst)@ + src@,
{
    let mut i: usize = 0;
    while i < src.len()
        invariant
            i <= src@.len(),
            dst@ == old(dst)@ + src@.take(i as int),
        decreases src@.len() - i,
    {
        dst.push(src[i]);
        assert(src@.take(i + 1) =~= src@.take(i as int).push(src@[i as int]));
        i = i + 1;
    }
    assert(src@.take(src@.len() as int) =~= src@);
}

/// Appends `n` zero bytes to `dst`.
pub fn push_zeros(dst: &mut Vec<u8>, n: usize)
    ensures
        final(dst)@ == old(dst)@ + zeros(n as nat),
{
    let mut i: usize = 0;
    while i < n
        invariant
            i <= n,
            dst@ == old(dst)@ + zeros(i as nat),
        decreases n - i,
    {
        dst.push(0);
        assert(zeros((i + 1) as nat) =~= zeros(i as nat).push(0u8));
        i = i + 1;
    }
}

/// Copies `src` into `out` starting at `at`; the other bytes of `out` are left unchanged.
pub fn copy_into(out: &mut [u8], at: usize, src: &[u8])
    requires
        at + src@.len() <= old(out)@.len(),
    ensures
        final(out)@.len() == old(out)@.len(),
        forall|j: int|
            0 <= j < final(out)@.len() ==> #[trigger] final(out)@[j] == if at <= j < at + src@.len() {
                src@[j - at]
            } else {
                old(out)@[j]
            },
{
    let n = out.len();
    let mut k: usize = 0;
    while k < src.len()
        invariant
            n == out@.len(),
            n == old(out)@.len(),
            at + src@.len() <= n,
            k <= src@.len(),
            forall|j: int|
                0 <= j < n ==> #[trigger] out@[j] == if at <= j < at + k {
                    src@[j - at]
                } else {
                    old(out)@[j]
                },
        decreases src@.len() - k,
    {
        out[at + k] = src[k];
        k = k + 1;
    }
}

} // verus!
