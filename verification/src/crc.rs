//! POSIX `cksum` style CRC-32 (polynomial 0x04C11DB7, MSB first, length appended).
use vstd::prelude::*;

verus! {

/// The CRC-32 generator polynomial used by `cksum`.
pub const CKSUM_POLY: u32 = 0x04C1_1DB7;

/// One MSB-first shift step of the polynomial division.
pub open spec fn crc_bit_step(c: u32) -> u32 {
    if c & 0x8000_0000 != 0 {
        ((c << 1) as u32) ^ CKSUM_POLY
    } else {
        (c << 1) as u32
    }
}

/// `n` shift steps applied to `c`.
pub open spec fn crc_bits(c: u32, n: nat) -> u32
    decreases n,
{
    if n == 0 {
        c
    } else {
        crc_bit_step(crc_bits(c, (n - 1) as nat))
    }
}

/// Entry `i` of the byte-wise lookup table: the byte `i` pushed through eight steps.
pub open spec fn cksum_table_entry(i: int) -> u32 {
    crc_bits(((i as u32) << 24u32) as u32, 8)
}

/// Feeding one byte into the register.
pub open spec fn cksum_step(crc: u32, b: u8) -> u32 {
    ((crc << 8u32) as u32) ^ cksum_table_entry((((crc >> 24u32) ^ (b as u32)) & 0xffu32) as int)
}

/// Feeding a whole byte sequence into the register, first byte first.
pub open spec fn cksum_feed(crc: u32, s: Seq<u8>) -> u32
    decreases s.len(),
{
    if s.len() == 0 {
        crc
    } else {
        cksum_step(cksum_feed(crc, s.drop_last()), s.last())
    }
}

/// Feeding the length `n` as little-endian bytes, stopping when no non-zero bytes remain.
pub open spec fn cksum_feed_len(crc: u32, n: nat) -> u32
    decreases n,
{
    if n == 0 {
        crc
    } else {
        cksum_feed_len(cksum_step(crc, (n % 256) as u8), n / 256)
    }
}

/// The `cksum` value of `data`: the bytes, then the length (taken modulo 2^32).
pub open spec fn spec_cksum(data: Seq<u8>) -> u32 {
    cksum_feed_len(cksum_feed(0, data), (data.len() as u32) as nat)
}

/// XOR of the `cksum` values of the consecutive blocks of `bs` bytes (the last one may be shorter).
pub open spec fn spec_xor_crc(data: Seq<u8>, bs: nat) -> u32
    decreases data.len(),
{
    if data.len() == 0 || bs == 0 {
        0
    } else if bs >= data.len() {
        spec_cksum(data)
    } else {
        spec_cksum(data.take(bs as int)) ^ spec_xor_crc(data.skip(bs as int), bs)
    }
}

/// Builds the 256-entry lookup table of the `cksum` polynomial.
pub fn make_cksum_table() -> (tbl: [u32; 256])
    ensures
        forall|i: int| 0 <= i < 256 ==> #[trigger] tbl[i] == cksum_table_entry(i),
{
    let mut tbl = [0u32; 256];
    let mut i: usize = 0;
    while i < 256
        invariant
            i <= 256,
            forall|j: int| 0 <= j < i ==> #[trigger] tbl[j] == cksum_table_entry(j),
        decreases 256 - i,
    {
        let start: u32 = (i as u32) << 24u32;
        let mut crc: u32 = start;
        let mut bit: u32 = 0;
        while bit < 8
            invariant
                bit <= 8,
                crc == crc_bits(start, bit as nat),
            decreases 8 - bit,
        {
            let ghost prev = crc;
            if (crc & 0x8000_0000) != 0 {
                crc = (crc << 1u32) ^ CKSUM_POLY;
            } else {
                crc = crc << 1u32;
            }
            assert(crc == crc_bit_step(prev));
            bit = bit + 1;
        }
        assert(start == ((i as int as u32) << 24u32) as u32);
        tbl[i] = crc;
        i = i + 1;
    }
    tbl
}

fn cksum_step_exec(tbl: &[u32; 256], crc: u32, b: u8) -> (r: u32)
    requires
        forall|i: int| 0 <= i < 256 ==> #[trigger] tbl[i] == cksum_table_entry(i),
    ensures
        r == cksum_step(crc, b),
{
    let idx: u32 = ((crc >> 24u32) ^ (b as u32)) & 0xffu32;
    assert(idx < 256) by (bit_vector)
        requires
            idx == ((crc >> 24u32) ^ (b as u32)) & 0xffu32,
    ;
    (crc << 8u32) ^ tbl[idx as usize]
}

proof fn lemma_len_byte(len: u32)
    ensures
        (len & 0xffu32) as nat == (len as nat) % 256,
        (len >> 8u32) as nat == (len as nat) / 256,
{
    assert((len & 0xffu32) == len % 256) by (bit_vector);
    assert((len >> 8u32) == len / 256) by (bit_vector);
}

fn cksum_with_table(tbl: &[u32; 256], data: &[u8]) -> (crc: u32)
    requires
        forall|i: int| 0 <= i < 256 ==> #[trigger] tbl[i] == cksum_table_entry(i),
    ensures
        crc == spec_cksum(data@),
{
    let n = data.len();
    let mut crc: u32 = 0;
    let mut i: usize = 0;
    while i < n
        invariant
            n == data@.len(),
            i <= n,
            forall|k: int| 0 <= k < 256 ==> #[trigger] tbl[k] == cksum_table_entry(k),
            crc == cksum_feed(0, data@.take(i as int)),
        decreases n - i,
    {
        assert(data@.take(i + 1).drop_last() =~= data@.take(i as int));
        crc = cksum_step_exec(tbl, crc, data[i]);
        i = i + 1;
    }
    assert(data@.take(n as int) =~= data@);
    let ghost fed = crc;
    let mut len: u32 = n as u32;
    while len != 0
        invariant
            forall|k: int| 0 <= k < 256 ==> #[trigger] tbl[k] == cksum_table_entry(k),
            cksum_feed_len(crc, len as nat) == cksum_feed_len(fed, (n as u32) as nat),
        decreases len,
    {
        proof {
            lemma_len_byte(len);
        }
        let b: u8 = (len & 0xffu32) as u8;
        crc = cksum_step_exec(tbl, crc, b);
        len = len >> 8u32;
    }
    crc
}

/// The POSIX `cksum` CRC of `data`.
pub fn cksum_crc32(data: &[u8]) -> (crc: u32)
    ensures
        crc == spec_cksum(data@),
{
    let tbl = make_cksum_table();
    cksum_with_table(&tbl, data)
}

proof fn lemma_xor_zero(a: u32)
    ensures
        a ^ 0u32 == a,
        0u32 ^ a == a,
{
    assert(a ^ 0u32 == a) by (bit_vector);
    assert(0u32 ^ a == a) by (bit_vector);
}

proof fn lemma_xor_assoc(a: u32, b: u32, c: u32)
    ensures
        (a ^ b) ^ c == a ^ (b ^ c),
{
    assert((a ^ b) ^ c == a ^ (b ^ c)) by (bit_vector);
}

/// XOR of the `cksum` values of consecutive `bs_size`-byte blocks of `data`.
///
/// A block size of zero never advances through non-empty data, so it is only
/// accepted together with empty data.
pub fn xor_crc_img(data: &[u8], bs_size: usize) -> (crc: u32)
    requires
        bs_size > 0 || data@.len() == 0,
    ensures
        crc == spec_xor_crc(data@, bs_size as nat),
{
    let tbl = make_cksum_table();
    let n = data.len();
    let mut crc_total: u32 = 0;
    let mut off: usize = 0;
    assert(data@.skip(0) =~= data@);
    proof {
        lemma_xor_zero(spec_xor_crc(data@, bs_size as nat));
    }
    while off < n
        invariant
            n == data@.len(),
            off <= n,
            bs_size > 0 || n == 0,
            forall|k: int| 0 <= k < 256 ==> #[trigger] tbl[k] == cksum_table_entry(k),
            crc_total ^ spec_xor_crc(data@.skip(off as int), bs_size as nat) == spec_xor_crc(
                data@,
                bs_size as nat,
            ),
        decreases n - off,
    {
        let ghost rest = data@.skip(off as int);
        let end: usize = if bs_size >= n - off {
            n
        } else {
            off + bs_size
        };
        let block = vstd::slice::slice_subrange(data, off, end);
        let c = cksum_with_table(&tbl, block);
        proof {
            if bs_size >= n - off {
                assert(block@ =~= rest);
                assert(spec_xor_crc(rest, bs_size as nat) == c);
                assert(data@.skip(end as int).len() == 0);
                assert(spec_xor_crc(data@.skip(end as int), bs_size as nat) == 0);
                lemma_xor_zero(crc_total ^ c);
            } else {
                assert(block@ =~= rest.take(bs_size as int));
                assert(rest.skip(bs_size as int) =~= data@.skip(end as int));
                assert(spec_xor_crc(rest, bs_size as nat) == c ^ spec_xor_crc(
                    data@.skip(end as int),
                    bs_size as nat,
                ));
                lemma_xor_assoc(crc_total, c, spec_xor_crc(data@.skip(end as int), bs_size as nat));
            }
        }
        crc_total = crc_total ^ c;
        off = end;
    }
    proof {
        assert(data@.skip(n as int).len() == 0);
        lemma_xor_zero(crc_total);
    }
    crc_total
}

} // verus!
