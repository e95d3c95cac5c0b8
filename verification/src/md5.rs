//! MD5 digests (computed by the `md5hash` crate) and their hexadecimal text form.
use vstd::prelude::*;

verus! {

/// The MD5 digest of a byte sequence, as computed by `md5hash::MD5Hasher`.
pub uninterp spec fn md5_digest(data: Seq<u8>) -> [u8; 16];

/// Computes the MD5 digest of `data`.
///
/// Trusted: calls `md5hash::MD5Hasher::{new, digest, finish}` once each; the
/// contract claims only that the 16 returned bytes are the digest of the input
/// bytes (a function of those bytes alone).
#[verifier::external_body]
pub fn md5_calc(data: &[u8]) -> (r: [u8; 16])
    ensures
        r == md5_digest(data@),
{
    let mut hasher = md5hash::MD5Hasher::new();
    hasher.digest(&data);
    hasher.finish().into()
}

/// Value of one ASCII hexadecimal digit (either case).
pub open spec fn nibble(c: u8) -> Option<u8> {
    if 0x30 <= c <= 0x39 {
        Some((c - 0x30) as u8)
    } else if 0x61 <= c <= 0x66 {
        Some((c - 0x61 + 10) as u8)
    } else if 0x41 <= c <= 0x46 {
        Some((c - 0x41 + 10) as u8)
    } else {
        None
    }
}

/// The 16 bytes spelled by exactly 32 hexadecimal digits, high nibble first.
pub open spec fn md5_hex_value(s: Seq<u8>) -> Option<Seq<u8>> {
    if s.len() == 32 && forall|i: int| 0 <= i < 32 ==> (#[trigger] nibble(s[i])) is Some {
        Some(
            Seq::new(
                16,
                |i: int| (nibble(s[2 * i])->0 * 16 + nibble(s[2 * i + 1])->0) as u8,
            ),
        )
    } else {
        None
    }
}

fn from_hex_nibble(c: u8) -> (r: Option<u8>)
    ensures
        r == nibble(c),
{
    if 0x30 <= c && c <= 0x39 {
        Some(c - 0x30)
    } else if 0x61 <= c && c <= 0x66 {
        Some(c - 0x61 + 10)
    } else if 0x41 <= c && c <= 0x46 {
        Some(c - 0x41 + 10)
    } else {
        None
    }
}

/// Parses a 32-digit hexadecimal MD5 string (byte length 32) into its 16 bytes.
pub fn parse_md5_hex(s: &str) -> (r: Option<[u8; 16]>)
    ensures
        r matches Some(v) ==> md5_hex_value(vstd::utf8::encode_utf8(s@)) == Some(v@),
        r is None ==> md5_hex_value(vstd::utf8::encode_utf8(s@)) is None,
{
    let bytes = s.as_bytes();
    if bytes.len() != 32 {
        return None;
    }
    let mut out = [0u8; 16];
    let mut i: usize = 0;
    while i < 16
        invariant
            bytes@ == vstd::utf8::encode_utf8(s@),
            bytes@.len() == 32,
            i <= 16,
            forall|k: int| 0 <= k < 2 * i ==> (#[trigger] nibble(bytes@[k])) is Some,
            forall|k: int|
                0 <= k < i ==> out@[k] == (nibble(bytes@[2 * k])->0 * 16 + nibble(
                    bytes@[2 * k + 1],
                )->0) as u8,
        decreases 16 - i,
    {
        let hi = match from_hex_nibble(bytes[i * 2]) {
            Some(v) => v,
            None => {
                return None;
            },
        };
        let lo = match from_hex_nibble(bytes[i * 2 + 1]) {
            Some(v) => v,
            None => {
                return None;
            },
        };
        assert((hi << 4u8) | lo == hi * 16 + lo) by (bit_vector)
            requires
                hi < 16,
                lo < 16,
        ;
        out[i] = (hi << 4u8) | lo;
        i = i + 1;
    }
    assert(out@ =~= md5_hex_value(bytes@)->0);
    Some(out)
}

} // verus!
