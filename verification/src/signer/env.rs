//! Packing of the encrypted, gzip-compressed U-Boot environment block.
use vstd::prelude::*;
use crate::bytes::{copy_into, extend_bytes, le32, le32_bytes, push_zeros, zeros};
use crate::hwid::Hwid;
use cbc::cipher::{BlockEncryptMut, KeyIvInit};

verus! {

/// Offset of the CSF/environment provisioning block in a disk image.
pub const ENV_CSF_PROVISION_BLOCK: usize = 0x20000;
/// Length of the CSF/environment provisioning block.
pub const ENV_CSF_PROVISION_BLOCK_LEN: usize = 0x10000;
/// Offset of the encrypted environment block in a disk image.
pub const ENV_ENCRYPTED_BLOCK: usize = 0x30000;
/// Length of the encrypted environment block.
pub const ENV_ENCRYPTED_BLOCK_LEN: usize = 0x10000;

/// Room for the environment text (after its 4-byte CRC).
pub const ENV_TOTAL: usize = 0x800;
/// Room for the device tree (after the environment, before the block CRC).
pub const DTB_TOTAL: usize = 0x10000 - 0x800;
/// Size of the plain environment block.
pub const BLOCK_LEN: usize = 0x10000;

/// One bit step of the reflected CRC-32 division (polynomial `0xEDB88320`).
pub open spec fn crc32_bit(c: u32) -> u32 {
    if c & 1 == 1 {
        (c >> 1u32) ^ 0xEDB8_8320u32
    } else {
        c >> 1u32
    }
}

/// `n` bit steps applied to `c`.
pub open spec fn crc32_bits(c: u32, n: nat) -> u32
    decreases n,
{
    if n == 0 {
        c
    } else {
        crc32_bit(crc32_bits(c, (n - 1) as nat))
    }
}

/// The register after feeding `data`, first byte first, into `c`.
pub open spec fn crc32_feed(c: u32, data: Seq<u8>) -> u32
    decreases data.len(),
{
    if data.len() == 0 {
        c
    } else {
        crc32_bits(crc32_feed(c, data.drop_last()) ^ (data.last() as u32), 8)
    }
}

/// The CRC-32 of IEEE 802.3 (reflected, register and result inverted), the checksum that
/// `crc32fast` computes.
pub open spec fn crc32_ieee(data: Seq<u8>) -> u32 {
    !crc32_feed(0xFFFF_FFFFu32, data)
}

/// The raw DEFLATE stream that `miniz_oxide` produces for `input` at compression `level`.
pub uninterp spec fn deflate_raw(input: Seq<u8>, level: u8) -> Seq<u8>;

/// AES-128-CBC encryption (no padding) of whole 16-byte blocks, as the `cbc` and `aes`
/// crates compute it.
pub uninterp spec fn aes128_cbc_encrypt(key: Seq<u8>, iv: Seq<u8>, data: Seq<u8>) -> Seq<u8>;

/// CRC-32 of `data`.
///
/// Trusted: calls `crc32fast::Hasher::{new, update, finalize}`; the contract claims only that
/// the result is the CRC-32 of the input bytes.
#[verifier::external_body]
pub fn crc32(data: &[u8]) -> (r: u32)
    ensures
        r == crc32_ieee(data@),
{
    let mut hasher = crc32fast::Hasher::new();
    hasher.update(data);
    hasher.finalize()
}

/// CRC-32 of `data` followed by `data_b`.
///
/// Trusted: calls `crc32fast::Hasher::update` on both slices in turn; the contract claims
/// that this is the CRC-32 of their concatenation (the hasher is a streaming hasher).
#[verifier::external_body]
pub fn crc32x2(data: &[u8], data_b: &[u8]) -> (r: u32)
    ensures
        r == crc32_ieee(data@ + data_b@),
{
    let mut hasher = crc32fast::Hasher::new();
    hasher.update(data);
    hasher.update(data_b);
    hasher.finalize()
}

/// Raw DEFLATE compression.
///
/// Trusted: calls `miniz_oxide::deflate::compress_to_vec`; the contract claims only that the
/// output is a function of the input bytes and the level.
#[verifier::external_body]
fn compress_to_vec(input: &[u8], level: u8) -> (r: Vec<u8>)
    requires
        level <= 10,
    ensures
        r@ == deflate_raw(input@, level),
{
    miniz_oxide::deflate::compress_to_vec(input, level)
}

/// AES-128-CBC encryption of whole blocks.
///
/// Trusted: calls `cbc::Encryptor::<aes::Aes128>::new_from_slices` (the key and IV have the
/// 16 bytes it needs) and `encrypt_blocks_mut` on each 16-byte block in order; the contract
/// claims that the result is a function of key, IV and data, of the same length.
#[verifier::external_body]
fn encrypt_in_place(data: &mut Vec<u8>, key: &[u8; 16], iv: &[u8; 16])
    requires
        old(data)@.len() % 16 == 0,
    ensures
        final(data)@ == aes128_cbc_encrypt(key@, iv@, old(data)@),
        final(data)@.len() == old(data)@.len(),
{
    let mut cipher = cbc::Encryptor::<aes::Aes128>::new_from_slices(key, iv).unwrap();
    for chunk in data.chunks_exact_mut(16) {
        cipher.encrypt_blocks_mut(core::slice::from_mut(chunk.into()));
    }
}

/// `s` followed by zeros up to length `n`.
pub open spec fn pad_to(s: Seq<u8>, n: nat) -> Seq<u8> {
    s + zeros((n - s.len()) as nat)
}

/// The environment part of the plain block: its CRC, then the text padded with zeros.
pub open spec fn env_part(env: Seq<u8>) -> Seq<u8> {
    le32(crc32_ieee(pad_to(env, (ENV_TOTAL - 4) as nat))) + pad_to(env, (ENV_TOTAL - 4) as nat)
}

/// The plain 64 KiB block: environment part, device tree padded, CRC of both.
#[verifier::opaque]
pub open spec fn plain_block(env: Seq<u8>, dtb: Seq<u8>) -> Seq<u8> {
    let e = env_part(env);
    let d = pad_to(dtb, (DTB_TOTAL - 4) as nat);
    e + d + le32(crc32_ieee(e + d))
}

/// The gzip header the block is framed with.
pub open spec fn gzip_header() -> Seq<u8> {
    seq![0x1fu8, 0x8bu8, 0x08u8, 0x00u8, 0x00u8, 0x00u8, 0x00u8, 0x00u8, 0x00u8, 0x03u8]
}

/// A gzip member: header, DEFLATE stream, CRC-32 and length of the input.
#[verifier::opaque]
pub open spec fn gzip_of(input: Seq<u8>) -> Seq<u8> {
    gzip_header() + deflate_raw(input, 9) + le32(crc32_ieee(input)) + le32(input.len() as u32)
}

/// `s` padded with zeros to a multiple of 16 bytes.
pub open spec fn pad16(s: Seq<u8>) -> Seq<u8> {
    s + zeros(((16 - s.len() % 16) % 16) as nat)
}

/// Lowercase hexadecimal ASCII digit.
pub open spec fn hex_digit_byte(d: int) -> u8 {
    if d < 10 {
        (0x30 + d) as u8
    } else {
        (0x61 + d - 10) as u8
    }
}

/// The lowest `width` hexadecimal digits of `v` as ASCII bytes, most significant first.
pub open spec fn hex_ascii(v: nat, width: nat) -> Seq<u8>
    decreases width,
{
    if width == 0 {
        seq![]
    } else {
        hex_ascii(v / 16, (width - 1) as nat).push(hex_digit_byte((v % 16) as int))
    }
}

/// Two words as sixteen hexadecimal ASCII digits: the AES key or IV of a device.
pub open spec fn hex_pair(a: u32, b: u32) -> Seq<u8> {
    hex_ascii(a as nat, 8) + hex_ascii(b as nat, 8)
}

/// The encrypted payload: the padded gzip member under the device's key and IV.
pub open spec fn sealed_payload(env: Seq<u8>, dtb: Seq<u8>, hwid: Hwid) -> Seq<u8> {
    aes128_cbc_encrypt(
        hex_pair(hwid.cfg0, hwid.cfg1),
        hex_pair(hwid.mac0, hwid.mac1),
        pad16(gzip_of(plain_block(env, dtb))),
    )
}

/// The packed environment: encrypted payload, 12 zero bytes, total length (LE).
#[verifier::opaque]
pub open spec fn packed_env(env: Seq<u8>, dtb: Seq<u8>, hwid: Hwid) -> Seq<u8> {
    let c = sealed_payload(env, dtb, hwid);
    c + zeros(12) + le32((c.len() + 16) as u32)
}

/// Whether the inputs are small enough to reach compression.
pub open spec fn env_inputs_fit(env: Seq<u8>, dtb: Seq<u8>) -> bool {
    env.len() <= ENV_TOTAL - 4 && dtb.len() <= DTB_TOTAL - 4
}

/// Whether the gzip member fits the 64 KiB working buffer.
pub open spec fn gzip_fits(env: Seq<u8>, dtb: Seq<u8>) -> bool {
    gzip_of(plain_block(env, dtb)).len() <= BLOCK_LEN
}

/// The inputs on which packing does not fault: when the gzip member fits the working
/// buffer, its padded form must leave room for the 16-byte trailer.
pub open spec fn env_pack_defined(env: Seq<u8>, dtb: Seq<u8>) -> bool {
    env_inputs_fit(env, dtb) && gzip_fits(env, dtb) ==> pad16(gzip_of(plain_block(env, dtb))).len()
        + 16 <= BLOCK_LEN
}

/// Frames `input` as a gzip member, failing when it exceeds `cap` bytes.
fn gzip_compress(input: &[u8], cap: usize) -> (r: Result<Vec<u8>, &'static str>)
    requires
        cap >= 18,
    ensures
        gzip_of(input@).len() > cap ==> r == Err::<Vec<u8>, &str>("buffer too small"),
        gzip_of(input@).len() <= cap ==> (r matches Ok(v) && v@ == gzip_of(input@)),
{
    reveal(gzip_of);
    let header: [u8; 10] = [0x1f, 0x8b, 0x08, 0x00, 0x00, 0x00, 0x00, 0x00, 0x00, 0x03];
    assert(header@ =~= gzip_header());
    let compressed = compress_to_vec(input, 9);
    if compressed.len() > cap - 18 {
        return Err("buffer too small");
    }
    let mut out: Vec<u8> = Vec::new();
    extend_bytes(&mut out, &header);
    extend_bytes(&mut out, compressed.as_slice());
    let crc = crc32(input);
    extend_bytes(&mut out, &le32_bytes(crc));
    let len = input.len() as u32;
    extend_bytes(&mut out, &le32_bytes(len));
    assert(out@ =~= gzip_of(input@));
    Ok(out)
}

/// Writes the lowest eight hexadecimal digits of `val` as ASCII.
fn hex_write(buf: &mut Vec<u8>, val: u32)
    ensures
        final(buf)@ == old(buf)@ + hex_ascii(val as nat, 8),
{
    let mut digits: [u8; 8] = [0; 8];
    let mut v: u32 = val;
    let mut i: usize = 8;
    assert(pow16(0) == 1);
    assert(v as nat == (val as nat) / pow16(0));
    while i > 0
        invariant
            i <= 8,
            v as nat == (val as nat) / pow16((8 - i) as nat),
            forall|k: int|
                i <= k < 8 ==> #[trigger] digits@[k] == hex_ascii(val as nat, 8)[k],
        decreases i,
    {
        let d = v % 16;
        let c: u8 = if d < 10 {
            (0x30 + d) as u8
        } else {
            (0x61 + d - 10) as u8
        };
        assert(c == hex_digit_byte(d as int));
        digits[i - 1] = c;
        proof {
            lemma_hex_ascii_digit(val as nat, 8, (i - 1) as nat);
            lemma_pow16_step((8 - i) as nat, val as nat);
        }
        v = v / 16;
        i = i - 1;
    }
    proof {
        lemma_hex_ascii_len(val as nat, 8);
    }
    assert(digits@ =~= hex_ascii(val as nat, 8));
    extend_bytes(buf, &digits);
}

/// `16^n`.
pub open spec fn pow16(n: nat) -> nat
    decreases n,
{
    if n == 0 {
        1
    } else {
        16 * pow16((n - 1) as nat)
    }
}

proof fn lemma_pow16_pos(n: nat)
    ensures
        pow16(n) > 0,
    decreases n,
{
    if n > 0 {
        lemma_pow16_pos((n - 1) as nat);
    }
}

proof fn lemma_pow16_step(n: nat, v: nat)
    ensures
        (v / pow16(n)) / 16 == v / pow16(n + 1),
{
    lemma_pow16_pos(n);
    assert(pow16(n + 1) == 16 * pow16(n));
    vstd::arithmetic::div_mod::lemma_div_denominator(v as int, pow16(n) as int, 16);
    assert(pow16(n) * 16 == 16 * pow16(n)) by (nonlinear_arith);
}

proof fn lemma_hex_ascii_digit(v: nat, w: nat, k: nat)
    requires
        k < w,
    ensures
        hex_ascii(v, w).len() == w,
        hex_ascii(v, w)[k as int] == hex_digit_byte(((v / pow16((w - 1 - k) as nat)) % 16) as int),
    decreases w,
{
    lemma_hex_ascii_len(v, w);
    if k == w - 1 {
        assert(pow16(0) == 1);
    } else {
        lemma_hex_ascii_digit(v / 16, (w - 1) as nat, k);
        lemma_pow16_step(0, v);
        lemma_pow16_pos((w - 2 - k) as nat);
        vstd::arithmetic::div_mod::lemma_div_denominator(v as int, 16, pow16((w - 2 - k) as nat) as int);
        assert(pow16((w - 1 - k) as nat) == 16 * pow16((w - 2 - k) as nat));
    }
}

proof fn lemma_hex_ascii_len(v: nat, w: nat)
    ensures
        hex_ascii(v, w).len() == w,
    decreases w,
{
    if w > 0 {
        lemma_hex_ascii_len(v / 16, (w - 1) as nat);
    }
}

/// The device key (or IV): two words as sixteen hexadecimal ASCII digits.
fn format_u32x2(a: u32, b: u32) -> (r: [u8; 16])
    ensures
        r@ == hex_pair(a, b),
{
    let mut v: Vec<u8> = Vec::new();
    hex_write(&mut v, a);
    hex_write(&mut v, b);
    proof {
        lemma_hex_ascii_len(a as nat, 8);
        lemma_hex_ascii_len(b as nat, 8);
    }
    let r: [u8; 16] = [
        v[0], v[1], v[2], v[3], v[4], v[5], v[6], v[7], v[8], v[9], v[10], v[11], v[12], v[13], v[14],
        v[15],
    ];
    assert(r@ =~= hex_pair(a, b));
    r
}

/// The lowercase hexadecimal digits `0`-`9`, `a`-`f`, as ASCII bytes.
pub open spec fn lower_hex_digits() -> Seq<u8> {
    seq![
        0x30u8, 0x31, 0x32, 0x33, 0x34, 0x35, 0x36, 0x37, 0x38, 0x39, 0x61, 0x62, 0x63, 0x64, 0x65,
        0x66,
    ]
}

/// The sixteen ASCII bytes that spell `a` and then `b`, each as eight lowercase hexadecimal
/// digits, most significant first (`format!("{:08x}{:08x}", a, b)`).
pub open spec fn hex_spelling(a: u32, b: u32) -> Seq<u8> {
    Seq::new(
        16,
        |i: int|
            if i < 8 {
                lower_hex_digits()[((a as nat / pow16((7 - i) as nat)) % 16) as int]
            } else {
                lower_hex_digits()[((b as nat / pow16((15 - i) as nat)) % 16) as int]
            },
    )
}

proof fn lemma_hex_digit_byte(d: int)
    requires
        0 <= d < 16,
    ensures
        hex_digit_byte(d) == lower_hex_digits()[d],
{
}

proof fn lemma_hex_pair_spelling(a: u32, b: u32)
    ensures
        hex_pair(a, b) == hex_spelling(a, b),
{
    lemma_hex_ascii_len(a as nat, 8);
    lemma_hex_ascii_len(b as nat, 8);
    assert forall|i: int| 0 <= i < 16 implies #[trigger] hex_pair(a, b)[i] == hex_spelling(a, b)[i] by {
        if i < 8 {
            lemma_hex_ascii_digit(a as nat, 8, i as nat);
            lemma_pow16_pos((7 - i) as nat);
            lemma_hex_digit_byte(((a as nat / pow16((7 - i) as nat)) % 16) as int);
        } else {
            lemma_hex_ascii_digit(b as nat, 8, (i - 8) as nat);
            lemma_pow16_pos((15 - i) as nat);
            lemma_hex_digit_byte(((b as nat / pow16((15 - i) as nat)) % 16) as int);
        }
    }
    assert(hex_pair(a, b) =~= hex_spelling(a, b));
}

/// **Law: the environment is sealed with the device's key and IV.** The packed environment
/// is the padded gzip member of the plain block encrypted with AES-128-CBC under the key
/// spelled by `cfg0` and `cfg1` and the IV spelled by `mac0` and `mac1` (each word as eight
/// lowercase hexadecimal digits), followed by 12 zero bytes and the total length.
pub proof fn lemma_sealed_with_device_key(env: Seq<u8>, dtb: Seq<u8>, hwid: Hwid)
    ensures
        ({
            let c = aes128_cbc_encrypt(
                hex_spelling(hwid.cfg0, hwid.cfg1),
                hex_spelling(hwid.mac0, hwid.mac1),
                pad16(gzip_of(plain_block(env, dtb))),
            );
            packed_env(env, dtb, hwid) == c + zeros(12) + le32((c.len() + 16) as u32)
        }),
{
    lemma_hex_pair_spelling(hwid.cfg0, hwid.cfg1);
    lemma_hex_pair_spelling(hwid.mac0, hwid.mac1);
    reveal(packed_env);
}

/// Builds the plain 64 KiB block.
fn build_plain_block(env: &[u8], dtb: &[u8]) -> (raw: Vec<u8>)
    requires
        env_inputs_fit(env@, dtb@),
    ensures
        raw@ == plain_block(env@, dtb@),
{
    let mut env_body: Vec<u8> = Vec::new();
    extend_bytes(&mut env_body, env);
    push_zeros(&mut env_body, ENV_TOTAL - 4 - env.len());
    let env_crc = crc32(env_body.as_slice());
    let mut env_buf: Vec<u8> = Vec::new();
    extend_bytes(&mut env_buf, &le32_bytes(env_crc));
    extend_bytes(&mut env_buf, env_body.as_slice());
    let mut dtb_buf: Vec<u8> = Vec::new();
    extend_bytes(&mut dtb_buf, dtb);
    push_zeros(&mut dtb_buf, DTB_TOTAL - 4 - dtb.len());
    let crc = crc32x2(env_buf.as_slice(), dtb_buf.as_slice());
    reveal(plain_block);
    let mut raw: Vec<u8> = Vec::new();
    extend_bytes(&mut raw, env_buf.as_slice());
    extend_bytes(&mut raw, dtb_buf.as_slice());
    extend_bytes(&mut raw, &le32_bytes(crc));
    assert(raw@ =~= plain_block(env@, dtb@));
    raw
}

/// Whether packing `env` and `dtb` finishes without fault (`env_pack_defined`), and
/// whether its gzip member fits the working buffer (`gzip_fits`, meaningful when the
/// inputs fit).
pub fn env_pack_check(env: &[u8], dtb: &[u8]) -> (r: (bool, bool))
    ensures
        r.0 == env_pack_defined(env@, dtb@),
        env_inputs_fit(env@, dtb@) ==> r.1 == gzip_fits(env@, dtb@),
{
    if env.len() > ENV_TOTAL - 4 || dtb.len() > DTB_TOTAL - 4 {
        return (true, false);
    }
    let raw = build_plain_block(env, dtb);
    let compressed = compress_to_vec(raw.as_slice(), 9);
    reveal(gzip_of);
    if compressed.len() > BLOCK_LEN - 18 {
        return (true, false);
    }
    let glen = compressed.len() + 18;
    let padded = glen + (16 - glen % 16) % 16;
    (padded + 16 <= BLOCK_LEN, true)
}

/// Packs the environment when that finishes without fault; `None` on the inputs
/// `env_pack` does not accept.
pub fn env_pack_checked(env: &[u8], dtb: &[u8], hwid: Hwid, out: &mut [u8]) -> (r: Option<
    Result<usize, &'static str>,
>)
    ensures
        r is None <==> old(out)@.len() >= BLOCK_LEN && !env_pack_defined(env@, dtb@),
        r is None ==> final(out)@ == old(out)@,
        r matches Some(res) ==> {
            &&& (env@.len() > ENV_TOTAL - 4 ==> res == Err::<usize, &str>("env too big"))
            &&& (env@.len() <= ENV_TOTAL - 4 && dtb@.len() > DTB_TOTAL - 4 ==> res == Err::<
                usize,
                &str,
            >("dtb too big"))
            &&& (env_inputs_fit(env@, dtb@) && old(out)@.len() < BLOCK_LEN ==> res == Err::<
                usize,
                &str,
            >("output too small"))
            &&& (env_inputs_fit(env@, dtb@) && old(out)@.len() >= BLOCK_LEN && !gzip_fits(
                env@,
                dtb@,
            ) ==> res == Err::<usize, &str>("buffer too small"))
            &&& (res is Ok <==> env_inputs_fit(env@, dtb@) && old(out)@.len() >= BLOCK_LEN
                && gzip_fits(env@, dtb@))
            &&& (res is Err ==> final(out)@ == old(out)@)
            &&& (res matches Ok(n) ==> n == packed_env(env@, dtb@, hwid).len() && final(out)@
                == packed_env(env@, dtb@, hwid) + old(out)@.skip(n as int))
            &&& (res matches Ok(n) ==> n == pad16(gzip_of(plain_block(env@, dtb@))).len() + 16
                && n % 16 == 0)
        },
{
    let (defined, _) = env_pack_check(env, dtb);
    if !defined && out.len() >= BLOCK_LEN {
        return None;
    }
    Some(env_pack(env, dtb, hwid, out))
}

/// Packs the environment text `env` and device tree `dtb` into the encrypted block for
/// `hwid`, writes it at the start of `out` and returns its length.
pub fn env_pack(env: &[u8], dtb: &[u8], hwid: Hwid, out: &mut [u8]) -> (r: Result<usize, &'static str>)
    requires
        old(out)@.len() >= BLOCK_LEN ==> env_pack_defined(env@, dtb@),
    ensures
        env@.len() > ENV_TOTAL - 4 ==> r == Err::<usize, &str>("env too big"),
        env@.len() <= ENV_TOTAL - 4 && dtb@.len() > DTB_TOTAL - 4 ==> r == Err::<usize, &str>(
            "dtb too big",
        ),
        env_inputs_fit(env@, dtb@) && old(out)@.len() < BLOCK_LEN ==> r == Err::<usize, &str>(
            "output too small",
        ),
        env_inputs_fit(env@, dtb@) && old(out)@.len() >= BLOCK_LEN && !gzip_fits(env@, dtb@) ==> r
            == Err::<usize, &str>("buffer too small"),
        r is Ok <==> env_inputs_fit(env@, dtb@) && old(out)@.len() >= BLOCK_LEN && gzip_fits(
            env@,
            dtb@,
        ),
        r is Err ==> final(out)@ == old(out)@,
        final(out)@.len() == old(out)@.len(),
        r matches Ok(n) ==> n <= BLOCK_LEN,
        r matches Ok(n) ==> {
            let p = packed_env(env@, dtb@, hwid);
            &&& n == p.len()
            &&& final(out)@ == p + old(out)@.skip(n as int)
            &&& n == pad16(gzip_of(plain_block(env@, dtb@))).len() + 16
            &&& n % 16 == 0
            &&& sealed_payload(env@, dtb@, hwid).len() == pad16(gzip_of(plain_block(env@, dtb@))).len()
        },
{
    if env.len() > ENV_TOTAL - 4 {
        return Err("env too big");
    }
    if dtb.len() > DTB_TOTAL - 4 {
        return Err("dtb too big");
    }
    if out.len() < BLOCK_LEN {
        return Err("output too small");
    }
    let raw = build_plain_block(env, dtb);
    let mut data = match gzip_compress(raw.as_slice(), BLOCK_LEN) {
        Ok(g) => g,
        Err(e) => {
            return Err(e);
        },
    };
    let key = format_u32x2(hwid.cfg0, hwid.cfg1);
    let iv = format_u32x2(hwid.mac0, hwid.mac1);
    let pad_len = (16 - (data.len() % 16)) % 16;
    push_zeros(&mut data, pad_len);
    assert(data@ =~= pad16(gzip_of(plain_block(env@, dtb@))));
    encrypt_in_place(&mut data, &key, &iv);
    let data_len = data.len();
    assert(data_len + 16 <= BLOCK_LEN);
    let offset = (data_len + 16) as u32;
    push_zeros(&mut data, 12);
    extend_bytes(&mut data, &le32_bytes(offset));
    reveal(packed_env);
    assert(data@ =~= packed_env(env@, dtb@, hwid));
    let n = data.len();
    copy_into(out, 0, data.as_slice());
    assert(out@ =~= data@ + old(out)@.skip(n as int));
    Ok(n)
}

} // verus!
