//! Signing of i.MX disk images: re-encrypting the U-Boot environment for one device.
pub mod env;
pub mod shellcode;

use vstd::prelude::*;
use vstd::utf8::encode_utf8;
use crate::bytes::{copy_into, zeros};
use crate::hwid::Hwid;
use self::env::{
    crc32, crc32_ieee, env_inputs_fit, env_pack, env_pack_check, env_pack_defined, gzip_fits,
    packed_env,
    ENV_CSF_PROVISION_BLOCK, ENV_CSF_PROVISION_BLOCK_LEN, ENV_ENCRYPTED_BLOCK,
    ENV_ENCRYPTED_BLOCK_LEN,
};
use self::shellcode::{create_env, env_text, lemma_env_text_len};
use crate::text::lemma_encode_utf8_len;

verus! {

/// `printf` address of the known bootloader revision.
pub const OLD_UBOOT_PRINTF_ADDR: u32 = 0x87fc90e8;
/// CRC of the first 128 KiB (past the first KiB) of the known bootloader revision.
pub const OLD_UBOOT_CRC: u32 = 0x26b2a736;
/// Load address of U-Boot.
pub const UBOOT_TEXT_BASE: u32 = 0x87800000;
/// Flash offset of the U-Boot copy that gets chain-loaded.
pub const UBOOT_FLASH_OFFSET: u32 = 0x40000;
/// Size of the U-Boot copy that gets chain-loaded.
pub const UBOOT_FLASH_SIZE: u32 = 0x80000;

/// The bytes of the chain-loading environment text.
pub open spec fn csf_env_bytes(text_base: u32, flash_offset: u32, flash_size: u32, printf_addr: u32) -> Seq<u8> {
    encode_utf8(env_text(text_base, flash_offset, flash_size, printf_addr))
}

/// The CRC that identifies the bootloader in an image: the first 128 KiB with the first
/// KiB zeroed.
pub open spec fn uboot_crc(wic: Seq<u8>) -> u32 {
    crc32_ieee(zeros(0x400) + wic.subrange(0x400, 0x20000))
}

/// CRC of the bootloader area of a disk image.
pub fn calc_uboot_crc(wic_buf: &[u8]) -> (r: u32)
    requires
        wic_buf@.len() >= 0x20000,
    ensures
        r == uboot_crc(wic_buf@),
{
    let mut buf: Vec<u8> = vec![0u8; 0x20000];
    let region = vstd::slice::slice_subrange(wic_buf, 0x400, 0x20000);
    copy_into(buf.as_mut_slice(), 0x400, region);
    assert(buf@ =~= zeros(0x400) + wic_buf@.subrange(0x400, 0x20000));
    crc32(buf.as_slice())
}

/// Whether patching the provisioning block finishes without fault for a block of
/// `data_len` bytes.
pub open spec fn csf_patch_defined(data_len: int, env: Seq<u8>) -> bool {
    &&& env_pack_defined(env, seq![])
    &&& gzip_fits(env, seq![]) ==> data_len >= ENV_CSF_PROVISION_BLOCK_LEN
}

/// `data` with the packed environment placed at the end of its first 64 KiB.
pub open spec fn csf_patched(data: Seq<u8>, packed: Seq<u8>) -> Seq<u8> {
    let s = ENV_CSF_PROVISION_BLOCK_LEN - packed.len();
    data.take(s) + packed + data.skip(ENV_CSF_PROVISION_BLOCK_LEN as int)
}

#[verifier::rlimit(40)]
fn patch_csf_at(
    data: &mut [u8],
    base: usize,
    uboot_text_base: u32,
    uboot_flash_offset: u32,
    uboot_flash_size: u32,
    uboot_printf_addr: u32,
    hwid: Hwid,
) -> (r: Result<(), &'static str>)
    requires
        uboot_printf_addr + 7 <= u32::MAX,
        csf_patch_defined(
            old(data)@.len() - base,
            csf_env_bytes(uboot_text_base, uboot_flash_offset, uboot_flash_size, uboot_printf_addr),
        ),
        base <= old(data)@.len(),
    ensures
        ({
            let env = csf_env_bytes(
                uboot_text_base,
                uboot_flash_offset,
                uboot_flash_size,
                uboot_printf_addr,
            );
            &&& !gzip_fits(env, seq![]) ==> r == Err::<(), &str>("buffer too small") && final(data)@
                == old(data)@
            &&& gzip_fits(env, seq![]) ==> r is Ok && final(data)@ == old(data)@.take(base as int)
                + csf_patched(old(data)@.skip(base as int), packed_env(env, seq![], hwid))
            &&& gzip_fits(env, seq![]) ==> packed_env(env, seq![], hwid).len()
                <= ENV_CSF_PROVISION_BLOCK_LEN
        }),
{
    let patched_env = create_env(uboot_text_base, uboot_flash_offset, uboot_flash_size, uboot_printf_addr);
    let env_bytes = patched_env.as_str().as_bytes();
    let ghost env = csf_env_bytes(uboot_text_base, uboot_flash_offset, uboot_flash_size, uboot_printf_addr);
    assert(env_bytes@ == env);
    let empty: [u8; 0] = [];
    assert(empty@ =~= Seq::<u8>::empty());
    let mut packed: Vec<u8> = vec![0u8; ENV_CSF_PROVISION_BLOCK_LEN];
    proof {
        // the environment text is 324 ASCII characters, well inside the 2 KiB room
        lemma_env_bytes_len(uboot_text_base, uboot_flash_offset, uboot_flash_size, uboot_printf_addr);
    }
    let size = match env_pack(env_bytes, &empty, hwid, packed.as_mut_slice()) {
        Ok(n) => n,
        Err(e) => {
            return Err(e);
        },
    };
    let ghost p = packed_env(env, seq![], hwid);
    assert(size <= ENV_CSF_PROVISION_BLOCK_LEN);
    let dlen = data.len();
    assert(base + ENV_CSF_PROVISION_BLOCK_LEN <= dlen);
    let s = ENV_CSF_PROVISION_BLOCK_LEN - size;
    let piece = vstd::slice::slice_subrange(packed.as_slice(), 0, size);
    assert(piece@ =~= p);
    copy_into(data, base + s, piece);
    proof {
        lemma_csf_layout(old(data)@, data@, base as int, p);
    }
    Ok(())
}

proof fn lemma_csf_layout(before: Seq<u8>, after: Seq<u8>, base: int, p: Seq<u8>)
    requires
        0 <= base,
        base + ENV_CSF_PROVISION_BLOCK_LEN <= before.len(),
        p.len() <= ENV_CSF_PROVISION_BLOCK_LEN,
        after.len() == before.len(),
        forall|j: int|
            0 <= j < after.len() ==> #[trigger] after[j] == if base + ENV_CSF_PROVISION_BLOCK_LEN
                - p.len() <= j < base + ENV_CSF_PROVISION_BLOCK_LEN {
                p[j - (base + ENV_CSF_PROVISION_BLOCK_LEN - p.len())]
            } else {
                before[j]
            },
    ensures
        after == before.take(base) + csf_patched(before.skip(base), p),
{
    let t = before.take(base) + csf_patched(before.skip(base), p);
    assert(t.len() == after.len());
    assert forall|j: int| 0 <= j < after.len() implies after[j] == t[j] by {
        let s = ENV_CSF_PROVISION_BLOCK_LEN - p.len();
        if j < base {
        } else if j < base + s {
            assert(t[j] == before.skip(base).take(s)[j - base]);
        } else if j < base + ENV_CSF_PROVISION_BLOCK_LEN {
            assert(t[j] == p[j - base - s]);
        } else {
            assert(t[j] == before.skip(base).skip(ENV_CSF_PROVISION_BLOCK_LEN as int)[j - base
                - ENV_CSF_PROVISION_BLOCK_LEN]);
        }
    }
    assert(after =~= t);
}

proof fn lemma_env_bytes_len(a: u32, b: u32, c: u32, d: u32)
    ensures
        csf_env_bytes(a, b, c, d).len() <= 0x7fc,
{
    lemma_env_text_len(a, b, c, d);
    lemma_encode_utf8_len(env_text(a, b, c, d));
}

/// Places the packed chain-loading environment at the end of the 64 KiB provisioning block
/// `data`.
pub fn patch_csf_env_provision_block(
    data: &mut [u8],
    uboot_text_base: u32,
    uboot_flash_offset: u32,
    uboot_flash_size: u32,
    uboot_printf_addr: u32,
    hwid: Hwid,
) -> (r: Result<(), &'static str>)
    requires
        uboot_printf_addr + 7 <= u32::MAX,
        csf_patch_defined(
            old(data)@.len() as int,
            csf_env_bytes(uboot_text_base, uboot_flash_offset, uboot_flash_size, uboot_printf_addr),
        ),
    ensures
        ({
            let env = csf_env_bytes(
                uboot_text_base,
                uboot_flash_offset,
                uboot_flash_size,
                uboot_printf_addr,
            );
            &&& !gzip_fits(env, seq![]) ==> r == Err::<(), &str>("buffer too small") && final(data)@
                == old(data)@
            &&& gzip_fits(env, seq![]) ==> r is Ok && final(data)@ == csf_patched(
                old(data)@,
                packed_env(env, seq![], hwid),
            )
        }),
{
    let r = patch_csf_at(
        data,
        0,
        uboot_text_base,
        uboot_flash_offset,
        uboot_flash_size,
        uboot_printf_addr,
        hwid,
    );
    assert(old(data)@.skip(0) =~= old(data)@);
    assert(old(data)@.take(0) =~= Seq::<u8>::empty());
    assert(final(data)@ =~= Seq::<u8>::empty() + final(data)@);
    r
}

/// Places the packed environment like `patch_csf_env_provision_block` where that is
/// defined for the inputs; `None` (and `data` unchanged) where it is not.
pub fn patch_csf_env_provision_block_checked(
    data: &mut [u8],
    uboot_text_base: u32,
    uboot_flash_offset: u32,
    uboot_flash_size: u32,
    uboot_printf_addr: u32,
    hwid: Hwid,
) -> (r: Option<Result<(), &'static str>>)
    requires
        uboot_printf_addr + 7 <= u32::MAX,
    ensures
        r is None <==> !csf_patch_defined(
            old(data)@.len() as int,
            csf_env_bytes(uboot_text_base, uboot_flash_offset, uboot_flash_size, uboot_printf_addr),
        ),
        r is None ==> final(data)@ == old(data)@,
        r is Some && !gzip_fits(
            csf_env_bytes(uboot_text_base, uboot_flash_offset, uboot_flash_size, uboot_printf_addr),
            seq![],
        ) ==> r == Some(Err::<(), &str>("buffer too small")) && final(data)@ == old(data)@,
        r is Some && gzip_fits(
            csf_env_bytes(uboot_text_base, uboot_flash_offset, uboot_flash_size, uboot_printf_addr),
            seq![],
        ) ==> (r matches Some(res) && res is Ok) && final(data)@ == csf_patched(
            old(data)@,
            packed_env(
                csf_env_bytes(uboot_text_base, uboot_flash_offset, uboot_flash_size, uboot_printf_addr),
                seq![],
                hwid,
            ),
        ),
{
    let env = create_env(uboot_text_base, uboot_flash_offset, uboot_flash_size, uboot_printf_addr);
    let empty: [u8; 0] = [];
    assert(empty@ =~= Seq::<u8>::empty());
    let eb = env.as_str().as_bytes();
    let (defined, fits) = env_pack_check(eb, &empty);
    proof {
        lemma_env_bytes_len(uboot_text_base, uboot_flash_offset, uboot_flash_size, uboot_printf_addr);
    }
    let ghost envb = csf_env_bytes(uboot_text_base, uboot_flash_offset, uboot_flash_size, uboot_printf_addr);
    assert(eb@ == envb);
    assert(env_inputs_fit(envb, seq![]));
    assert(fits == gzip_fits(envb, seq![]));
    if !defined || (fits && data.len() < ENV_CSF_PROVISION_BLOCK_LEN) {
        return None;
    }
    assert(csf_patch_defined(data@.len() as int, envb));
    Some(
        patch_csf_env_provision_block(
            data,
            uboot_text_base,
            uboot_flash_offset,
            uboot_flash_size,
            uboot_printf_addr,
            hwid,
        ),
    )
}

/// Clears the 64 KiB encrypted-environment block at the start of `data`.
pub fn patch_encrypted_env_block(data: &mut [u8])
    requires
        old(data)@.len() >= ENV_ENCRYPTED_BLOCK_LEN,
    ensures
        final(data)@ == zeros(ENV_ENCRYPTED_BLOCK_LEN as nat) + old(data)@.skip(
            ENV_ENCRYPTED_BLOCK_LEN as int,
        ),
{
    let empty: Vec<u8> = vec![0u8; ENV_ENCRYPTED_BLOCK_LEN];
    copy_into(data, 0, empty.as_slice());
    assert(final(data)@ =~= zeros(ENV_ENCRYPTED_BLOCK_LEN as nat) + old(data)@.skip(
        ENV_ENCRYPTED_BLOCK_LEN as int,
    ));
}

/// The chain-loading environment used for the known bootloader revision.
pub open spec fn wic_env() -> Seq<u8> {
    csf_env_bytes(UBOOT_TEXT_BASE, UBOOT_FLASH_OFFSET, UBOOT_FLASH_SIZE, OLD_UBOOT_PRINTF_ADDR)
}

/// The inputs on which signing finishes without fault.
pub open spec fn sign_wic_defined(wic: Seq<u8>) -> bool {
    &&& wic.len() >= 0x20000
    &&& uboot_crc(wic) == OLD_UBOOT_CRC ==> {
        &&& wic.len() >= ENV_CSF_PROVISION_BLOCK + ENV_CSF_PROVISION_BLOCK_LEN
        &&& env_pack_defined(wic_env(), seq![])
        &&& gzip_fits(wic_env(), seq![]) ==> wic.len() >= ENV_ENCRYPTED_BLOCK
            + ENV_ENCRYPTED_BLOCK_LEN
    }
}

/// The signed image: the provisioning block patched and the encrypted block cleared.
pub open spec fn signed_wic(wic: Seq<u8>, hwid: Hwid) -> Seq<u8> {
    let csf = wic.subrange(ENV_CSF_PROVISION_BLOCK as int, ENV_ENCRYPTED_BLOCK as int);
    wic.take(ENV_CSF_PROVISION_BLOCK as int) + csf_patched(csf, packed_env(wic_env(), seq![], hwid))
        + zeros(ENV_ENCRYPTED_BLOCK_LEN as nat) + wic.skip(
        (ENV_ENCRYPTED_BLOCK + ENV_ENCRYPTED_BLOCK_LEN) as int,
    )
}

/// How a signed image relates to the image it was made from: same length, the first
/// 128 KiB unchanged, the encrypted-environment block cleared, everything after it
/// unchanged.
pub open spec fn signed_layout(before: Seq<u8>, after: Seq<u8>) -> bool {
    &&& after.len() == before.len()
    &&& after.take(ENV_CSF_PROVISION_BLOCK as int) == before.take(ENV_CSF_PROVISION_BLOCK as int)
    &&& after.subrange(ENV_ENCRYPTED_BLOCK as int, (ENV_ENCRYPTED_BLOCK + ENV_ENCRYPTED_BLOCK_LEN) as int)
        == zeros(ENV_ENCRYPTED_BLOCK_LEN as nat)
    &&& after.skip((ENV_ENCRYPTED_BLOCK + ENV_ENCRYPTED_BLOCK_LEN) as int) == before.skip(
        (ENV_ENCRYPTED_BLOCK + ENV_ENCRYPTED_BLOCK_LEN) as int,
    )
}

proof fn lemma_signed_layout(wic: Seq<u8>, hwid: Hwid)
    requires
        wic.len() >= ENV_ENCRYPTED_BLOCK + ENV_ENCRYPTED_BLOCK_LEN,
        packed_env(wic_env(), seq![], hwid).len() <= ENV_CSF_PROVISION_BLOCK_LEN,
    ensures
        signed_layout(wic, signed_wic(wic, hwid)),
{
    let w = signed_wic(wic, hwid);
    let a = ENV_CSF_PROVISION_BLOCK as int;
    let b = ENV_ENCRYPTED_BLOCK as int;
    let e = (ENV_ENCRYPTED_BLOCK + ENV_ENCRYPTED_BLOCK_LEN) as int;
    let csf = wic.subrange(a, b);
    let cp = csf_patched(csf, packed_env(wic_env(), seq![], hwid));
    assert(cp.len() == ENV_CSF_PROVISION_BLOCK_LEN);
    assert(w.take(a) =~= wic.take(a));
    assert(w.subrange(b, e) =~= zeros(ENV_ENCRYPTED_BLOCK_LEN as nat));
    assert(w.skip(e) =~= wic.skip(e));
}

/// Signs a disk image for the device `hwid`: checks that it carries the known bootloader,
/// installs the chain-loading environment encrypted for the device, and clears the
/// previous encrypted environment.
pub fn sign_wic(wic_buf: &mut [u8], hwid: Hwid) -> (r: Result<(), &'static str>)
    requires
        sign_wic_defined(old(wic_buf)@),
    ensures
        uboot_crc(old(wic_buf)@) != OLD_UBOOT_CRC ==> r == Err::<(), &str>(
            "invalid uboot crc (unknown bootloader revision)",
        ) && final(wic_buf)@ == old(wic_buf)@,
        uboot_crc(old(wic_buf)@) == OLD_UBOOT_CRC && !gzip_fits(wic_env(), seq![]) ==> r == Err::<
            (),
            &str,
        >("buffer too small") && final(wic_buf)@ == old(wic_buf)@,
        uboot_crc(old(wic_buf)@) == OLD_UBOOT_CRC && gzip_fits(wic_env(), seq![]) ==> r is Ok
            && final(wic_buf)@ == signed_wic(old(wic_buf)@, hwid),
        r is Ok ==> signed_layout(old(wic_buf)@, final(wic_buf)@),
{
    let crc = calc_uboot_crc(wic_buf);
    if crc != OLD_UBOOT_CRC {
        return Err("invalid uboot crc (unknown bootloader revision)");
    }
    let ghost w0 = wic_buf@;
    let n = wic_buf.len();
    assert(n >= ENV_CSF_PROVISION_BLOCK + ENV_CSF_PROVISION_BLOCK_LEN);
    match patch_csf_at(
        wic_buf,
        ENV_CSF_PROVISION_BLOCK,
        UBOOT_TEXT_BASE,
        UBOOT_FLASH_OFFSET,
        UBOOT_FLASH_SIZE,
        OLD_UBOOT_PRINTF_ADDR,
        hwid,
    ) {
        Ok(()) => {},
        Err(e) => {
            return Err(e);
        },
    }
    let ghost w1 = wic_buf@;
    let empty: Vec<u8> = vec![0u8; ENV_ENCRYPTED_BLOCK_LEN];
    copy_into(wic_buf, ENV_ENCRYPTED_BLOCK, empty.as_slice());
    proof {
        let csf = w0.subrange(ENV_CSF_PROVISION_BLOCK as int, ENV_ENCRYPTED_BLOCK as int);
        let p = packed_env(wic_env(), seq![], hwid);
        let tail = w0.skip(ENV_CSF_PROVISION_BLOCK as int);
        assert(csf_patched(tail, p).take(ENV_CSF_PROVISION_BLOCK_LEN as int) =~= csf_patched(csf, p));
        assert(wic_buf@ =~= signed_wic(w0, hwid));
        lemma_signed_layout(w0, hwid);
    }
    Ok(())
}

/// Signs the image when signing finishes without fault; `None` on the images `sign_wic`
/// does not accept.
pub fn sign_wic_checked(wic_buf: &mut [u8], hwid: Hwid) -> (r: Option<Result<(), &'static str>>)
    ensures
        r is None <==> !sign_wic_defined(old(wic_buf)@),
        r is None ==> final(wic_buf)@ == old(wic_buf)@,
        r matches Some(res) ==> {
            &&& uboot_crc(old(wic_buf)@) != OLD_UBOOT_CRC ==> res == Err::<(), &str>(
                "invalid uboot crc (unknown bootloader revision)",
            ) && final(wic_buf)@ == old(wic_buf)@
            &&& uboot_crc(old(wic_buf)@) == OLD_UBOOT_CRC && !gzip_fits(wic_env(), seq![]) ==> res
                == Err::<(), &str>("buffer too small") && final(wic_buf)@ == old(wic_buf)@
            &&& uboot_crc(old(wic_buf)@) == OLD_UBOOT_CRC && gzip_fits(wic_env(), seq![]) ==> res
                is Ok && final(wic_buf)@ == signed_wic(old(wic_buf)@, hwid)
            &&& res is Ok ==> signed_layout(old(wic_buf)@, final(wic_buf)@)
        },
{
    let n = wic_buf.len();
    if n < 0x20000 {
        return None;
    }
    let crc = calc_uboot_crc(wic_buf);
    if crc == OLD_UBOOT_CRC {
        if n < ENV_CSF_PROVISION_BLOCK + ENV_CSF_PROVISION_BLOCK_LEN {
            return None;
        }
        let env = create_env(UBOOT_TEXT_BASE, UBOOT_FLASH_OFFSET, UBOOT_FLASH_SIZE, OLD_UBOOT_PRINTF_ADDR);
        let empty: [u8; 0] = [];
        assert(empty@ =~= Seq::<u8>::empty());
        let (defined, fits) = env_pack_check(env.as_str().as_bytes(), &empty);
        proof {
            lemma_env_bytes_len(UBOOT_TEXT_BASE, UBOOT_FLASH_OFFSET, UBOOT_FLASH_SIZE, OLD_UBOOT_PRINTF_ADDR);
        }
        if !defined || (fits && n < ENV_ENCRYPTED_BLOCK + ENV_ENCRYPTED_BLOCK_LEN) {
            return None;
        }
    }
    Some(sign_wic(wic_buf, hwid))
}

/// **Law: signing is stable.** Signing an image leaves everything but the two
/// environment blocks as it was, keeps the bootloader's CRC (so the signed image is
/// accepted for signing again), and signing the signed image for the same device gives
/// it back unchanged. Stated where the packed environment fits its 64 KiB block, as it
/// does whenever signing succeeds.
pub proof fn lemma_sign_stable(wic: Seq<u8>, hwid: Hwid)
    requires
        wic.len() >= ENV_ENCRYPTED_BLOCK + ENV_ENCRYPTED_BLOCK_LEN,
        packed_env(wic_env(), seq![], hwid).len() <= ENV_CSF_PROVISION_BLOCK_LEN,
    ensures
        signed_wic(wic, hwid).len() == wic.len(),
        signed_wic(wic, hwid).take(ENV_CSF_PROVISION_BLOCK as int) == wic.take(
            ENV_CSF_PROVISION_BLOCK as int,
        ),
        signed_wic(wic, hwid).skip((ENV_ENCRYPTED_BLOCK + ENV_ENCRYPTED_BLOCK_LEN) as int) == wic.skip(
            (ENV_ENCRYPTED_BLOCK + ENV_ENCRYPTED_BLOCK_LEN) as int,
        ),
        uboot_crc(signed_wic(wic, hwid)) == uboot_crc(wic),
        signed_wic(signed_wic(wic, hwid), hwid) == signed_wic(wic, hwid),
{
    let p = packed_env(wic_env(), seq![], hwid);
    let a = ENV_CSF_PROVISION_BLOCK as int;
    let b = ENV_ENCRYPTED_BLOCK as int;
    let e = (ENV_ENCRYPTED_BLOCK + ENV_ENCRYPTED_BLOCK_LEN) as int;
    let csf = wic.subrange(a, b);
    let patched = csf_patched(csf, p);
    let w1 = signed_wic(wic, hwid);
    assert(csf.len() == ENV_CSF_PROVISION_BLOCK_LEN);
    assert(patched.len() == ENV_CSF_PROVISION_BLOCK_LEN);
    assert(w1 == wic.take(a) + patched + zeros(ENV_ENCRYPTED_BLOCK_LEN as nat) + wic.skip(e));
    assert(w1.len() == wic.len());
    assert(w1.take(a) =~= wic.take(a));
    assert(w1.skip(e) =~= wic.skip(e));
    assert(w1.subrange(0x400, 0x20000) =~= wic.subrange(0x400, 0x20000));
    assert(w1.subrange(a, b) =~= patched);
    let s = ENV_CSF_PROVISION_BLOCK_LEN - p.len();
    assert(csf_patched(patched, p) =~= patched) by {
        assert(patched.take(s) =~= csf.take(s));
        assert(patched.skip(ENV_CSF_PROVISION_BLOCK_LEN as int) =~= Seq::<u8>::empty());
        assert(csf.skip(ENV_CSF_PROVISION_BLOCK_LEN as int) =~= Seq::<u8>::empty());
    }
    let w2 = signed_wic(w1, hwid);
    assert(w2 =~= w1);
}

} // verus!
