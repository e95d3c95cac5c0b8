use carlinkit_otalib::hwid::Hwid;
use carlinkit_otalib::signer::env::env_pack;
use carlinkit_otalib::signer::shellcode::create_env;
use carlinkit_otalib::signer::{calc_uboot_crc, patch_encrypted_env_block, sign_wic};

const TEST_HWID: Hwid = Hwid {
    cfg0: 0x6920_116d,
    cfg1: 0x4736_49d7,
    mac0: 0x3878_0e11,
    mac1: 0x66c5_0a99,
};

fn to_hex_string(data: &[u8]) -> String {
    let mut s = String::with_capacity(data.len() * 2);
    for b in data {
        s.push_str(&format!("{:02x}", b));
    }
    s
}

#[test]
fn test_env_pack() {
    let env = b"testenv";
    let dtb = b"testdtb";

    let mut out = [0u8; 0x10000];

    let size = env_pack(env, dtb, TEST_HWID, &mut out).expect("env_pack failed");

    println!("Packed size = {size}");
    println!("Hex dump:\n{}", to_hex_string(&out[..size]));
}

#[test]
fn env_pack_output_is_whole_blocks_and_not_plain() {
    let mut out = [0u8; 0x10000];
    let size = env_pack(b"testenv", b"testdtb", TEST_HWID, &mut out).unwrap();
    assert!(size > 16);
    assert_eq!(size % 16, 0);
    assert!(out[..size].iter().any(|b| *b != 0));
    let mut again = [0u8; 0x10000];
    let size2 = env_pack(b"testenv", b"testdtb", TEST_HWID, &mut again).unwrap();
    assert_eq!(size, size2);
    assert_eq!(&out[..size], &again[..size2]);
}

#[test]
fn env_pack_depends_on_hwid() {
    let other = Hwid { cfg0: 1, cfg1: 2, mac0: 3, mac1: 4 };
    let mut a = [0u8; 0x10000];
    let mut b = [0u8; 0x10000];
    let na = env_pack(b"testenv", b"", TEST_HWID, &mut a).unwrap();
    let nb = env_pack(b"testenv", b"", other, &mut b).unwrap();
    assert_ne!(&a[..na], &b[..nb]);
}

#[test]
fn env_pack_errors() {
    let mut out = [0u8; 0x10000];
    let big_env = vec![b'a'; 0x800];
    assert_eq!(env_pack(&big_env, b"", TEST_HWID, &mut out), Err("env too big"));
    let big_dtb = vec![0u8; 0x10000];
    assert_eq!(env_pack(b"x", &big_dtb, TEST_HWID, &mut out), Err("dtb too big"));
    let mut small = [7u8; 16];
    assert_eq!(env_pack(b"x", b"", TEST_HWID, &mut small), Err("output too small"));
    assert_eq!(small, [7u8; 16]);
}

#[test]
fn shellcode_test() {
    let env = create_env(0x12345678, 0x12341234, 0x11223344, 0x44556688);
    assert_eq!(
        env,
        "bootcmd=run exploit;\0heweiencrypt=run exploit;\0exploit=sf probe 0;sf read 0x12345678 0x12341234 0x11223344;mw.b 0x44556688 0x00;mw.b 0x44556689 0x48;mw.b 0x4455668a 0x00;mw.b 0x4455668b 0x47;mw.b 0x4455668c 0x78;mw.b 0x4455668d 0x56;mw.b 0x4455668e 0x34;mw.b 0x4455668f 0x12;dcache flush;icache flush;printenv jump2;reset;\0\0"
    );
}

#[test]
fn uboot_crc_of_blank_image() {
    let img = vec![0u8; 0x20000];
    assert_eq!(calc_uboot_crc(&img), 0x7ee8cdcd);
    let mut img2 = vec![0u8; 0x20000];
    for b in img2[..0x400].iter_mut() {
        *b = 0xaa;
    }
    assert_eq!(calc_uboot_crc(&img2), 0x7ee8cdcd);
}

#[test]
fn sign_wic_refuses_unknown_bootloader() {
    let mut img = vec![0u8; 0x40000];
    assert_eq!(
        sign_wic(&mut img, TEST_HWID),
        Err("invalid uboot crc (unknown bootloader revision)")
    );
    assert!(img.iter().all(|b| *b == 0));
}

#[test]
fn encrypted_env_block_is_cleared() {
    let mut data = vec![0xffu8; 0x10010];
    patch_encrypted_env_block(&mut data);
    assert!(data[..0x10000].iter().all(|b| *b == 0));
    assert!(data[0x10000..].iter().all(|b| *b == 0xff));
}
