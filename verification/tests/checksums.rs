use carlinkit_otalib::crc::{cksum_crc32, make_cksum_table, xor_crc_img};
use carlinkit_otalib::md5::{md5_calc, parse_md5_hex};
use carlinkit_otalib::signer::env::{crc32, crc32x2};

#[test]
fn test_cksum_equiv() {
    let data = b"123456789";
    let crc = cksum_crc32(data);
    assert_eq!(crc, 0xC8859FEE);
}

#[test]
fn test_xor_blocks() {
    let data = [0u8; 260];
    let crc = xor_crc_img(&data, 128);
    assert_ne!(crc, 0);
}

#[test]
fn cksum_of_empty_input_is_zero() {
    assert_eq!(cksum_crc32(b""), 0);
}

#[test]
fn cksum_of_one_byte() {
    assert_eq!(cksum_crc32(b"a"), 3074262529);
}

#[test]
fn cksum_table_entries() {
    let t = make_cksum_table();
    assert_eq!(t[0], 0);
    assert_eq!(t[1], 79764919);
    assert_eq!(t[255], 2985771188);
}

#[test]
fn xor_of_blocks_exact_values() {
    assert_eq!(xor_crc_img(&[0u8; 260], 128), 319059676);
    assert_eq!(xor_crc_img(b"abcdef", 2), 542283697);
}

#[test]
fn xor_with_one_block_is_plain_cksum() {
    let data = b"123456789";
    assert_eq!(xor_crc_img(data, 131072), cksum_crc32(data));
    assert_eq!(xor_crc_img(b"", 16), 0);
}

#[test]
fn crc32_check_value() {
    assert_eq!(crc32(b"123456789"), 0xCBF43926);
    assert_eq!(crc32x2(b"1234", b"56789"), 0xCBF43926);
}

#[test]
fn md5_known_digests() {
    assert_eq!(
        md5_calc(b"abc"),
        parse_md5_hex("900150983cd24fb0d6963f7d28e17f72").unwrap()
    );
    assert_eq!(
        md5_calc(b""),
        parse_md5_hex("d41d8cd98f00b204e9800998ecf8427e").unwrap()
    );
}

#[test]
fn md5_hex_parsing() {
    let v = parse_md5_hex("000102030405060708090A0B0c0d0e0F").unwrap();
    assert_eq!(v, [0, 1, 2, 3, 4, 5, 6, 7, 8, 9, 10, 11, 12, 13, 14, 15]);
    assert_eq!(parse_md5_hex("00"), None);
    assert_eq!(parse_md5_hex("zz0102030405060708090a0b0c0d0e0f"), None);
}
