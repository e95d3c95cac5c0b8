use carlinkit_otalib::ota::{OtaExtractor, OtaImageGlobals, OtaImageSection};
use carlinkit_otalib::ota_packer::OtaPacker;

#[test]
fn test_pack_unpack() {
    let mut packer = OtaPacker::new();
    packer.add("kernel", "xImage", b"kernel_data");
    packer.add("rootfs", "rootfs.squashfs", b"rootfs_data");

    let mut buf = vec![0u8; packer.output_size()];
    packer.pack(&mut buf);

    let header = packer.build_header();
    println!("Header: {header:?}");

    let mut parser = OtaExtractor::new(&buf);
    parser.parse().unwrap();

    assert_eq!(
        parser.sections().iter().flatten().collect::<Vec<_>>(),
        [
            Some(OtaImageSection {
                ty: "kernel".to_string(),
                name: "xImage".to_string(),
                size: 11,
                md5: "c6dc2c4d1c885494678b955b3a7f85af".to_string(),
                crc: 3879308967,
                offset: 131072,
                crc_fail: false,
                md5_fail: false,
                data: b"kernel_data"
            }),
            Some(OtaImageSection {
                ty: "rootfs".to_string(),
                name: "rootfs.squashfs".to_string(),
                size: 11,
                md5: "d26bae11c792c92e1fc15546498a16de".to_string(),
                crc: 3497329009,
                offset: 131083,
                crc_fail: false,
                md5_fail: false,
                data: b"rootfs_data"
            }),
        ]
        .iter()
        .flatten()
        .collect::<Vec<_>>()
    );

    assert_eq!(
        parser.globals(),
        &OtaImageGlobals {
            bs_size: 131072,
            packet_md5: Some("6ca0659796a7f68d823bea038418f329".to_string()),
            packet_md5_fail: false
        }
    );
}

#[test]
fn packed_image_size_and_layout() {
    let mut packer = OtaPacker::new();
    assert_eq!(packer.output_size(), 131072);
    packer.add("kernel", "xImage", b"abc");
    packer.add("rootfs", "r", b"de");
    assert_eq!(packer.output_size(), 131077);
    let mut buf = vec![0xeeu8; packer.output_size()];
    packer.pack(&mut buf);
    assert_eq!(&buf[131072..], b"abcde");
    let header = packer.build_header();
    assert!(header.starts_with("ota_version=0\n\n"));
    assert!(header.contains("xImage"));
    assert_eq!(&buf[..header.len()], header.as_bytes());
}

#[test]
fn extractor_rejects_image_without_sections() {
    let buf = vec![0u8; 131072];
    let mut parser = OtaExtractor::new(&buf);
    assert_eq!(parser.parse(), Err("file has 0 OTA sections"));
    assert!(parser.sections().iter().all(|s| s.is_none()));
}

#[test]
fn extractor_reports_corrupted_section() {
    let mut packer = OtaPacker::new();
    packer.add("kernel", "xImage", b"kernel_data");
    let mut buf = vec![0u8; packer.output_size()];
    packer.pack(&mut buf);
    let last = buf.len() - 1;
    buf[last] ^= 0x01;
    let mut parser = OtaExtractor::new(&buf);
    assert_eq!(parser.parse(), Err("failed section crc check"));
    let secs: Vec<_> = parser.sections().iter().flatten().collect();
    assert_eq!(secs.len(), 1);
    assert!(secs[0].crc_fail);
    assert!(secs[0].md5_fail);
    assert_eq!(secs[0].data(&buf), &buf[131072..]);
}
