use carlinkit_otalib::boot::{
    boot_target_from_cmdline, cmdline_arg, push_readahead_path, sysctl_path, BootPlatform,
    BootTarget,
};
use carlinkit_otalib::flash::{Flash, FlashChunk, FlashLayout};
use carlinkit_otalib::hwid::{parse_otp_word, read_hwid, Hwid};
use carlinkit_otalib::radio::Radio;
use carlinkit_otalib::sanitizer::sanitize_filename;

#[test]
fn test_sanitize_filename() {
    assert_eq!(sanitize_filename::<1024>("../rootfs.squashfs"), "rootfs.squashfs");
    assert_eq!(sanitize_filename::<1024>("rootfs.squashfs"), "rootfs.squashfs");
}

#[test]
fn sanitize_drops_separators_and_dotdot() {
    assert_eq!(sanitize_filename::<1024>("a/b\\c"), "abc");
    assert_eq!(sanitize_filename::<1024>("/../.."), "unnamed");
    assert_eq!(sanitize_filename::<1024>("./."), "..");
    assert_eq!(sanitize_filename::<4>("abcdef"), "abcd");
    assert_eq!(sanitize_filename::<3>(""), "");
    assert_eq!(sanitize_filename::<1024>(""), "unnamed");
}

#[test]
fn hwid_text_roundtrip() {
    let h = Hwid { cfg0: 0x6920_116d, cfg1: 0x4736_49d7, mac0: 0x3878_0e11, mac1: 0x66c5_0a99 };
    let s = h.to_hex_string();
    assert_eq!(s, "6920116d-473649d7-38780e11-66c50a99");
    assert_eq!(Hwid::try_from(&s), Ok(h));
    assert_eq!(Hwid::try_from("0000000a-0000000B-0000000c-0000000d"), Ok(Hwid { cfg0: 10, cfg1: 11, mac0: 12, mac1: 13 }));
    assert_eq!(Hwid::try_from("short"), Err("hwid should be exactly 35 chars"));
    assert_eq!(
        Hwid::try_from("zz20116d-473649d7-38780e11-66c50a99"),
        Err("failed to decode hwid string")
    );
}

#[test]
fn hwid_from_fuse_dump() {
    let mut dump = vec![0u8; 0x24 * 4];
    dump[4..8].copy_from_slice(&0x6920_116du32.to_le_bytes());
    dump[8..12].copy_from_slice(&0x4736_49d7u32.to_le_bytes());
    dump[0x22 * 4..0x23 * 4].copy_from_slice(&0x3878_0e11u32.to_le_bytes());
    dump[0x23 * 4..0x24 * 4].copy_from_slice(&0x66c5_0a99u32.to_le_bytes());
    assert_eq!(
        read_hwid(&dump),
        Ok(Hwid { cfg0: 0x6920_116d, cfg1: 0x4736_49d7, mac0: 0x3878_0e11, mac1: 0x66c5_0a99 })
    );
    assert_eq!(read_hwid(&[]), Err("failed to read fd"));
}

#[test]
fn otp_word_text() {
    assert_eq!(parse_otp_word(b"0x6920116d\n"), Ok(0x6920_116d));
    assert_eq!(parse_otp_word(b"  ff "), Ok(0xff));
    assert_eq!(parse_otp_word(b""), Err("failed to read fd to check hwid"));
    assert_eq!(parse_otp_word(b"\xff\xfe"), Err("failed to convert hex data"));
    assert_eq!(parse_otp_word(b"0xnothex"), Err("failed to parse hex data"));
}

#[test]
fn radio_by_device_id() {
    assert_eq!(Radio::from_device_id("0xb822\n"), Radio::RTL8822BS);
    assert_eq!(Radio::from_device_id("0x0082"), Radio::AIC8800D80);
    assert_eq!(Radio::from_device_id("0x1234"), Radio::Unknown);
    assert!(Radio::from_device_id(" 0x9159 ").valid());
    assert!(!Radio::Unknown.valid());
    assert!(!Radio::Offline.valid());
    assert_eq!(Radio::SD8997.as_str(), "SD8997");
    assert_eq!(Radio::Offline.as_str(), "offline");
}

#[test]
fn boot_choices() {
    assert_eq!(BootPlatform::detect(true), BootPlatform::Ingenic);
    assert_eq!(BootPlatform::detect(false), BootPlatform::Imx);
    assert_eq!(boot_target_from_cmdline("console=ttyS0 c2a_boot=recovery quiet"), BootTarget::Recovery);
    assert_eq!(boot_target_from_cmdline("console=ttyS0 c2a_boot=normal"), BootTarget::CatPlay);
    assert_eq!(boot_target_from_cmdline(""), BootTarget::CatPlay);
    assert_eq!(cmdline_arg("a=1 b=2\n", "b", 64), Some("2".to_string()));
    assert_eq!(cmdline_arg("a=1 b=2", "c", 64), None);
    assert_eq!(cmdline_arg("a=12345", "a", 3), None);
}

#[test]
fn sysctl_and_readahead() {
    assert_eq!(sysctl_path("net.ipv4.ip_forward").unwrap(), "/proc/sys/net/ipv4/ip_forward");
    assert_eq!(sysctl_path(&"k".repeat(200)), Err("sysctl path too long"));
    let mut list: Vec<String> = Vec::new();
    assert_eq!(push_readahead_path(&mut list, "/usr/bin/catplay"), Ok(()));
    assert_eq!(list, vec!["/usr/bin/catplay".to_string()]);
    let long = "p".repeat(5000);
    assert_eq!(push_readahead_path(&mut list, &long), Err("path too long"));
    assert_eq!(list.len(), 1);
}

const MB16: usize = 16_777_216;

#[test]
fn flash_layouts() {
    assert_eq!(Flash::layout([MB16, 0, 0, 0], false), FlashLayout::Modern);
    assert_eq!(Flash::layout([0x40000, 0x10000, MB16 - 0x50000, 0], false), FlashLayout::Legacy);
    assert_eq!(
        Flash::layout([0x40000, 0x10000, MB16 - 0x60000, 0x10000], true),
        FlashLayout::LegacyUltraNor
    );
    assert_eq!(Flash::layout([134_217_728, 0, 0, 0], true), FlashLayout::LegacyUltraNand);
    assert_eq!(Flash::layout([1, 2, 3, 0], false), FlashLayout::Unknown);
    let f = Flash::new([1, 2, 3, 0], false);
    assert!(!f.valid());
    assert_eq!(f.size(true, FlashLayout::LegacyUltraNand), 134_217_728);
    assert_eq!(f.size(false, FlashLayout::LegacyUltraNand), MB16);
}

#[test]
fn flash_transfers_split_over_partitions() {
    let f = Flash::new([0x40000, 0x10000, MB16 - 0x50000, 0], false);
    let sizes = [Some(0x40000), Some(0x10000), Some(MB16 - 0x50000), Some(0)];
    let plan = f.write(0x3ff00, 0x20000, FlashLayout::Legacy, sizes).unwrap();
    assert_eq!(
        plan,
        vec![
            FlashChunk { partition: 0, part_size: 0x40000, offset: 0x3ff00, start: 0, len: 0x100 },
            FlashChunk { partition: 1, part_size: 0x10000, offset: 0, start: 0x100, len: 0x10000 },
            FlashChunk { partition: 2, part_size: MB16 - 0x50000, offset: 0, start: 0x10100, len: 0xff00 },
        ]
    );
    let whole = f.read(0, 8, FlashLayout::Modern, sizes).unwrap();
    assert_eq!(whole, vec![FlashChunk { partition: 0, part_size: MB16, offset: 0, start: 0, len: 8 }]);
}

#[test]
fn flash_errors() {
    let f = Flash::new([MB16, 0, 0, 0], false);
    let sizes = [Some(MB16), None, None, None];
    assert_eq!(f.write(MB16, 1, FlashLayout::Modern, sizes), Err("write exceeds flash size"));
    assert_eq!(f.read(MB16 - 1, 2, FlashLayout::Modern, sizes), Err("read exceeds flash size"));
    assert_eq!(f.write(0, 1, FlashLayout::Legacy, sizes), Err("legacy partition is offline"));
    assert_eq!(f.write(0, 1, FlashLayout::LegacyUltraNand, sizes), Err("flashing ultra NAND not supported yet"));
    assert_eq!(f.write(0, 1, FlashLayout::Unknown, sizes), Err("unknown flash layout"));
    let small = [Some(1), Some(1), Some(1), Some(1)];
    assert_eq!(f.read(0, 5, FlashLayout::Legacy, small), Err("read exceeds flash size #2"));
    assert_eq!(f.backup(10, FlashLayout::Modern, sizes), Err("invalid buffer size for backup"));
    assert_eq!(f.flash_nosign(&[0u8; 4], FlashLayout::Modern, sizes), Err("invalid file size for flashing"));
    assert_eq!(f.flash_fitimage(FlashLayout::Legacy), Err("flash layout too old to use fitImage flash"));
    assert_eq!(
        f.softbrick(FlashLayout::Modern, sizes),
        Ok(vec![FlashChunk { partition: 0, part_size: MB16, offset: 0, start: 0, len: 131072 }])
    );
}

#[test]
fn flash_autosign_paths() {
    let f = Flash::new([MB16, 0, 0, 0], false);
    let sizes = [Some(MB16), None, None, None];
    let mut small = vec![0u8; 8];
    assert_eq!(
        f.flash_autosign(&mut small, false, Err("no hwid"), FlashLayout::Modern, sizes),
        Some(Err("no hwid"))
    );
    assert_eq!(
        f.flash_autosign(&mut small, true, Err("no hwid"), FlashLayout::Modern, sizes),
        Some(Err("invalid file size for flashing"))
    );
    let h = Hwid { cfg0: 1, cfg1: 2, mac0: 3, mac1: 4 };
    let mut img = vec![0u8; MB16];
    assert_eq!(
        f.flash_sign(&mut img, h, FlashLayout::Modern, sizes),
        Some(Err("invalid uboot crc (unknown bootloader revision)"))
    );
}

use carlinkit_otalib::boot::{ultra_readahead, ultra_readahead_module_names, Boot};
use carlinkit_otalib::flash::partition_bytes;
use carlinkit_otalib::radio::{RadioWait, RadioWaitAction, RadioWaitEvent, RadioWaitMode};

#[test]
fn partition_size_text() {
    assert_eq!(partition_bytes(b"32768\n"), Some(16_777_216));
    assert_eq!(partition_bytes(b" 0 "), Some(0));
    assert_eq!(partition_bytes(b"abc"), None);
    assert_eq!(partition_bytes(b"\xff"), None);
}

#[test]
fn uevent_wait_finds_radio() {
    let (w, a) = RadioWait::start(RadioWaitMode::Uevent, 1000, 500);
    assert_eq!(a, RadioWaitAction::ReadClock);
    assert_eq!(w.deadline_ms, 1500);
    let (w, a) = w.step(RadioWaitEvent::Clock(1100));
    assert_eq!(a, RadioWaitAction::Poll(400));
    let (w, a) = w.step(RadioWaitEvent::Polled { ret: -1, interrupted: true });
    assert_eq!(a, RadioWaitAction::ReadClock);
    let (w, a) = w.step(RadioWaitEvent::Clock(1200));
    assert_eq!(a, RadioWaitAction::Poll(300));
    let (w, a) = w.step(RadioWaitEvent::Polled { ret: 1, interrupted: false });
    assert_eq!(a, RadioWaitAction::Receive);
    let (w, a) = w.step(RadioWaitEvent::Received { ret: 120, interrupted: false });
    assert_eq!(a, RadioWaitAction::Detect);
    let (w, a) = w.step(RadioWaitEvent::Detected(Radio::Offline));
    assert_eq!(a, RadioWaitAction::Receive);
    let (w, a) = w.step(RadioWaitEvent::Received { ret: 80, interrupted: false });
    assert_eq!(a, RadioWaitAction::Detect);
    let (w, a) = w.step(RadioWaitEvent::Detected(Radio::IW416));
    assert_eq!(a, RadioWaitAction::Done(Radio::IW416));
    let (_, a) = w.step(RadioWaitEvent::Slept);
    assert_eq!(a, RadioWaitAction::Done(Radio::IW416));
}

#[test]
fn waits_time_out() {
    let (w, _) = RadioWait::start(RadioWaitMode::Uevent, 10, 5);
    let (_, a) = w.step(RadioWaitEvent::Clock(15));
    assert_eq!(a, RadioWaitAction::Done(Radio::Offline));
    let (w, _) = RadioWait::start(RadioWaitMode::Uevent, 10, 5);
    let (w, _) = w.step(RadioWaitEvent::Clock(11));
    let (_, a) = w.step(RadioWaitEvent::Polled { ret: 0, interrupted: false });
    assert_eq!(a, RadioWaitAction::Done(Radio::Offline));
    let (w, _) = RadioWait::start(RadioWaitMode::Poll, 0, 50);
    let (w, a) = w.step(RadioWaitEvent::Clock(40));
    assert_eq!(a, RadioWaitAction::Detect);
    let (w, a) = w.step(RadioWaitEvent::Detected(Radio::Offline));
    assert_eq!(a, RadioWaitAction::Sleep(10));
    let (w, a) = w.step(RadioWaitEvent::Slept);
    assert_eq!(a, RadioWaitAction::ReadClock);
    let (_, a) = w.step(RadioWaitEvent::Clock(50));
    assert_eq!(a, RadioWaitAction::Done(Radio::Offline));
    let (w, _) = RadioWait::start(RadioWaitMode::Poll, u64::MAX - 1, 10);
    assert_eq!(w.deadline_ms, u64::MAX);
    let (_, a) = w.step(RadioWaitEvent::Detected(Radio::SD8997));
    assert_eq!(a, RadioWaitAction::ReadClock);
}

#[test]
fn boot_params_of_each_platform() {
    let imx: Boot = BootPlatform::boot_params_imx("console=ttymxc0 c2a_boot=recovery");
    assert_eq!(imx.target, BootTarget::Recovery);
    assert_eq!(imx.main_udc, "ci_hdrc.1");
    assert_eq!(imx.extra_udc, Some("ci_hdrc.0"));
    assert_eq!(imx.persist_mtd, "/dev/mtdblock6");
    assert_eq!(imx.sysctls.len(), 10);
    assert_eq!(imx.sysctls[0], ("net.ipv4.tcp_rmem", "4096 262144 16777216"));
    assert!(imx.readahead.is_empty());
    assert_eq!(ultra_readahead_module_names(), vec!["aic8800_bsp", "aic8800_fdrv"]);
    let mods = vec![
        vec!["/lib/modules/a.ko".to_string(), "/lib/modules/b.ko".to_string()],
        vec!["/lib/modules/c.ko".to_string()],
    ];
    let ultra = BootPlatform::Ingenic.params("", &mods);
    assert_eq!(ultra.platform, BootPlatform::Ingenic);
    assert_eq!(ultra.target, BootTarget::CatPlay);
    assert_eq!(ultra.readahead.len(), 12);
    assert_eq!(ultra.readahead[0], "/lib/modules/a.ko");
    assert_eq!(ultra.readahead[2], "/lib/modules/c.ko");
    assert_eq!(ultra.readahead[11], "/usr/sbin/hostapd");
    assert_eq!(ultra.p2p_whitelist, vec![Radio::AIC8800D80]);
    assert!(ultra.p2p_without_hostapd);
    assert_eq!(ultra.sysctls.len(), 13);
}

#[test]
fn readahead_keeps_to_its_room() {
    let long = "x".repeat(600);
    let many: Vec<String> = (0..30).map(|i| format!("/m/{i}.ko")).collect();
    let mods = vec![vec![long, "/ok.ko".to_string()], many];
    let list = ultra_readahead(&mods);
    assert_eq!(list.len(), 24);
    assert_eq!(list[0], "/m/0.ko");
    assert_eq!(list[23], "/m/23.ko");
    assert!(list.iter().all(|p| p.len() <= 512));
}

use carlinkit_otalib::args::args_from_bytes;
use carlinkit_otalib::modprobe::release_dir;

#[test]
fn program_arguments() {
    let long = vec![b'x'; 40];
    let raw: Vec<&[u8]> = vec![b"prog", b"\xff\xfe", &long, b"-v", b"extra"];
    let args = args_from_bytes(&raw, 3, 32);
    assert_eq!(args, vec!["prog".to_string(), String::new(), "-v".to_string()]);
    assert!(args_from_bytes(&[], 4, 4).is_empty());
}

#[test]
fn modules_directory_of_a_release() {
    assert_eq!(release_dir("/lib/modules/", "5.10.72").unwrap(), "/lib/modules/5.10.72");
    assert!(release_dir("/usr/lib/modules/", &"r".repeat(300)).is_err());
}
