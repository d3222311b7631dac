use installer::device::{BlkTransport, MajMin};
use installer::InstallerError;

#[test]
fn majmin_text_roundtrip() {
    let mm = MajMin::new(8, 2);
    let text = mm.to_text();
    assert_eq!(text, "8:2");
    assert_eq!(MajMin::from_str(&text).expect("round trip"), mm);

    let big = MajMin::new(4294967295, 0);
    let text = big.to_text();
    assert_eq!(text, "4294967295:0");
    assert_eq!(MajMin::from_str(&text).expect("round trip"), big);
}

#[test]
fn majmin_parse_accepts_only_the_exact_pattern() {
    assert_eq!(MajMin::from_str("259:17").expect("valid"), MajMin::new(259, 17));
    assert!(matches!(MajMin::from_str(""), Err(InstallerError::Parse(_))));
    assert!(matches!(MajMin::from_str("8"), Err(InstallerError::Parse(_))));
    assert!(matches!(MajMin::from_str(":2"), Err(InstallerError::Parse(_))));
    assert!(matches!(MajMin::from_str("8:"), Err(InstallerError::Parse(_))));
    assert!(matches!(MajMin::from_str("8:2:3"), Err(InstallerError::Parse(_))));
    assert!(matches!(MajMin::from_str("8a:2"), Err(InstallerError::Parse(_))));
    assert!(matches!(MajMin::from_str(" 8:2"), Err(InstallerError::Parse(_))));
    // a run over 32 bits does not fit
    assert!(matches!(MajMin::from_str("4294967296:0"), Err(InstallerError::Parse(_))));
}

#[test]
fn majmin_parse_error_names_the_offending_string() {
    match MajMin::from_str("not a device") {
        Err(e) => assert!(e.message().contains("not a device")),
        Ok(_) => panic!("malformed text was accepted"),
    }
}

#[test]
fn majmin_sysfs_path() {
    assert_eq!(MajMin::new(8, 2).device_path(), "/sys/dev/block/8:2");
}

#[test]
fn majmin_from_stat_block_special_uses_rdev() {
    // S_IFBLK in the mode word: the path is the device itself
    let mm = MajMin::from_stat(0o060000, 0, (8u64 << 8) | 2);
    assert_eq!(mm, MajMin::new(8, 2));
}

#[test]
fn majmin_from_stat_regular_file_uses_dev() {
    // S_IFDIR: the path is backed by a filesystem on the device
    let mm = MajMin::from_stat(0o040000, (259u64 << 8) | 5, 0);
    assert_eq!(mm, MajMin::new(259, 5));
}

#[test]
fn majmin_from_stat_high_device_numbers() {
    // a major bit beyond the low twelve lives 32 places up, a minor
    // bit beyond the low eight lives 12 places up
    let dev: u64 = (1u64 << 44) | (1u64 << 20) | (8u64 << 8) | 2;
    let mm = MajMin::from_stat(0o060000, 0, dev);
    assert_eq!(mm, MajMin::new(4096 + 8, 256 + 2));
}

#[test]
fn transport_parses_known_names_only() {
    assert_eq!(BlkTransport::from_str("nvme").expect("known"), BlkTransport::Nvme);
    assert_eq!(BlkTransport::from_str("sata").expect("known"), BlkTransport::Sata);
    assert!(matches!(BlkTransport::from_str("scsi"), Err(InstallerError::Parse(_))));
}
