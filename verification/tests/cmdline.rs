use installer::cmdline::{InstallerConfig, KernelCmdline};

fn parsed(line: &str) -> KernelCmdline {
    KernelCmdline::new().parse(line).expect("parsing never fails")
}

#[test]
fn cmdline_keys_and_values() {
    let c = parsed("console=ttyS0 eve_blackbox eve_install_disk=/dev/sdb");
    assert!(c.get_bool("eve_blackbox"));
    assert!(c.get_bool("console"));
    assert!(!c.get_bool("eve_nuke_all_disks"));
    assert_eq!(c.get_str("eve_install_disk").as_deref(), Some("/dev/sdb"));
    assert_eq!(c.get_str("eve_blackbox"), None);
    assert_eq!(c.get_str("missing"), None);
}

#[test]
fn cmdline_last_occurrence_wins() {
    let c = parsed("k=1 k=2");
    assert_eq!(c.get_str("k").as_deref(), Some("2"));
}

#[test]
fn cmdline_value_keeps_later_equals_signs() {
    let c = parsed("opts=a=b");
    assert_eq!(c.get_str("opts").as_deref(), Some("a=b"));
}

#[test]
fn config_resolves_flags_strings_and_lists() {
    let c = parsed(
        "eve_install_disk=/dev/sdb eve_persist_disk=/dev/sda,/dev/sdc \
         eve_install_server=http://server eve_pause_before_install",
    );
    let cfg = InstallerConfig::from_cmdline(&c);
    assert_eq!(cfg.eve_install_disk.as_deref(), Some("/dev/sdb"));
    assert_eq!(cfg.eve_install_server.as_deref(), Some("http://server"));
    assert!(cfg.eve_pause_before_install);
    assert!(!cfg.eve_pause_after_install);
    let persist = cfg.eve_persist_disk.expect("listed");
    assert_eq!(persist, vec![String::from("/dev/sda"), String::from("/dev/sdc")]);
    // more than one disk means ZFS persistence
    assert!(cfg.persist_fs_zfs);
}

#[test]
fn single_persist_disk_is_not_zfs() {
    let cfg = InstallerConfig::from_cmdline(&parsed("eve_persist_disk=/dev/sdb"));
    assert_eq!(cfg.eve_persist_disk, Some(vec![String::from("/dev/sdb")]));
    assert!(!cfg.persist_fs_zfs);
    // one disk and a trailing comma still selects ZFS
    let cfg = InstallerConfig::from_cmdline(&parsed("eve_persist_disk=/dev/sdb,"));
    assert!(cfg.persist_fs_zfs);
}

#[test]
fn default_config_is_empty() {
    let cfg = InstallerConfig::default();
    assert!(cfg.eve_install_disk.is_none());
    assert!(cfg.eve_persist_disk.is_none());
    assert!(!cfg.eve_nuke_all_disks);
    assert!(!cfg.persist_fs_zfs);
}
