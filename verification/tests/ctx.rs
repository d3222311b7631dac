use installer::actions::{self, find_grub_efi_app, generate_grub_config, InstallAction};
use installer::block::BlkDevice;
use installer::ctx::{find_by_path, InstallerCtx, CONF_PART_SIZE, EFI_PART_SIZE, ROOTFS_PART_SIZE};
use installer::device::{BlkTransport, MajMin};
use installer::steps::{detect_run_mode, App, DiskSelection, InstallerStep, RunMode};
use installer::InstallerError;

fn disk(path: &str, maj: u32, min: u32, parts: Vec<BlkDevice>) -> BlkDevice {
    BlkDevice {
        transport: BlkTransport::Sata,
        device_path: String::from(path),
        is_virtual: false,
        majmin: MajMin::new(maj, min),
        partitions: if parts.is_empty() { None } else { Some(parts) },
        part_index: None,
        sector_size: 512,
        label: None,
        uuid: None,
    }
}

fn part(path: &str, maj: u32, min: u32, index: u32, label: Option<&str>) -> BlkDevice {
    BlkDevice {
        transport: BlkTransport::Sata,
        device_path: String::from(path),
        is_virtual: false,
        majmin: MajMin::new(maj, min),
        partitions: None,
        part_index: Some(index),
        sector_size: 512,
        label: label.map(String::from),
        uuid: None,
    }
}

fn three_disks() -> Vec<BlkDevice> {
    vec![
        disk("/dev/sda", 8, 0, vec![part("/dev/sda1", 8, 1, 1, None), part("/dev/sda2", 8, 2, 2, None)]),
        disk("/dev/sdb", 8, 16, vec![]),
        disk("/dev/sdc", 8, 32, vec![]),
    ]
}

fn ctx_with_boot() -> InstallerCtx {
    let mut ctx = InstallerCtx::build("").expect("empty command line parses");
    ctx.detect_boot_device(MajMin::new(8, 2), three_disks()).expect("sda holds the boot partition");
    ctx
}

#[test]
fn boot_detection_returns_the_disk_not_the_partition() {
    let ctx = ctx_with_boot();
    let boot = ctx.boot_device.as_ref().expect("detected");
    assert_eq!(boot.device_path, "/dev/sda");
    assert!(boot.part_index.is_none());
}

#[test]
fn boot_detection_fails_without_a_match_or_with_two() {
    let mut ctx = InstallerCtx::build("").expect("parses");
    let res = ctx.detect_boot_device(MajMin::new(9, 9), three_disks());
    assert!(matches!(res, Err(InstallerError::NotFound(_))));

    // two disks claiming the same partition identity is ambiguous
    let twins = vec![
        disk("/dev/sda", 8, 0, vec![part("/dev/sda1", 8, 2, 1, None)]),
        disk("/dev/sdb", 8, 16, vec![part("/dev/sdb1", 8, 2, 1, None)]),
    ];
    let res = ctx.detect_boot_device(MajMin::new(8, 2), twins);
    assert!(matches!(res, Err(InstallerError::NotFound(_))));
}

#[test]
fn target_selection_with_filter_yields_exactly_the_named_disk() {
    let mut ctx = ctx_with_boot();
    ctx.config.eve_install_disk = Some(String::from("/dev/sdb"));
    let targets = ctx.get_target_disks();
    assert_eq!(targets.len(), 1);
    assert_eq!(targets[0].device_path, "/dev/sdb");
}

#[test]
fn target_selection_without_filter_yields_all_but_the_boot_disk() {
    let ctx = ctx_with_boot();
    let targets = ctx.get_target_disks();
    assert_eq!(targets.len(), 2);
    assert_eq!(targets[0].device_path, "/dev/sdb");
    assert_eq!(targets[1].device_path, "/dev/sdc");
}

#[test]
fn install_disk_is_the_first_candidate() {
    let ctx = ctx_with_boot();
    let install = ctx.select_install_disk().expect("candidates exist");
    assert_eq!(install.device_path, "/dev/sdb");

    let mut narrowed = ctx;
    narrowed.config.eve_install_disk = Some(String::from("/dev/sdq"));
    assert!(matches!(narrowed.select_install_disk(), Err(InstallerError::NotFound(_))));
}

#[test]
fn persist_selection_respects_the_allow_list() {
    let mut ctx = ctx_with_boot();
    let all = ctx.get_persist_disks();
    assert_eq!(all.len(), 2);
    ctx.config.eve_persist_disk = Some(vec![String::from("/dev/sdc")]);
    let allowed = ctx.get_persist_disks();
    assert_eq!(allowed.len(), 1);
    assert_eq!(allowed[0].device_path, "/dev/sdc");
}

#[test]
fn persist_disks_never_include_the_install_target() {
    let ctx = ctx_with_boot();
    let install = ctx.select_install_disk().expect("candidates exist");
    assert_eq!(install.device_path, "/dev/sdb");
    let persist = ctx.select_persist_disks(&install);
    assert_eq!(persist.len(), 1);
    assert_eq!(persist[0].device_path, "/dev/sdc");
}

#[test]
fn command_lines_match_the_external_tools() {
    assert_eq!(actions::dd("/parts/rootfs.img", "/dev/sdb2"), "dd if=/parts/rootfs.img of=/dev/sdb2 bs=1M");
    assert_eq!(actions::mkfs_vfat("/dev/sdb4", "EVE"), "mkfs.vfat -n EVE /dev/sdb4");
    assert_eq!(actions::mkfs_ext4("/dev/sdb9"), "mkfs -t ext4 -v -F -F -O encrypt /dev/sdb9");
    assert_eq!(actions::mount("/dev/sdb4", "/config"), "mount /dev/sdb4 /config");
    assert_eq!(
        actions::mount_vfat("/dev/sdb4", "/config"),
        "mount -t vfat -o iocharset=iso8859-1 /dev/sdb4 /config"
    );
    assert_eq!(
        actions::mount_ext4("/dev/sdb9", "/persist"),
        "mount -t ext4 -o dirsync,noatime /dev/sdb9 /persist"
    );
    assert_eq!(actions::umount("/dev/sdb4"), "umount /dev/sdb4");
}

#[test]
fn bootloader_lookup_matches_the_pattern() {
    let names = vec![
        String::from("readme.txt"),
        String::from("BOOTX64.EFI"),
        String::from("BOOTIA32.EFI"),
    ];
    assert_eq!(find_grub_efi_app(&names).expect("present"), "/EFI/BOOT/BOOTX64.EFI");
    let cfg = generate_grub_config("chainloader @PATH_TO_GRUB@\nboot @PATH_TO_GRUB@", &names)
        .expect("present");
    assert_eq!(cfg, "chainloader EFI/BOOT/BOOTX64.EFI\nboot EFI/BOOT/BOOTX64.EFI");
    let none = vec![String::from("BOOT"), String::from("grub.EFI")];
    assert!(matches!(find_grub_efi_app(&none), Err(InstallerError::NotFound(_))));
}

#[test]
fn planned_table_lays_out_the_fixed_roles() {
    let mut ctx = ctx_with_boot();
    // the install disk is the sole persist target, so it gets P3
    ctx.config.eve_persist_disk = Some(vec![String::from("/dev/sdb")]);
    let sdb = disk("/dev/sdb", 8, 16, vec![]);
    let table = ctx.create_partition_table(&sdb, 4 * 1024 * 1024 * 1024).expect("plans");
    assert_eq!(table.entries.len(), 5);
    let names: Vec<&str> = table.entries.iter().map(|e| e.partition_name.as_str()).collect();
    assert_eq!(names, vec!["EFI System", "IMGA", "IMGB", "CONFIG", "P3"]);
    let indices: Vec<u32> = table.entries.iter().map(|e| e.index).collect();
    assert_eq!(indices, vec![1, 2, 3, 4, 9]);
    assert_eq!(table.entries[0].attribute_bits, 1 << 2);
    assert_eq!(table.entries[1].attribute_bits, (1 << 49) | (1 << 56));
    assert_eq!(table.entries[2].attribute_bits, 0);
    // the sizes follow the fixed role sizes, aligned up
    let len_of = |i: usize| table.entries[i].ending_lba - table.entries[i].starting_lba - 1;
    assert_eq!(len_of(0), (EFI_PART_SIZE / 512 + 2047) / 2048 * 2048);
    assert_eq!(len_of(1), (ROOTFS_PART_SIZE / 512 + 2047) / 2048 * 2048);
    assert_eq!(len_of(3), (CONF_PART_SIZE / 512 + 2047) / 2048 * 2048);
    // no two planned slots overlap: each ends before the next begins
    for i in 1..table.entries.len() {
        assert!(table.entries[i - 1].ending_lba < table.entries[i].starting_lba);
    }
}

#[test]
fn persist_elsewhere_or_unconfigured_omits_the_p3_slot() {
    // another disk configured as the persist target: no P3 here
    let mut ctx = ctx_with_boot();
    ctx.config.eve_persist_disk = Some(vec![String::from("/dev/sdc")]);
    let sdb = disk("/dev/sdb", 8, 16, vec![]);
    let table = ctx.create_partition_table(&sdb, 4 * 1024 * 1024 * 1024).expect("plans");
    assert_eq!(table.entries.len(), 4);

    // no explicit disk configured: persistent storage lives on the
    // other disks, and P3 is omitted here too
    let ctx2 = ctx_with_boot();
    assert!(ctx2.config.eve_persist_disk.is_none());
    let table2 = ctx2.create_partition_table(&sdb, 4 * 1024 * 1024 * 1024).expect("plans");
    assert_eq!(table2.entries.len(), 4);
    assert!(table2.entries.iter().all(|e| e.partition_name != "P3"));

    // named as the sole persist target, the install disk gets P3
    let mut ctx3 = ctx_with_boot();
    ctx3.config.eve_persist_disk = Some(vec![String::from("/dev/sdb")]);
    let table3 = ctx3.create_partition_table(&sdb, 4 * 1024 * 1024 * 1024).expect("plans");
    assert_eq!(table3.entries.len(), 5);
}

#[test]
fn partitioning_a_partition_is_a_state_error() {
    let ctx = ctx_with_boot();
    let p = part("/dev/sdb1", 8, 17, 1, None);
    let res = ctx.create_partition_table(&p, 4 * 1024 * 1024 * 1024);
    assert!(matches!(res, Err(InstallerError::State(_))));
}

#[test]
fn stale_handles_are_not_reused_after_a_table_write() {
    let ctx = ctx_with_boot();
    // the handle held before the write: a blank disk, no labels
    let stale = disk("/dev/sdb", 8, 16, vec![]);
    // what re-enumeration observes afterwards: the fresh partitions
    let fresh_inventory = vec![
        disk("/dev/sda", 8, 0, vec![part("/dev/sda2", 8, 2, 2, None)]),
        disk(
            "/dev/sdb",
            8,
            16,
            vec![
                part("/dev/sdb1", 8, 17, 1, Some("EFI System")),
                part("/dev/sdb2", 8, 18, 2, Some("IMGA")),
                part("/dev/sdb3", 8, 19, 3, Some("IMGB")),
                part("/dev/sdb4", 8, 20, 4, Some("CONFIG")),
                part("/dev/sdb9", 8, 21, 9, Some("P3")),
            ],
        ),
    ];
    let fresh = find_by_path(&fresh_inventory, "/dev/sdb").expect("relocated after the write");
    // the relocated handle reflects the newly created partitions
    let ps = fresh.partitions.as_ref().expect("fresh partitions");
    assert_eq!(ps.len(), 5);
    assert_eq!(fresh.find_part("IMGA").expect("labelled").device_path, "/dev/sdb2");

    // provisioning must use the fresh handle; the stale one no longer
    // locates anything and fails
    let boot = disk("/dev/sda", 8, 0, vec![part("/dev/sda4", 8, 4, 4, Some("CONFIG"))]);
    let names = vec![String::from("BOOTX64.EFI")];
    let fresh_plan = ctx.populate_partitions(&fresh, &boot, "/tmp/src", "/tmp/dst", "/tmp/efi", "root @PATH_TO_GRUB@", &names);
    assert!(fresh_plan.is_ok());
    let stale_plan = ctx.populate_partitions(&stale, &boot, "/tmp/src", "/tmp/dst", "/tmp/efi", "root @PATH_TO_GRUB@", &names);
    assert!(matches!(stale_plan, Err(InstallerError::NotFound(_))));
}

#[test]
fn relocation_failure_is_fatal() {
    let inventory = vec![disk("/dev/sda", 8, 0, vec![])];
    let res = find_by_path(&inventory, "/dev/sdb");
    assert!(matches!(res, Err(InstallerError::NotFound(_))));
}

#[test]
fn populate_plan_actions_in_order() {
    let ctx = ctx_with_boot();
    let install = disk(
        "/dev/sdb",
        8,
        16,
        vec![
            part("/dev/sdb1", 8, 17, 1, Some("EFI System")),
            part("/dev/sdb2", 8, 18, 2, Some("IMGA")),
            part("/dev/sdb4", 8, 20, 4, Some("CONFIG")),
            part("/dev/sdb9", 8, 21, 9, Some("P3")),
        ],
    );
    let boot = disk("/dev/sda", 8, 0, vec![part("/dev/sda4", 8, 4, 4, Some("CONFIG"))]);
    let names = vec![String::from("README"), String::from("BOOTX64.EFI")];
    let actions = ctx
        .populate_partitions(&install, &boot, "/tmp/src", "/tmp/dst", "/tmp/efi", "set root=@PATH_TO_GRUB@", &names)
        .expect("all labels present");
    let rendered: Vec<String> = actions
        .iter()
        .map(|a| match a {
            InstallAction::RunCommand(c) => format!("run {}", c),
            InstallAction::CopyTree(f, t) => format!("copy {} {}", f, t),
            InstallAction::WriteFile(p, c) => format!("write {} {}", p, c),
            InstallAction::MakeDirAll(p) => format!("mkdir {}", p),
        })
        .collect();
    assert_eq!(
        rendered,
        vec![
            String::from("run mkfs.vfat -n EVE /dev/sdb4"),
            String::from("run mount -t vfat -o iocharset=iso8859-1 /dev/sdb4 /tmp/dst"),
            String::from("run mount -t vfat -o iocharset=iso8859-1 /dev/sda4 /tmp/src"),
            String::from("copy /tmp/src /tmp/dst"),
            String::from("run umount /dev/sdb4"),
            String::from("run umount /dev/sda4"),
            String::from("run mkfs.vfat -n EVE /dev/sdb1"),
            String::from("run mount -t vfat -o iocharset=iso8859-1 /dev/sdb1 /tmp/efi"),
            String::from("mkdir /tmp/efi/EFI/BOOT"),
            String::from("copy /hostfs/media/boot/EFI/BOOT/ /tmp/efi/EFI/BOOT"),
            String::from("write /tmp/efi/EFI/BOOT/grub.cfg set root=EFI/BOOT/BOOTX64.EFI"),
            String::from("run umount /dev/sdb1"),
            String::from("run dd if=/hostfs/media/boot/rootfs.img of=/dev/sdb2 bs=1M"),
            String::from("run mkfs -t ext4 -v -F -F -O encrypt /dev/sdb9"),
            String::from("run tune2fs -O encrypt /dev/sdb9"),
            String::from("run mount -t ext4 -o dirsync,noatime /dev/sdb9 /persist"),
            String::from("write /run/eve.persist_type ext4"),
            String::from("run mount -t vfat -o iocharset=iso8859-1 /dev/sdb4 /config"),
        ]
    );
}

#[test]
fn populate_with_server_override_writes_the_server_field() {
    let mut ctx = ctx_with_boot();
    ctx.config.eve_install_server = Some(String::from("http://server"));
    let actions = ctx.populate_config("/dev/sda4", "/dev/sdb4", "/tmp/src", "/tmp/dst");
    let has_server_write = actions.iter().any(|a| match a {
        InstallAction::WriteFile(p, c) => p == "/tmp/dst/server" && c == "http://server",
        _ => false,
    });
    assert!(has_server_write);
    assert_eq!(actions.len(), 7);
}

#[test]
fn populate_persist_commands() {
    let ctx = ctx_with_boot();
    let actions = ctx.populate_persist_ext4("/dev/sdb9");
    assert_eq!(actions.len(), 3);
    match &actions[1] {
        InstallAction::RunCommand(c) => assert_eq!(c, "tune2fs -O encrypt /dev/sdb9"),
        _ => panic!("expected a command"),
    }
}

#[test]
fn run_mode_follows_medium_and_staged_configuration() {
    assert_eq!(detect_run_mode(false, &None), RunMode::Recovery);
    assert_eq!(detect_run_mode(false, &Some(String::from("{}"))), RunMode::Recovery);
    assert_eq!(detect_run_mode(true, &Some(String::from("{}"))), RunMode::UnattendedInstaller);
    assert_eq!(detect_run_mode(true, &None), RunMode::InteractiveInstaller);
}

#[test]
fn workflow_steps_run_in_order_and_stay_done() {
    let mut app = App::new();
    assert!(matches!(app.current_step, InstallerStep::Start));
    let configured = Some(String::from("/dev/sdb"));
    app.next_step(&configured);
    assert!(matches!(app.current_step, InstallerStep::SelectInstallDisk(None)));
    app.next_step(&configured);
    assert!(matches!(app.current_step, InstallerStep::SelectPersistDisk));
    // leaving install-disk selection recorded the configured choice
    match &app.steps[1] {
        InstallerStep::SelectInstallDisk(Some(p)) => assert_eq!(p, "/dev/sdb"),
        other => panic!("unexpected recorded step: {:?}", other),
    }
    app.next_step(&configured);
    assert!(matches!(app.current_step, InstallerStep::Install));
    app.next_step(&configured);
    assert!(matches!(app.current_step, InstallerStep::Done));
    app.next_step(&configured);
    assert!(matches!(app.current_step, InstallerStep::Done));
    assert_eq!(app.steps.len(), 5);
}

#[test]
fn disk_selection_wraps_both_ways() {
    let mut sel = DiskSelection::new();
    assert_eq!(sel.selected, None);
    sel.next(3);
    assert_eq!(sel.selected, Some(0));
    sel.next(3);
    assert_eq!(sel.selected, Some(1));
    sel.next(3);
    assert_eq!(sel.selected, Some(2));
    sel.next(3);
    assert_eq!(sel.selected, Some(0));
    sel.previous(3);
    assert_eq!(sel.selected, Some(2));
    let mut sel2 = DiskSelection::new();
    sel2.previous(3);
    assert_eq!(sel2.selected, Some(0));
}

#[test]
fn failures_name_what_was_missing() {
    let ctx = ctx_with_boot();
    // no partitions at all: the first missing label is named
    let blank_install = disk("/dev/sdb", 8, 16, vec![]);
    let boot = disk("/dev/sda", 8, 0, vec![part("/dev/sda4", 8, 4, 4, Some("CONFIG"))]);
    let names = vec![String::from("BOOTX64.EFI")];
    match ctx.populate_partitions(&blank_install, &boot, "/tmp/s", "/tmp/d", "/tmp/e", "x", &names) {
        Err(InstallerError::NotFound(m)) => assert!(m.contains("IMGA")),
        other => panic!("expected a not-found error, got {:?}", other),
    }
    // no bootloader on the boot medium: the bootloader is named
    let install = disk(
        "/dev/sdb",
        8,
        16,
        vec![
            part("/dev/sdb1", 8, 17, 1, Some("EFI System")),
            part("/dev/sdb2", 8, 18, 2, Some("IMGA")),
            part("/dev/sdb4", 8, 20, 4, Some("CONFIG")),
        ],
    );
    let no_names: Vec<String> = Vec::new();
    match ctx.populate_partitions(&install, &boot, "/tmp/s", "/tmp/d", "/tmp/e", "x", &no_names) {
        Err(InstallerError::NotFound(m)) => assert!(m.contains("bootloader")),
        other => panic!("expected a not-found error, got {:?}", other),
    }
    // partitioning a partition names its device node
    let p = part("/dev/sdb1", 8, 17, 1, None);
    match ctx.create_partition_table(&p, 4 * 1024 * 1024 * 1024) {
        Err(InstallerError::State(m)) => assert!(m.contains("/dev/sdb1")),
        other => panic!("expected a state error, got {:?}", other),
    }
}

#[test]
fn p3_takes_the_entire_remaining_free_space() {
    let mut ctx = ctx_with_boot();
    ctx.config.eve_persist_disk = Some(vec![String::from("/dev/sdb")]);
    let sdb = disk("/dev/sdb", 8, 16, vec![]);
    let table = ctx.create_partition_table(&sdb, 4 * 1024 * 1024 * 1024).expect("plans");
    let p3 = &table.entries[4];
    let len = p3.ending_lba - p3.starting_lba - 1;
    // aligned, and running to the end of the usable span: less than
    // one alignment unit is left beyond it
    assert_eq!(len % table.align, 0);
    assert!(p3.starting_lba + len > table.last_usable - table.align);
}

#[test]
fn error_messages_carry_through() {
    let e = InstallerError::Io(String::from("read failed"));
    assert_eq!(e.message(), "read failed");
    let e = InstallerError::ExternalCommand(String::from("mount exited 32"));
    assert_eq!(e.message(), "mount exited 32");
}
