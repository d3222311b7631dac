use installer::block::{get_blk_devices, BlkDevice, DevNode, RawBlkDevice, RawGpt, RawGptEntry};
use installer::device::MajMin;

fn raw_disk(name: &str, dev: &str, link: &str, children: Vec<RawBlkDevice>, gpt: Option<RawGpt>) -> RawBlkDevice {
    RawBlkDevice {
        name: String::from(name),
        link_path: String::from(link),
        dev_content: String::from(dev),
        part_index_content: None,
        sector_size: 512,
        gpt,
        children,
    }
}

fn raw_part(name: &str, dev: &str, index: &str) -> RawBlkDevice {
    RawBlkDevice {
        name: String::from(name),
        link_path: String::from("/sys/devices/pci0/ata1/sda/sda1"),
        dev_content: String::from(dev),
        part_index_content: Some(String::from(index)),
        sector_size: 512,
        gpt: None,
        children: Vec::new(),
    }
}

fn node(path: &str, maj: u32, min: u32) -> DevNode {
    DevNode { path: String::from(path), majmin: MajMin::new(maj, min) }
}

fn sda_nodes() -> Vec<DevNode> {
    vec![
        node("/dev/sda", 8, 0),
        node("/dev/sda1", 8, 1),
        node("/dev/sdb", 8, 16),
        node("/dev/loop0", 7, 0),
    ]
}

#[test]
fn enumeration_assembles_a_disk_with_its_partition() {
    let gpt = RawGpt {
        guid: [0xAA; 16],
        entries: vec![RawGptEntry {
            index: 1,
            used: true,
            name: String::from("CONFIG"),
            unique_guid: [0x11; 16],
        }],
    };
    let raws = vec![raw_disk(
        "sda",
        "8:0\n",
        "/sys/devices/pci0/ata1/sda",
        vec![raw_part("sda1", "8:1\n", "1\n")],
        Some(gpt),
    )];
    let devices = get_blk_devices(false, &raws, &sda_nodes());
    assert_eq!(devices.len(), 1);
    let d = &devices[0];
    assert_eq!(d.device_path, "/dev/sda");
    assert_eq!(d.majmin, MajMin::new(8, 0));
    assert_eq!(d.part_index, None);
    assert_eq!(d.uuid, Some([0xAA; 16]));
    assert_eq!(d.sector_size, 512);
    assert!(!d.is_virtual);
    let parts = d.partitions.as_ref().expect("one partition");
    assert_eq!(parts.len(), 1);
    assert_eq!(parts[0].device_path, "/dev/sda1");
    assert_eq!(parts[0].majmin, MajMin::new(8, 1));
    assert_eq!(parts[0].part_index, Some(1));
    assert_eq!(parts[0].label.as_deref(), Some("CONFIG"));
    assert_eq!(parts[0].uuid, Some([0x11; 16]));

    // the label lookup finds the partition the table named
    let found = d.find_part("CONFIG").expect("labelled partition");
    assert_eq!(found.device_path, "/dev/sda1");
    assert!(d.find_part("I do not exist").is_none());
}

#[test]
fn enumeration_never_emits_two_entries_sharing_a_majmin() {
    // the second entry repeats the first one's device number and is
    // dropped whole
    let raws = vec![
        raw_disk("sda", "8:0\n", "/sys/devices/pci0/ata1/sda", vec![], None),
        raw_disk("sdx", "8:0\n", "/sys/devices/pci0/ata2/sdx", vec![], None),
        raw_disk("sdb", "8:16\n", "/sys/devices/pci0/ata3/sdb", vec![], None),
    ];
    let devices = get_blk_devices(false, &raws, &sda_nodes());
    assert_eq!(devices.len(), 2);
    assert_eq!(devices[0].majmin, MajMin::new(8, 0));
    assert_eq!(devices[1].majmin, MajMin::new(8, 16));
    // and no emitted partition stands outside a whole-disk entry
    for d in &devices {
        assert!(d.part_index.is_none());
        if let Some(ps) = &d.partitions {
            for p in ps {
                assert!(p.part_index.is_some());
                assert!(p.partitions.is_none());
                assert_ne!(p.majmin, d.majmin);
            }
        }
    }
}

#[test]
fn enumeration_filters_virtual_disks_at_the_top_level() {
    let raws = vec![
        raw_disk("loop0", "7:0\n", "/sys/devices/virtual/block/loop0", vec![], None),
        raw_disk("sda", "8:0\n", "/sys/devices/pci0/ata1/sda", vec![], None),
    ];
    let without = get_blk_devices(false, &raws, &sda_nodes());
    assert_eq!(without.len(), 1);
    assert_eq!(without[0].device_path, "/dev/sda");
    let with = get_blk_devices(true, &raws, &sda_nodes());
    assert_eq!(with.len(), 2);
    assert!(with[0].is_virtual);
}

#[test]
fn enumeration_drops_a_disk_whose_partition_cannot_be_read() {
    // an unparsable partition index fails the whole disk, and
    // enumeration of the others continues
    let bad = raw_disk(
        "sda",
        "8:0\n",
        "/sys/devices/pci0/ata1/sda",
        vec![raw_part("sda1", "8:1\n", "first\n")],
        None,
    );
    let good = raw_disk("sdb", "8:16\n", "/sys/devices/pci0/ata3/sdb", vec![], None);
    let devices = get_blk_devices(false, &vec![bad, good], &sda_nodes());
    assert_eq!(devices.len(), 1);
    assert_eq!(devices[0].device_path, "/dev/sdb");
}

#[test]
fn enumeration_drops_a_disk_without_a_dev_node() {
    let raws = vec![
        raw_disk("sdq", "65:0\n", "/sys/devices/pci0/ata9/sdq", vec![], None),
        raw_disk("sda", "8:0\n", "/sys/devices/pci0/ata1/sda", vec![], None),
    ];
    let devices = get_blk_devices(false, &raws, &sda_nodes());
    assert_eq!(devices.len(), 1);
    assert_eq!(devices[0].device_path, "/dev/sda");
}

#[test]
fn blank_disk_leaves_labels_unset() {
    // no readable table: the partition keeps no label and no GUID
    let raws = vec![raw_disk(
        "sda",
        "8:0\n",
        "/sys/devices/pci0/ata1/sda",
        vec![raw_part("sda1", "8:1\n", "1\n")],
        None,
    )];
    let devices = get_blk_devices(false, &raws, &sda_nodes());
    assert_eq!(devices.len(), 1);
    assert_eq!(devices[0].uuid, None);
    let parts = devices[0].partitions.as_ref().expect("one partition");
    assert_eq!(parts[0].label, None);
    assert_eq!(parts[0].uuid, None);
}

#[test]
fn duplicate_copies_a_device_deeply() {
    let raws = vec![raw_disk(
        "sda",
        "8:0\n",
        "/sys/devices/pci0/ata1/sda",
        vec![raw_part("sda1", "8:1\n", "1\n")],
        None,
    )];
    let devices = get_blk_devices(false, &raws, &sda_nodes());
    let copy: BlkDevice = devices[0].duplicate();
    assert_eq!(copy.device_path, devices[0].device_path);
    assert_eq!(copy.majmin, devices[0].majmin);
    assert_eq!(
        copy.partitions.as_ref().expect("copied").len(),
        devices[0].partitions.as_ref().expect("original").len()
    );
}
