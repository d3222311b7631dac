use installer::block::BlkDevice;
use installer::device::{BlkTransport, MajMin};
use installer::plan::{efi_system_guid_bytes, GptTable};
use installer::InstallerError;

fn blank_table() -> GptTable {
    // a 4 GiB disk with 512-byte sectors
    GptTable::new_blank(512, 4 * 1024 * 1024 * 1024)
}

fn bare_disk(path: &str, maj: u32, min: u32) -> BlkDevice {
    BlkDevice {
        transport: BlkTransport::Sata,
        device_path: String::from(path),
        is_virtual: false,
        majmin: MajMin::new(maj, min),
        partitions: None,
        part_index: None,
        sector_size: 512,
        label: None,
        uuid: None,
    }
}

#[test]
fn blank_table_geometry() {
    let t = blank_table();
    // 16384 bytes of partition array, 32 sectors at 512 bytes each
    assert_eq!(t.first_usable, 34);
    assert_eq!(t.last_usable, 4 * 1024 * 1024 * 1024 / 512 - 32 - 2);
    assert_eq!(t.align, 2048);
    assert_eq!(t.entries.len(), 0);
}

#[test]
fn thirty_six_mib_takes_73728_sectors_then_aligns() {
    // 37,748,736 bytes at 512-byte sectors: exactly 73,728 sectors,
    // already a multiple of the 2048-sector alignment unit
    let mut t = blank_table();
    t.create_partition(1, "EFI System", 37_748_736, efi_system_guid_bytes(), 0)
        .expect("fits on a blank table");
    let e = &t.entries[0];
    assert_eq!(e.starting_lba, 2048);
    assert_eq!(e.ending_lba - e.starting_lba - 1, 73_728);
    assert_eq!(e.ending_lba, 2048 + 73_728 + 1);
}

#[test]
fn odd_sizes_round_up_to_the_alignment_unit() {
    // a single byte still takes one aligned slot of 2048 sectors
    let mut t = blank_table();
    t.create_partition(1, "tiny", 1, [0; 16], 0).expect("fits");
    let e = &t.entries[0];
    assert_eq!(e.ending_lba - e.starting_lba - 1, 2048);
}

#[test]
fn sequential_slots_of_equal_size_never_overlap() {
    let mut t = blank_table();
    t.create_partition(1, "first", 37_748_736, [1; 16], 0).expect("fits");
    t.create_partition(2, "second", 37_748_736, [2; 16], 0).expect("fits");
    let first = &t.entries[0];
    let second = &t.entries[1];
    assert!(second.starting_lba >= first.ending_lba);
}

#[test]
fn first_fit_skips_the_reserved_front_of_the_disk() {
    let t = blank_table();
    assert_eq!(t.find_first_place(100), Some(2048));
}

#[test]
fn no_gap_large_enough_is_a_not_found_error() {
    let mut t = blank_table();
    let whole = t.get_maximum_partition_size().expect("an empty table has space");
    t.create_partition_sectors(1, "all", whole, [1; 16], 0).expect("fits");
    let res = t.create_partition(2, "more", 37_748_736, [2; 16], 0);
    assert!(matches!(res, Err(InstallerError::NotFound(_))));
}

#[test]
fn maximum_size_is_the_whole_usable_span_when_empty() {
    let t = blank_table();
    let max = t.get_maximum_partition_size().expect("space left");
    assert_eq!(max % t.align, 0);
    assert!(t.find_first_place(max).is_some());
    assert!(t.find_first_place(max + t.align).is_none());
}

#[test]
fn only_whole_disks_may_be_partitioned() {
    let mut part = bare_disk("/dev/sda1", 8, 1);
    part.part_index = Some(1);
    let res = part.new_gpt(4 * 1024 * 1024 * 1024);
    assert!(matches!(res, Err(InstallerError::State(_))));
    assert!(bare_disk("/dev/sda", 8, 0).new_gpt(4 * 1024 * 1024 * 1024).is_ok());
}
