use sfdisk_sort::disk::Disk;
use sfdisk_sort::linux::block::{linux_blk_name, LinuxBlockDevice};
use sfdisk_sort::partition::order::sort_by_start_block;
use sfdisk_sort::partition::parse::is_sfdisk_partition_line;
use sfdisk_sort::partition::Partition;
use std::collections::HashMap;

fn new_from_start_block(start_block: usize, blk: LinuxBlockDevice) -> Partition {
    let part_name = match blk {
        LinuxBlockDevice::NVME => String::from("/dev/nvme0n1p69"),
        LinuxBlockDevice::SCSI => String::from("/dev/sda69"),
        LinuxBlockDevice::VIRT => String::from("/dev/vda69"),
        LinuxBlockDevice::MMCBLK => String::from("/dev/mmcblk69"),
    };
    Partition { designation: 69, start_block, name: part_name, extras: Vec::new() }
}

fn new_disk_without_parts(disk_name: &str) -> Result<(Disk, LinuxBlockDevice), String> {
    if let Some(correct_linux_device) = linux_blk_name(disk_name) {
        let mut this_disk = Disk::default();
        this_disk.name = String::from(disk_name);
        this_disk.linux_block_device = correct_linux_device;
        return Ok((this_disk, correct_linux_device));
    }

    Err(String::from(
        "disk name does match known Linux block device name (e.g. sdX, vdX, or nvmeXnY)",
    ))
}

// Test if the written line is indeed parsable.
#[test]
fn test_display() {
    let part = Partition {
        designation: 1,
        name: String::from("/dev/sda1"),
        start_block: 69,
        extras: vec![
            String::from("size="),
            String::from("60086239,"),
            String::from("type=0FC63DAF-8483-4772-8E79-3D69D8477DE4,"),
            String::from("uuid=AAAAAAAA-BBBB-CCCC-DDDD-EEEEEEEEEEEE,"),
            String::from("it"),
            String::from("ain't"),
            String::from("me"),
            String::from("babe"),
        ],
    };

    assert!(is_sfdisk_partition_line(&part.to_text()));
}

// Test if Vec<Partition> can actually be sorted by start_block
// and that we can actually sort them for a disk
#[test]
fn test_sort_by_start_block() {
    let p2048 = new_from_start_block(2048, LinuxBlockDevice::SCSI);
    let p2022 = new_from_start_block(2022, LinuxBlockDevice::SCSI);
    let p1969 = new_from_start_block(1969, LinuxBlockDevice::SCSI);
    let p2069 = new_from_start_block(2069, LinuxBlockDevice::SCSI);

    let mut expecteds = HashMap::new();
    expecteds.insert(0, p1969.clone());
    expecteds.insert(1, p2022.clone());
    expecteds.insert(2, p2048.clone());
    expecteds.insert(3, p2069.clone());

    let (mut sda, _linux_blk) = new_disk_without_parts("/dev/sda").unwrap();

    sda.partitions = vec![p2048, p2069, p2022, p1969];
    sort_by_start_block(&mut sda.partitions);

    for (i, sorted) in sda.partitions.iter().enumerate() {
        let expected = expecteds.get(&i).unwrap();
        assert_eq!(sorted, expected);
    }
}

#[test]
fn test_rename_part() {
    let mut m1 = Partition {
        name: String::from("/dev/mmcblk11p2"),
        designation: 2,
        start_block: 2048,
        extras: vec![String::from("")],
    };

    match m1.redesignate(LinuxBlockDevice::MMCBLK, 1) {
        Err(err) => {
            panic!("error redesignating partition: {}", err.message())
        }
        _ => {}
    }

    assert_eq!(m1.name, "/dev/mmcblk11p1");
    assert_eq!(m1.designation, 1);

    let mut n1 = Partition {
        name: String::from("/dev/nvme0n75p2"),
        designation: 2,
        start_block: 2048,
        extras: vec![String::from("")],
    };

    match n1.redesignate(LinuxBlockDevice::NVME, 1) {
        Err(err) => {
            panic!("error redesignating partition: {}", err.message())
        }
        _ => {}
    }

    assert_eq!(n1.name, "/dev/nvme0n75p1");
    assert_eq!(n1.designation, 1);
}

#[test]
fn written_line_has_the_dump_format() {
    let part = Partition {
        designation: 3,
        name: String::from("/dev/nvme0n1p3"),
        start_block: 411648,
        extras: vec![
            String::from("size="),
            String::from("409600,"),
            String::from("type=C12A7328-F81F-11D2-BA4B-00A0C93EC93B"),
        ],
    };
    assert_eq!(
        part.to_text(),
        "/dev/nvme0n1p3 : start= 411648, size= 409600, type=C12A7328-F81F-11D2-BA4B-00A0C93EC93B"
    );
    let bare = Partition { designation: 1, name: String::from("/dev/sda1"), start_block: 0, extras: vec![] };
    assert_eq!(bare.to_text(), "/dev/sda1 : start= 0, ");
}

#[test]
fn default_partition_is_empty() {
    let p = Partition::default();
    assert_eq!(p.designation, 0);
    assert_eq!(p.start_block, 0);
    assert_eq!(p.name, "");
    assert!(p.extras.is_empty());
}

#[test]
fn redesignate_keeps_start_block_and_extras() {
    let mut p = Partition {
        name: String::from("/dev/sda12"),
        designation: 12,
        start_block: 4096,
        extras: vec![String::from("size="), String::from("1,")],
    };
    assert!(p.redesignate(LinuxBlockDevice::SCSI, 3).is_ok());
    assert_eq!(
        p,
        Partition {
            name: String::from("/dev/sda3"),
            designation: 3,
            start_block: 4096,
            extras: vec![String::from("size="), String::from("1,")],
        }
    );
    // Large numbers are written out in full.
    assert!(p.redesignate(LinuxBlockDevice::SCSI, 1048576).is_ok());
    assert_eq!(p.name, "/dev/sda1048576");
    assert_eq!(p.designation, 1048576);
}

#[test]
fn redesignate_fails_on_a_name_of_another_family() {
    let before = Partition {
        name: String::from("/dev/sda2"),
        designation: 2,
        start_block: 2048,
        extras: vec![String::from("size=")],
    };
    let mut p = before.clone();
    let err = p.redesignate(LinuxBlockDevice::NVME, 1).unwrap_err();
    assert_eq!(err.message(), "text does not match regex");
    assert_eq!(p, before);
}

#[test]
fn sort_keeps_equal_starts_in_order() {
    let mk = |name: &str, start: usize| Partition {
        designation: 0,
        start_block: start,
        name: String::from(name),
        extras: Vec::new(),
    };
    let mut v = vec![mk("a", 5), mk("b", 3), mk("c", 5), mk("d", 3), mk("e", 1), mk("f", 5)];
    sort_by_start_block(&mut v);
    let names: Vec<&str> = v.iter().map(|p| p.name.as_str()).collect();
    assert_eq!(names, vec!["e", "b", "d", "a", "c", "f"]);
    let starts: Vec<usize> = v.iter().map(|p| p.start_block).collect();
    assert_eq!(starts, vec![1, 3, 3, 5, 5, 5]);

    let mut empty: Vec<Partition> = Vec::new();
    sort_by_start_block(&mut empty);
    assert!(empty.is_empty());

    let mut one = vec![mk("x", 9)];
    sort_by_start_block(&mut one);
    assert_eq!(one, vec![mk("x", 9)]);
}

#[test]
fn sort_of_sorted_changes_nothing() {
    let mk = |name: &str, start: usize| Partition {
        designation: 0,
        start_block: start,
        name: String::from(name),
        extras: Vec::new(),
    };
    let mut v = vec![mk("a", 1), mk("b", 1), mk("c", 2), mk("d", 7)];
    let before = v.clone();
    sort_by_start_block(&mut v);
    assert_eq!(v, before);
}
