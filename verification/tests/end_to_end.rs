use sfdisk_sort::disk::{parse_sfdisk_full_disk, Disk};
use sfdisk_sort::linux::block::LinuxBlockDevice;

const UGLY: &str = "label: gpt
label-id: 12345678-F226-1234-5678-E55555555555
device: /dev/nvme0n1
unit: sectors
first-lba: 2048
last-lba: 60088286
sector-size: 512

/dev/nvme0n1p1 : start=    41945088, size=    18143199, type=0FC63DAF-8483-4772-8E79-3D69D8477DE4, uuid=AAAAAAAA-BBBB-CCCC-DDDD-000000000003
/dev/nvme0n1p2 : start=        2048, size=      409600, type=C12A7328-F81F-11D2-BA4B-00A0C93EC93B, uuid=AAAAAAAA-BBBB-CCCC-DDDD-000000000001, name=\"EFI system\"
/dev/nvme0n1p5 : start=      411648, size=    41533440, type=0657FD6D-A4AB-43C4-84E5-0933C84B4F4F, uuid=AAAAAAAA-BBBB-CCCC-DDDD-000000000002
";

const PRETTY: &str = "label: gpt
label-id: 12345678-F226-1234-5678-E55555555555
device: /dev/nvme0n1
unit: sectors
first-lba: 2048
last-lba: 60088286
sector-size: 512

/dev/nvme0n1p1 : start= 2048, size= 409600, type=C12A7328-F81F-11D2-BA4B-00A0C93EC93B, uuid=AAAAAAAA-BBBB-CCCC-DDDD-000000000001, name=\"EFI system\"
/dev/nvme0n1p2 : start= 411648, size= 41533440, type=0657FD6D-A4AB-43C4-84E5-0933C84B4F4F, uuid=AAAAAAAA-BBBB-CCCC-DDDD-000000000002
/dev/nvme0n1p3 : start= 41945088, size= 18143199, type=0FC63DAF-8483-4772-8E79-3D69D8477DE4, uuid=AAAAAAAA-BBBB-CCCC-DDDD-000000000003
";

fn read(text: &str) -> Disk {
    parse_sfdisk_full_disk(String::from(text)).unwrap()
}

#[test]
fn unsorted_dump_becomes_the_sorted_dump() {
    let mut ugly_disk = read(UGLY);
    let pretty_disk = read(PRETTY);

    ugly_disk.rearrange().expect("failed to rearrange");

    assert_eq!(ugly_disk, pretty_disk);
    assert_eq!(ugly_disk.to_text(), PRETTY);
}

#[test]
fn written_dump_reads_back() {
    for text in [UGLY, PRETTY, "device: /dev/sda\n", "x\ndevice: /dev/vdb\n/dev/vdb1 : start= 1,\n"] {
        let disk = read(text);
        assert_eq!(read(&disk.to_text()), disk);
    }
    let mut rearranged = read(UGLY);
    rearranged.rearrange().unwrap();
    assert_eq!(read(&rearranged.to_text()), rearranged);
}

#[test]
fn header_lines_come_first_and_unchanged() {
    let text = "label: dos\n/dev/sdb2 : start= 900, size= 1, type=83\ndevice: /dev/sdb\nunit: sectors\n/dev/sdb1 : start= 100, size= 800, type=83, bootable\n";
    let mut disk = read(text);
    assert_eq!(disk.linux_block_device, LinuxBlockDevice::SCSI);
    assert_eq!(disk.header_lines, vec!["label: dos", "device: /dev/sdb", "unit: sectors"]);
    disk.rearrange().unwrap();
    assert_eq!(
        disk.to_text(),
        "label: dos\ndevice: /dev/sdb\nunit: sectors\n\
/dev/sdb1 : start= 100, size= 800, type=83, bootable\n\
/dev/sdb2 : start= 900, size= 1, type=83\n"
    );
}

#[test]
fn carriage_return_before_line_feed_is_dropped() {
    let disk = read("label: gpt\r\ndevice: /dev/sda\r\n/dev/sda1 : start= 2048, size= 4\r\n");
    assert_eq!(disk.name, "/dev/sda");
    assert_eq!(disk.header_lines, vec!["label: gpt", "device: /dev/sda"]);
    assert_eq!(disk.partitions.len(), 1);
    assert_eq!(disk.to_text(), "label: gpt\ndevice: /dev/sda\n/dev/sda1 : start= 2048, size= 4\n");
}

#[test]
fn mmc_and_virtio_dumps_are_renumbered_by_their_naming() {
    let mut mmc = read(
        "device: /dev/mmcblk0\n/dev/mmcblk0p12 : start= 9, size= 1\n/dev/mmcblk0p3 : start= 5, size= 1\n",
    );
    assert_eq!(mmc.linux_block_device, LinuxBlockDevice::MMCBLK);
    mmc.rearrange().unwrap();
    assert_eq!(
        mmc.to_text(),
        "device: /dev/mmcblk0\n/dev/mmcblk0p1 : start= 5, size= 1\n/dev/mmcblk0p2 : start= 9, size= 1\n"
    );
    let mut virt =
        read("device: /dev/vdc\n/dev/vdc7 : start= 9, size= 1\n/dev/vdc3 : start= 5, size= 1\n");
    assert_eq!(virt.linux_block_device, LinuxBlockDevice::VIRT);
    virt.rearrange().unwrap();
    assert_eq!(
        virt.to_text(),
        "device: /dev/vdc\n/dev/vdc1 : start= 5, size= 1\n/dev/vdc2 : start= 9, size= 1\n"
    );
}

#[test]
fn long_table_is_renumbered() {
    let mut text = String::from("label: gpt\ndevice: /dev/sdb\nunit: sectors\n\n");
    let count = 40usize;
    for i in 0..count {
        // Written from the last start block to the first.
        let start = 2048 + (count - 1 - i) * 4096;
        text.push_str(&format!(
            "/dev/sdb{} : start= {:>12}, size= {:>12}, type=0FC63DAF-8483-4772-8E79-3D69D8477DE4\n",
            i + 1,
            start,
            4096
        ));
    }
    let mut disk = read(&text);
    assert_eq!(disk.partitions.len(), count);
    assert_eq!(disk.partitions[9].designation, 10);
    disk.rearrange().unwrap();
    for (i, part) in disk.partitions.iter().enumerate() {
        assert_eq!(part.designation, i + 1);
        assert_eq!(part.name, format!("/dev/sdb{}", i + 1));
        assert_eq!(part.start_block, 2048 + i * 4096);
        assert_eq!(part.extras.len(), 3);
    }
    assert_eq!(read(&disk.to_text()), disk);
}
