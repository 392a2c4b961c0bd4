use sfdisk_sort::error::ErrorKind;
use sfdisk_sort::linux::block;
use sfdisk_sort::partition::parse::{
    is_sfdisk_partition_line, parse_sfdisk_partition_line, partition_from_groups,
    SFDISK_PARTITION_LINE_PATTERN,
};
use sfdisk_sort::partition::Partition;
use std::collections::HashMap;

#[test]
fn test_regex() {
    let keys = vec!["full_path", "part_num", "start_block"];
    let s = "/dev/nvme0n1p1 : start=        2048, size=      409600, type=C12A7328-F81F-11D2-BA4B-00A0C93EC93B, uuid=AAAAAAAA-BBBB-CCCC-DDDD-EEEEEEEEEEEE";
    let re = regex::Regex::new(SFDISK_PARTITION_LINE_PATTERN).unwrap();
    let caps = re.captures(s);
    assert!(caps.is_some());

    let caps = caps.unwrap();
    for key in keys.iter() {
        assert!(caps.name(key).is_some());
    }
}

#[test]
fn parse_test_parse() {
    let m: HashMap<(&str, &str, block::LinuxBlockDevice), Partition> = HashMap::from([
        (
            (
                "/dev/sda",
                "/dev/sda1 : start=  2048, size= 60086239, type=0FC63DAF-8483-4772-8E79-3D69D8477DE4, uuid=AAAAAAAA-BBBB-CCCC-DDDD-EEEEEEEEEEEE,    it ain't me    babe",
                block::LinuxBlockDevice::SCSI,
            ),
                Partition {
                    designation: 1,
                    start_block: 2048,
                    name: String::from("/dev/sda1"),
                    extras: vec![
                        String::from("size="),
                        String::from("60086239,"),
                        String::from("type=0FC63DAF-8483-4772-8E79-3D69D8477DE4,"),
                        String::from("uuid=AAAAAAAA-BBBB-CCCC-DDDD-EEEEEEEEEEEE,"),
                        String::from("it"),
                        String::from("ain't"),
                        String::from("me"),
                        String::from("babe"),
                    ],
            },
        ),
        (
            (
                "/dev/nvme0n1",
                "/dev/nvme0n1p1 : start=  2048, size= 60086239, type=0FC63DAF-8483-4772-8E79-3D69D8477DE4, uuid=AAAAAAAA-BBBB-CCCC-DDDD-EEEEEEEEEEEE,    it ain't me    babe",
                block::LinuxBlockDevice::NVME,
            ),
                Partition {
                    designation: 1,
                    start_block: 2048,
                    name: String::from("/dev/nvme0n1p1"),
                    extras: vec![
                        String::from("size="),
                        String::from("60086239,"),
                        String::from("type=0FC63DAF-8483-4772-8E79-3D69D8477DE4,"),
                        String::from("uuid=AAAAAAAA-BBBB-CCCC-DDDD-EEEEEEEEEEEE,"),
                        String::from("it"),
                        String::from("ain't"),
                        String::from("me"),
                        String::from("babe"),
                    ],
            },
        ),
    ]);

    for (test_tuple, expected_part) in m
        .iter()
        .collect::<Vec<(&(&str, &str, block::LinuxBlockDevice), &Partition)>>()
    {
        let part_line = test_tuple.1;
        assert!(is_sfdisk_partition_line(part_line));
        let parsed = match parse_sfdisk_partition_line(part_line) {
            Ok(part) => part,
            Err(err) => {
                println!("error parsing: {}", err.message());
                Partition::default()
            }
        };

        if parsed != *expected_part {
            assert_eq!(expected_part.designation, parsed.designation);
            assert_eq!(expected_part.start_block, parsed.start_block);
            assert_eq!(expected_part.name, parsed.name);
            assert_eq!(expected_part.extras, parsed.extras);
        }
    }
}

#[test]
fn parsed_line_equals_the_expected_partition() {
    let line = "/dev/sda1 : start=  2048, size= 60086239, type=0FC63DAF-8483-4772-8E79-3D69D8477DE4, uuid=AAAAAAAA-BBBB-CCCC-DDDD-EEEEEEEEEEEE,    it ain't me    babe";
    assert_eq!(
        parse_sfdisk_partition_line(line),
        Ok(Partition {
            designation: 1,
            start_block: 2048,
            name: String::from("/dev/sda1"),
            extras: vec![
                String::from("size="),
                String::from("60086239,"),
                String::from("type=0FC63DAF-8483-4772-8E79-3D69D8477DE4,"),
                String::from("uuid=AAAAAAAA-BBBB-CCCC-DDDD-EEEEEEEEEEEE,"),
                String::from("it"),
                String::from("ain't"),
                String::from("me"),
                String::from("babe"),
            ],
        })
    );
}

#[test]
fn line_without_start_is_malformed() {
    assert!(!is_sfdisk_partition_line("/dev/sda1 2048 bad"));
    assert_eq!(
        parse_sfdisk_partition_line("/dev/sda1 2048 bad"),
        Err(ErrorKind::MalformedPartitionLine)
    );
    assert_eq!(parse_sfdisk_partition_line(""), Err(ErrorKind::MalformedPartitionLine));
    assert_eq!(
        parse_sfdisk_partition_line("label: gpt"),
        Err(ErrorKind::MalformedPartitionLine)
    );
    // The path must end in a digit, and the start block must be followed by a comma.
    assert!(!is_sfdisk_partition_line("/dev/sda : start= 2048, size= 1"));
    assert!(!is_sfdisk_partition_line("/dev/sda1 : start= 2048"));
}

#[test]
fn line_with_no_extras_parses() {
    assert_eq!(
        parse_sfdisk_partition_line("/dev/vda2 : start= 7,"),
        Ok(Partition {
            designation: 2,
            start_block: 7,
            name: String::from("/dev/vda2"),
            extras: vec![],
        })
    );
}

#[test]
fn number_too_large_is_a_numeric_failure() {
    let line = "/dev/sda1 : start= 99999999999999999999999999999999999999999, size= 1";
    assert!(is_sfdisk_partition_line(line));
    assert_eq!(parse_sfdisk_partition_line(line), Err(ErrorKind::NumericParseFailure));
}

#[test]
fn groups_are_checked_in_order() {
    let some = |s: &'static str| Some(Some(s));
    assert_eq!(
        partition_from_groups(some("/dev/sda1"), some("1"), some("2048"), some(" size= 4, x")),
        Ok(Partition {
            designation: 1,
            start_block: 2048,
            name: String::from("/dev/sda1"),
            extras: vec![String::from("size="), String::from("4,"), String::from("x")],
        })
    );
    assert_eq!(
        partition_from_groups(None, None, None, None),
        Err(ErrorKind::MalformedPartitionLine)
    );
    assert_eq!(
        partition_from_groups(Some(None), some("1"), some("2048"), some("")),
        Err(ErrorKind::MalformedPartitionLine)
    );
    assert_eq!(
        partition_from_groups(some("/dev/sda1"), Some(None), some("2048"), some("")),
        Err(ErrorKind::MalformedPartitionLine)
    );
    assert_eq!(
        partition_from_groups(some("/dev/sda1"), some("x"), some("2048"), some("")),
        Err(ErrorKind::NumericParseFailure)
    );
    // A number that does not parse is reported before a later group that is missing.
    assert_eq!(
        partition_from_groups(some("/dev/sda1"), some("x"), Some(None), some("")),
        Err(ErrorKind::NumericParseFailure)
    );
    assert_eq!(
        partition_from_groups(some("/dev/sda1"), some("1"), Some(None), some("")),
        Err(ErrorKind::MalformedPartitionLine)
    );
    assert_eq!(
        partition_from_groups(some("/dev/sda1"), some("1"), some(""), some("")),
        Err(ErrorKind::NumericParseFailure)
    );
    assert_eq!(
        partition_from_groups(some("/dev/sda1"), some("1"), some("2048"), Some(None)),
        Err(ErrorKind::MalformedPartitionLine)
    );
}

#[test]
fn designation_is_all_the_digits_the_path_ends_in() {
    let cases = [
        ("/dev/sda12 : start= 1, x", "/dev/sda12", 12),
        ("/dev/sda1000 : start= 1, x", "/dev/sda1000", 1000),
        ("/dev/nvme0n1p10 : start= 1, x", "/dev/nvme0n1p10", 10),
        ("/dev/nvme10n21p3 : start= 1, x", "/dev/nvme10n21p3", 3),
        ("/dev/mmcblk10p20 : start= 1, x", "/dev/mmcblk10p20", 20),
        ("/dev/vdb7 : start= 1, x", "/dev/vdb7", 7),
    ];
    for (line, name, designation) in cases {
        let part = parse_sfdisk_partition_line(line).unwrap();
        assert_eq!(part.name, name);
        assert_eq!(part.designation, designation);
        assert_eq!(part.start_block, 1);
        assert_eq!(part.extras, vec![String::from("x")]);
    }
}

#[test]
fn text_before_the_path_is_skipped() {
    let part = parse_sfdisk_partition_line("  /dev/sda3 : start= 64, size= 2").unwrap();
    assert_eq!(part.name, "/dev/sda3");
    assert_eq!(part.designation, 3);
    assert_eq!(part.start_block, 64);
}
