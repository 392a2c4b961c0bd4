use sfdisk_sort::error::ErrorKind;
use sfdisk_sort::partition::parser::{LineParser, ParseMap, SfdiskPartitionInfo as info};
use sfdisk_sort::partition::Partition;

#[test]
fn parser_tests_test_parse() {
    let sfdisk_output_disk_line = "/dev/sda1 : start=  2048, size= 60086239, type=0FC63DAF-8483-4772-8E79-3D69D8477DE4, uuid=AAAAAAAA-BBBB-CCCC-DDDD-EEEEEEEEEEEE,    it ain't me    babe";
    let test_disk = Partition {
        designation: 1,
        start_block: 2048,
        name: String::from("/dev/sda1"),
        extras: vec![
            String::from("size="),
            String::from("60086239,"),
            String::from("type=0FC63DAF-8483-4772-8E79-3D69D8477DE4,"),
            String::from("uuid=AAAAAAAA-BBBB-CCCC-DDDD-EEEEEEEEEEEE,"),
            String::from("it"),
            String::from("ain't"),
            String::from("me"),
            String::from("babe"),
        ],
    };
    let mut parse_map = ParseMap::new();
    parse_map.insert(1, (info::PartName, Some("/dev/sda")));
    parse_map.insert(2, (info::PartNameSep, Some(":")));
    parse_map.insert(3, (info::StartText, Some("start=")));
    parse_map.insert(4, (info::StartBlock, None));

    let line_parser = LineParser::new(sfdisk_output_disk_line, parse_map);
    let parsed = match line_parser.foo("/dev/sda") {
        Ok(part) => part,
        Err(err) => {
            println!("error parsing: {}", err.message());
            Partition::default()
        }
    };

    if parsed != test_disk {
        assert_eq!(test_disk.designation, parsed.designation);
        assert_eq!(test_disk.start_block, parsed.start_block);
        assert_eq!(test_disk.name, parsed.name);
        assert_eq!(test_disk.extras, parsed.extras);
    }
}

#[test]
fn test_header() {
    let sfdisk_output_header = "label: gpt
label-id: 12345678-F226-1234-5678-E55555555555
device: /dev/nvme0n1
unit: sectors
first-lba: 2048
last-lba: 60088286
sector-size: 512";
    let parse_map: ParseMap = ParseMap::new();
    let line_parser = LineParser::new(sfdisk_output_header, parse_map);
    let parsed = line_parser.foo("/dev/sda");
    println!("{:?}", parsed);
}

fn partition_rules<'a>() -> ParseMap<'a> {
    let mut parse_map = ParseMap::new();
    parse_map.insert(1, (info::PartName, Some("/dev/sda")));
    parse_map.insert(2, (info::PartNameSep, Some(":")));
    parse_map.insert(3, (info::StartText, Some("start=")));
    parse_map.insert(4, (info::StartBlock, None));
    parse_map
}

#[test]
fn fields_are_read_by_their_rules() {
    let parser = LineParser::new("/dev/sda12 : start= 2048, size= 4, type=X", partition_rules());
    assert_eq!(
        parser.foo("/dev/sda"),
        Ok(Partition {
            designation: 12,
            start_block: 2048,
            name: String::from("/dev/sda12"),
            extras: vec![String::from("size="), String::from("4,"), String::from("type=X")],
        })
    );
}

#[test]
fn fields_without_rules_are_extras() {
    let parser = LineParser::new("label: gpt\tdevice:  /dev/nvme0n1\n", ParseMap::new());
    assert_eq!(
        parser.foo("/dev/sda"),
        Ok(Partition {
            designation: 0,
            start_block: 0,
            name: String::new(),
            extras: vec![
                String::from("label:"),
                String::from("gpt"),
                String::from("device:"),
                String::from("/dev/nvme0n1"),
            ],
        })
    );
    let empty = LineParser::new("", partition_rules());
    assert_eq!(empty.foo("/dev/sda"), Ok(Partition::default()));
}

#[test]
fn refused_fields_fail_the_line() {
    // The path does not hold the base name.
    let p = LineParser::new("/dev/vda1 : start= 2048, size= 4", partition_rules());
    assert_eq!(p.foo("/dev/sda"), Err(ErrorKind::MalformedPartitionLine));
    // Nothing that is a number follows the base name.
    let p = LineParser::new("/dev/sda : start= 2048, size= 4", partition_rules());
    assert_eq!(p.foo("/dev/sda"), Err(ErrorKind::NumericParseFailure));
    let p = LineParser::new("/dev/sdap1 : start= 2048, size= 4", partition_rules());
    assert_eq!(p.foo("/dev/sda"), Err(ErrorKind::NumericParseFailure));
    // The separator is another.
    let p = LineParser::new("/dev/sda1 = start= 2048, size= 4", partition_rules());
    assert_eq!(p.foo("/dev/sda"), Err(ErrorKind::MalformedPartitionLine));
    // The start text is another.
    let p = LineParser::new("/dev/sda1 : begin= 2048, size= 4", partition_rules());
    assert_eq!(p.foo("/dev/sda"), Err(ErrorKind::MalformedPartitionLine));
    // The start block is no number.
    let p = LineParser::new("/dev/sda1 : start= x2048, size= 4", partition_rules());
    assert_eq!(p.foo("/dev/sda"), Err(ErrorKind::NumericParseFailure));
    let p = LineParser::new("/dev/sda1 : start= ,2048 size= 4", partition_rules());
    assert_eq!(p.foo("/dev/sda"), Err(ErrorKind::NumericParseFailure));
    // The first refused field decides.
    let p = LineParser::new("/dev/sda1 = start= x, size= 4", partition_rules());
    assert_eq!(p.foo("/dev/sda"), Err(ErrorKind::MalformedPartitionLine));
}

#[test]
fn rule_without_expected_text_refuses() {
    let mut rules = ParseMap::new();
    rules.insert(1, (info::PartNameSep, None));
    let p = LineParser::new(":", rules);
    assert_eq!(p.foo("/dev/sda"), Err(ErrorKind::MalformedPartitionLine));
}

#[test]
fn number_is_what_follows_the_first_base_name() {
    // Between the first and the second occurrence of the base name.
    let mut rules = ParseMap::new();
    rules.insert(1, (info::PartName, None));
    let p = LineParser::new("ab12ab34", rules);
    assert_eq!(
        p.foo("ab"),
        Ok(Partition {
            designation: 12,
            start_block: 0,
            name: String::from("ab12ab34"),
            extras: vec![],
        })
    );
    // An empty base name cuts between all characters: the number is the first character.
    let mut rules = ParseMap::new();
    rules.insert(1, (info::PartName, None));
    let p = LineParser::new("7x", rules);
    assert_eq!(p.foo("").map(|part| part.designation), Ok(7));
    // A start block ends at the first comma, and a later rule of the same kind wins.
    let mut rules = ParseMap::new();
    rules.insert(1, (info::StartBlock, None));
    rules.insert(3, (info::StartBlock, None));
    let p = LineParser::new("10,20 x 30", rules);
    assert_eq!(
        p.foo("/dev/sda"),
        Ok(Partition {
            designation: 0,
            start_block: 30,
            name: String::new(),
            extras: vec![String::from("x")],
        })
    );
}
