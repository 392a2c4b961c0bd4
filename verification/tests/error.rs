use sfdisk_sort::error::{DumpError, ErrorKind, RearrangeError, RegexCapturesError, RegexError};

#[test]
fn every_kind_has_its_wording() {
    assert_eq!(
        ErrorKind::UnrecognizedDeviceFamily.message(),
        "disk name does not match a known Linux block device name"
    );
    assert_eq!(ErrorKind::MalformedPartitionLine.message(), "bad partition line");
    assert_eq!(
        ErrorKind::MalformedDeviceLine.message(),
        "failed to parse device name from 'device' line"
    );
    assert_eq!(ErrorKind::NumericParseFailure.message(), "failed to parse number");
    assert_eq!(ErrorKind::MissingDeviceName.message(), "missing device name");
    assert_eq!(ErrorKind::MissingHeaderLines.message(), "missing header lines");
    assert_eq!(
        ErrorKind::PartitionNameMismatch.message(),
        "partition name does not match the disk's device family"
    );
    assert_eq!(RegexError.message(), "text does not match regex");
    assert_eq!(RegexCapturesError.message(), "regex capture failed");
}

#[test]
fn dump_error_leads_with_the_line() {
    let located = DumpError { kind: ErrorKind::MalformedDeviceLine, line: Some(12) };
    assert_eq!(located.message(), "line 12: failed to parse device name from 'device' line");
    let unlocated = DumpError { kind: ErrorKind::MissingHeaderLines, line: None };
    assert_eq!(unlocated.message(), "missing header lines");
}

#[test]
fn rearrange_error_names_the_partition() {
    let err = RearrangeError { position: 3, name: String::from("/dev/vda9") };
    assert_eq!(err.kind(), ErrorKind::PartitionNameMismatch);
    assert_eq!(err.message(), "failed to get partition number for /dev/vda9");
}
