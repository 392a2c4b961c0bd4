//! Reading one partition line of a dump.

use vstd::prelude::*;
use vstd::string::*;
use crate::error::ErrorKind;
use crate::partition::{Partition, PartitionView};
use crate::pattern::{capture, captured, group_view, is_match, pattern_matches};
use crate::text::decimal::{decimal_digits, lemma_parse_of_digits, parse_usize, parse_usize_spec};
use crate::text::words::{is_word, join, lemma_words_of_joined, split_whitespace, words};

verus! {

/// The shape of a partition line: a path under `/dev/` that ends in digits, a colon,
/// `start=` with the start block, a comma, and the rest of the line.  The path's word
/// characters are matched lazily, so that `part_num` holds all the digits the path ends in.
pub const SFDISK_PARTITION_LINE_PATTERN: &'static str =
    r"(?P<full_path>/dev/(\w+?(?P<part_num>\d+)))\s+:\s+(:?start=\s+)(?P<start_block>\d+)[,](?P<rest>.*)";

/// The capture group with the partition's path.
pub const FULL_PATH_GROUP: &'static str = "full_path";

/// The capture group with the partition's number.
pub const PART_NUM_GROUP: &'static str = "part_num";

/// The capture group with the start block.
pub const START_BLOCK_GROUP: &'static str = "start_block";

/// The capture group with everything after the first comma.
pub const REST_GROUP: &'static str = "rest";

/// Whether `line` has the shape of a partition line.
pub open spec fn is_partition_line(line: Seq<char>) -> bool {
    pattern_matches(SFDISK_PARTITION_LINE_PATTERN@, line)
}

/// The partition that the four capture groups of a partition line describe.
///
/// The groups are looked at in the order path, number, start block, rest; the first that
/// is missing makes the line malformed, and digits that write no `usize` are a numeric
/// failure.
pub open spec fn partition_of_groups(
    full_path: Option<Option<Seq<char>>>,
    part_num: Option<Option<Seq<char>>>,
    start_block: Option<Option<Seq<char>>>,
    rest: Option<Option<Seq<char>>>,
) -> Result<PartitionView, ErrorKind> {
    match (full_path, part_num) {
        (Some(Some(name)), Some(Some(number))) => match parse_usize_spec(number) {
            None => Err(ErrorKind::NumericParseFailure),
            Some(designation) => match start_block {
                Some(Some(start)) => match parse_usize_spec(start) {
                    None => Err(ErrorKind::NumericParseFailure),
                    Some(start_block) => match rest {
                        Some(Some(words_text)) => Ok(
                            PartitionView {
                                designation,
                                start_block,
                                name,
                                extras: words(words_text),
                            },
                        ),
                        _ => Err(ErrorKind::MalformedPartitionLine),
                    },
                },
                _ => Err(ErrorKind::MalformedPartitionLine),
            },
        },
        _ => Err(ErrorKind::MalformedPartitionLine),
    }
}

/// The partition that `line` describes.
pub open spec fn parse_partition_line(line: Seq<char>) -> Result<PartitionView, ErrorKind> {
    partition_of_groups(
        captured(SFDISK_PARTITION_LINE_PATTERN@, line, FULL_PATH_GROUP@),
        captured(SFDISK_PARTITION_LINE_PATTERN@, line, PART_NUM_GROUP@),
        captured(SFDISK_PARTITION_LINE_PATTERN@, line, START_BLOCK_GROUP@),
        captured(SFDISK_PARTITION_LINE_PATTERN@, line, REST_GROUP@),
    )
}

/// A partition reads back from the groups of its own line: from its name, digits that
/// write its designation, the digits of its start block, and a space with its extras
/// joined by single spaces.  The extras must be words.
pub proof fn lemma_groups_read_back(p: PartitionView, number: Seq<char>)
    requires
        parse_usize_spec(number) == Some(p.designation),
        forall|i: int| 0 <= i < p.extras.len() ==> is_word(#[trigger] p.extras[i]),
    ensures
        partition_of_groups(
            Some(Some(p.name)),
            Some(Some(number)),
            Some(Some(decimal_digits(p.start_block as nat))),
            Some(Some(seq![' '] + join(p.extras, seq![' ']))),
        ) == Ok::<PartitionView, ErrorKind>(p),
{
    lemma_parse_of_digits(p.start_block);
    lemma_words_of_joined(p.extras);
}

/// Whether `line` has the shape of a partition line.
pub fn is_sfdisk_partition_line(line: &str) -> (r: bool)
    ensures
        r == is_partition_line(line@),
{
    is_match(SFDISK_PARTITION_LINE_PATTERN, line)
}

/// Builds the partition from what the four capture groups of a partition line hold.
pub fn partition_from_groups(
    full_path: Option<Option<&str>>,
    part_num: Option<Option<&str>>,
    start_block: Option<Option<&str>>,
    rest: Option<Option<&str>>,
) -> (r: Result<Partition, ErrorKind>)
    ensures
        match r {
            Ok(p) => partition_of_groups(
                group_view(full_path),
                group_view(part_num),
                group_view(start_block),
                group_view(rest),
            ) == Ok::<PartitionView, ErrorKind>(p@),
            Err(e) => partition_of_groups(
                group_view(full_path),
                group_view(part_num),
                group_view(start_block),
                group_view(rest),
            ) == Err::<PartitionView, ErrorKind>(e),
        },
{
    let name = match full_path {
        Some(Some(s)) => String::from_str(s),
        _ => {
            return Err(ErrorKind::MalformedPartitionLine);
        },
    };
    let designation = match part_num {
        Some(Some(s)) => match parse_usize(s) {
            Some(n) => n,
            None => {
                return Err(ErrorKind::NumericParseFailure);
            },
        },
        _ => {
            return Err(ErrorKind::MalformedPartitionLine);
        },
    };
    let start = match start_block {
        Some(Some(s)) => match parse_usize(s) {
            Some(n) => n,
            None => {
                return Err(ErrorKind::NumericParseFailure);
            },
        },
        _ => {
            return Err(ErrorKind::MalformedPartitionLine);
        },
    };
    let extras = match rest {
        Some(Some(s)) => split_whitespace(s),
        _ => {
            return Err(ErrorKind::MalformedPartitionLine);
        },
    };
    Ok(Partition { designation, start_block: start, name, extras })
}

/// Reads one partition line.  A line that is no partition line is malformed.
pub fn parse_sfdisk_partition_line(line: &str) -> (r: Result<Partition, ErrorKind>)
    ensures
        match r {
            Ok(p) => parse_partition_line(line@) == Ok::<PartitionView, ErrorKind>(p@),
            Err(e) => parse_partition_line(line@) == Err::<PartitionView, ErrorKind>(e),
        },
        !is_partition_line(line@) ==> r == Err::<Partition, ErrorKind>(
            ErrorKind::MalformedPartitionLine,
        ),
{
    let full_path = capture(SFDISK_PARTITION_LINE_PATTERN, line, FULL_PATH_GROUP);
    let part_num = capture(SFDISK_PARTITION_LINE_PATTERN, line, PART_NUM_GROUP);
    let start_block = capture(SFDISK_PARTITION_LINE_PATTERN, line, START_BLOCK_GROUP);
    let rest = capture(SFDISK_PARTITION_LINE_PATTERN, line, REST_GROUP);
    partition_from_groups(full_path, part_num, start_block, rest)
}

} // verus!
