//! What holds of reading, renumbering and writing a disk.

use vstd::prelude::*;
use crate::disk::{
    device_of,
    disk_of_lines,
    first_fault,
    header_lines_of,
    lemma_mismatch_position,
    lemma_mismatch_position_is,
    line_fault,
    parse_dump,
    partitions_of,
    DiskView,
};
use crate::error::ErrorKind;
use crate::linux::block::{split_name, LinuxBlockDevice};
use crate::partition::lemma_written_line_is_plain;
use crate::partition::order::{
    is_sorted_by_start,
    lemma_stable_sort_len,
    lemma_stable_sort_of_sorted,
    lemma_stable_sort_sorted,
};
use crate::partition::parse::{
    is_partition_line,
    lemma_groups_read_back,
    parse_partition_line,
    FULL_PATH_GROUP,
    PART_NUM_GROUP,
    REST_GROUP,
    SFDISK_PARTITION_LINE_PATTERN,
    START_BLOCK_GROUP,
};
use crate::partition::PartitionView;
use crate::pattern::{captured, is_part_of, regex_group};
use crate::text::decimal::{decimal_digits, parse_usize_spec};
use crate::text::find::occurs_at;
use crate::text::lines::{
    is_plain_line,
    lemma_lines_hold_no_line_feed,
    lemma_lines_of_unlines,
    lines,
};
use crate::text::words::{is_word, join, lemma_words_are_words};

verus! {

/// Renaming `p` to the number it has leaves it as it is: its name is what stands before
/// its partition number, by the naming of `family`, followed by its designation.
pub open spec fn keeps_its_name(family: LinuxBlockDevice, p: PartitionView) -> bool {
    p.redesignated(family, p.designation) == Some(p)
}

/// The line of `p` is a partition line that reads back as `p`.
pub open spec fn reads_back(p: PartitionView) -> bool {
    is_partition_line(p.line()) && parse_partition_line(p.line()) == Ok::<
        PartitionView,
        ErrorKind,
    >(p)
}

/// The line of a partition reads back as the partition where the pattern finds in it what
/// was written: the name as path, digits of the designation as its number, the digits of
/// the start block, and behind the comma a space and the extras.  The extras must be
/// words.
pub proof fn lemma_reads_back(p: PartitionView, number: Seq<char>)
    requires
        is_partition_line(p.line()),
        regex_group(SFDISK_PARTITION_LINE_PATTERN@, p.line(), FULL_PATH_GROUP@) == Some(p.name),
        regex_group(SFDISK_PARTITION_LINE_PATTERN@, p.line(), PART_NUM_GROUP@) == Some(number),
        regex_group(SFDISK_PARTITION_LINE_PATTERN@, p.line(), START_BLOCK_GROUP@) == Some(
            decimal_digits(p.start_block as nat),
        ),
        regex_group(SFDISK_PARTITION_LINE_PATTERN@, p.line(), REST_GROUP@) == Some(
            seq![' '] + join(p.extras, seq![' ']),
        ),
        is_part_of(number, p.line()),
        parse_usize_spec(number) == Some(p.designation),
        forall|i: int| 0 <= i < p.extras.len() ==> is_word(#[trigger] p.extras[i]),
    ensures
        reads_back(p),
{
    reveal_strlit(" : start= ");
    reveal_strlit(", ");
    reveal_strlit(" ");
    let line = p.line();
    let colon = " : start= "@;
    let digits = decimal_digits(p.start_block as nat);
    let tail = join(p.extras, seq![' ']);
    assert(" "@ == seq![' ']);
    assert(line == p.name + colon + digits + ", "@ + tail);
    let a = p.name.len() as int;
    let b = a + colon.len() + digits.len();
    assert(occurs_at(line, p.name, 0)) by {
        assert(line.subrange(0, a) == p.name);
    }
    assert(occurs_at(line, digits, a + colon.len())) by {
        assert(line.subrange(a + colon.len(), b) == digits);
    }
    assert(occurs_at(line, seq![' '] + tail, b + 1)) by {
        assert(line.subrange(b + 1, b + 2 + tail.len()) == seq![' '] + tail);
    }
    lemma_groups_read_back(p, number);
}

/// After `rearrange` the partitions are as many as before and in the order of their start
/// blocks.  Each renamed partition has the start block and extras of the partition that
/// stood at its place in that order, and its place, counted from 1, as designation; the
/// others are untouched.
pub proof fn lemma_rearranged(d: DiskView)
    requires
        d.partitions.len() <= usize::MAX,
    ensures
        d.rearranged().name == d.name,
        d.rearranged().linux_block_device == d.linux_block_device,
        d.rearranged().header_lines == d.header_lines,
        d.rearranged().partitions.len() == d.partitions.len(),
        0 <= d.renamable() <= d.partitions.len(),
        is_sorted_by_start(d.rearranged().partitions),
        forall|i: int|
            0 <= i < d.partitions.len() ==> {
                let old = d.sorted_partitions()[i];
                let new = #[trigger] d.rearranged().partitions[i];
                &&& new.start_block == old.start_block
                &&& new.extras == old.extras
                &&& i < d.renamable() ==> new.designation == i + 1 && split_name(
                    d.linux_block_device,
                    old.name,
                ) is Some
                &&& i >= d.renamable() ==> new == old
            },
{
    let sorted = d.sorted_partitions();
    let family = d.linux_block_device;
    lemma_stable_sort_len(d.partitions);
    lemma_stable_sort_sorted(d.partitions);
    lemma_mismatch_position(sorted, family);
    let new = d.rearranged().partitions;
    assert forall|i: int| 0 <= i < d.partitions.len() implies {
        let old = d.sorted_partitions()[i];
        let new = #[trigger] d.rearranged().partitions[i];
        &&& new.start_block == old.start_block
        &&& new.extras == old.extras
        &&& i < d.renamable() ==> new.designation == i + 1 && split_name(
            d.linux_block_device,
            old.name,
        ) is Some
        &&& i >= d.renamable() ==> new == old
    } by {
        if i < d.renamable() {
            assert(split_name(family, sorted[i].name) is Some);
        }
    }
    assert forall|i: int, j: int| 0 <= i < j < new.len() implies new[i].start_block
        <= new[j].start_block by {
        assert(sorted[i].start_block <= sorted[j].start_block);
    }
}

/// A second `rearrange` after one that renamed every partition moves no partition and
/// changes no designation, start block or extras.  It leaves a partition wholly as it is
/// where the partition keeps its name, and the disk as it is where all of them do.
pub proof fn lemma_rearrange_twice(d: DiskView)
    requires
        d.partitions.len() <= usize::MAX,
        d.can_rearrange(),
    ensures
        d.rearranged().rearranged().name == d.rearranged().name,
        d.rearranged().rearranged().linux_block_device == d.rearranged().linux_block_device,
        d.rearranged().rearranged().header_lines == d.rearranged().header_lines,
        d.rearranged().rearranged().partitions.len() == d.rearranged().partitions.len(),
        forall|i: int|
            0 <= i < d.partitions.len() ==> {
                let once = d.rearranged().partitions[i];
                let twice = #[trigger] d.rearranged().rearranged().partitions[i];
                &&& twice.designation == once.designation
                &&& twice.start_block == once.start_block
                &&& twice.extras == once.extras
                &&& keeps_its_name(d.linux_block_device, once) ==> twice == once
            },
        (forall|i: int|
            0 <= i < d.partitions.len() ==> keeps_its_name(
                d.linux_block_device,
                #[trigger] d.rearranged().partitions[i],
            )) ==> d.rearranged().can_rearrange() && d.rearranged().rearranged() == d.rearranged(),
{
    let family = d.linux_block_device;
    let d1 = d.rearranged();
    let d2 = d1.rearranged();
    lemma_rearranged(d);
    lemma_stable_sort_of_sorted(d1.partitions);
    lemma_rearranged(d1);
    assert(d1.sorted_partitions() == d1.partitions);
    assert forall|i: int| 0 <= i < d.partitions.len() implies {
        let once = d.rearranged().partitions[i];
        let twice = #[trigger] d.rearranged().rearranged().partitions[i];
        &&& twice.designation == once.designation
        &&& twice.start_block == once.start_block
        &&& twice.extras == once.extras
        &&& keeps_its_name(d.linux_block_device, once) ==> twice == once
    } by {
        let once = d1.partitions[i];
        let twice = d2.partitions[i];
        assert(once.designation == i + 1);
        assert(twice.start_block == d1.sorted_partitions()[i].start_block);
    }
    if forall|i: int|
        0 <= i < d.partitions.len() ==> keeps_its_name(family, #[trigger] d1.partitions[i]) {
        assert forall|i: int| 0 <= i < d1.partitions.len() implies split_name(
            family,
            (#[trigger] d1.partitions[i]).name,
        ) is Some by {
            assert(keeps_its_name(family, d1.partitions[i]));
        }
        lemma_mismatch_position_is(d1.partitions, family, d1.partitions.len() as int);
        assert(d2.partitions =~= d1.partitions);
    }
}

/// A dump is without fault exactly if none of its lines has one.
pub proof fn lemma_no_fault(ls: Seq<Seq<char>>)
    ensures
        first_fault(ls) is None <==> forall|i: int|
            0 <= i < ls.len() ==> line_fault(#[trigger] ls[i]) is None,
    decreases ls.len(),
{
    if ls.len() > 0 {
        let front = ls.drop_last();
        lemma_no_fault(front);
        if first_fault(ls) is None {
            assert forall|i: int| 0 <= i < ls.len() implies line_fault(#[trigger] ls[i]) is None by {
                if i < front.len() {
                    assert(front[i] == ls[i]);
                }
            }
        }
        if forall|i: int| 0 <= i < ls.len() ==> line_fault(#[trigger] ls[i]) is None {
            assert forall|i: int| 0 <= i < front.len() implies line_fault(#[trigger] front[i]) is None by {
                assert(front[i] == ls[i]);
            }
            assert(line_fault(ls[ls.len() - 1]) is None);
        }
    }
}

/// A filter keeps a sequence whose elements all pass.
proof fn lemma_filter_keeps_all(s: Seq<Seq<char>>, pred: spec_fn(Seq<char>) -> bool)
    requires
        forall|i: int| 0 <= i < s.len() ==> pred(#[trigger] s[i]),
    ensures
        s.filter(pred) == s,
    decreases s.len(),
{
    reveal(Seq::filter);
    if s.len() > 0 {
        let front = s.drop_last();
        assert forall|i: int| 0 <= i < front.len() implies pred(#[trigger] front[i]) by {
            assert(front[i] == s[i]);
        }
        lemma_filter_keeps_all(front, pred);
        assert(pred(s[s.len() - 1]));
        assert(front.push(s.last()) == s);
    }
}

/// A filter leaves nothing of a sequence none of whose elements pass.
proof fn lemma_filter_keeps_none(s: Seq<Seq<char>>, pred: spec_fn(Seq<char>) -> bool)
    requires
        forall|i: int| 0 <= i < s.len() ==> !pred(#[trigger] s[i]),
    ensures
        s.filter(pred) == Seq::<Seq<char>>::empty(),
    decreases s.len(),
{
    reveal(Seq::filter);
    if s.len() > 0 {
        let front = s.drop_last();
        assert forall|i: int| 0 <= i < front.len() implies !pred(#[trigger] front[i]) by {
            assert(front[i] == s[i]);
        }
        lemma_filter_keeps_none(front, pred);
        assert(!pred(s[s.len() - 1]));
    }
}

/// What a filter keeps has passed, and comes from the sequence.
proof fn lemma_filter_elements(s: Seq<Seq<char>>, pred: spec_fn(Seq<char>) -> bool)
    ensures
        forall|i: int|
            0 <= i < s.filter(pred).len() ==> pred(#[trigger] s.filter(pred)[i]) && s.contains(
                s.filter(pred)[i],
            ),
{
    let kept = s.filter(pred);
    assert forall|i: int| 0 <= i < kept.len() implies pred(#[trigger] kept[i]) && s.contains(
        kept[i],
    ) by {
        s.lemma_filter_pred(pred, i);
        assert(kept.contains(kept[i]));
        s.lemma_filter_contains_rev(pred, kept[i]);
    }
}

/// A dump that names a device has a header line: the line that names the device.
pub proof fn lemma_device_line_is_a_header_line(ls: Seq<Seq<char>>)
    requires
        device_of(ls) is Some,
    ensures
        header_lines_of(ls).len() > 0,
    decreases ls.len(),
{
    reveal(Seq::filter);
    if ls.len() > 0 {
        if device_of(ls.drop_last()) is Some {
            lemma_device_line_is_a_header_line(ls.drop_last());
        }
    }
}

/// The fault of a line is a malformed partition line, a number that does not parse, or a
/// malformed device line; the first fault of a dump lies on one of its lines.
pub proof fn lemma_fault_kinds(ls: Seq<Seq<char>>)
    ensures
        first_fault(ls) matches Some((number, kind)) ==> {
            &&& 1 <= number <= ls.len()
            &&& line_fault(ls[number - 1]) == Some(kind)
            &&& kind == ErrorKind::MalformedPartitionLine || kind
                == ErrorKind::NumericParseFailure || kind == ErrorKind::MalformedDeviceLine
        },
    decreases ls.len(),
{
    if ls.len() > 0 {
        lemma_fault_kinds(ls.drop_last());
        match first_fault(ls.drop_last()) {
            Some((number, _)) => {
                assert(ls.drop_last()[number - 1] == ls[number - 1]);
            },
            None => {},
        }
    }
}

/// Reading a dump never fails for want of header lines: where a device was named, its
/// line is one.
pub proof fn lemma_header_lines_are_never_missing(text: Seq<char>)
    ensures
        parse_dump(text) matches Err(e) ==> e.kind != ErrorKind::MissingHeaderLines,
{
    lemma_fault_kinds(lines(text));
    if device_of(lines(text)) is Some {
        lemma_device_line_is_a_header_line(lines(text));
    }
}

/// Partition lines do not matter to which device a dump names.
pub proof fn lemma_device_of_header_lines(ls: Seq<Seq<char>>)
    ensures
        device_of(header_lines_of(ls)) == device_of(ls),
    decreases ls.len(),
{
    reveal(Seq::filter);
    let is_header = |line: Seq<char>| !is_partition_line(line);
    if ls.len() > 0 {
        let front = ls.drop_last();
        lemma_device_of_header_lines(front);
        if !is_partition_line(ls.last()) {
            let kept = front.filter(is_header).push(ls.last());
            assert(header_lines_of(ls) == kept);
            assert(kept.drop_last() == front.filter(is_header));
        }
    } else {
        assert(header_lines_of(ls).len() == 0);
    }
}

/// Partition lines behind a dump do not change which device it names.
pub proof fn lemma_device_of_with_partition_lines(a: Seq<Seq<char>>, b: Seq<Seq<char>>)
    requires
        forall|i: int| 0 <= i < b.len() ==> is_partition_line(#[trigger] b[i]),
    ensures
        device_of(a + b) == device_of(a),
    decreases b.len(),
{
    if b.len() == 0 {
        assert(a + b == a);
    } else {
        let front = b.drop_last();
        assert forall|i: int| 0 <= i < front.len() implies is_partition_line(#[trigger] front[i]) by {
            assert(front[i] == b[i]);
        }
        lemma_device_of_with_partition_lines(a, front);
        assert((a + b).drop_last() == a + front);
        assert((a + b).last() == b[b.len() - 1]);
    }
}

/// The lines of the partitions of a dump that was read without fault are lines: each is
/// one line of text when the dump is written again.
pub proof fn lemma_partition_lines_are_plain(text: Seq<char>)
    requires
        first_fault(lines(text)) is None,
    ensures
        forall|i: int|
            0 <= i < partitions_of(lines(text)).len() ==> is_plain_line(
                (#[trigger] partitions_of(lines(text))[i]).line(),
            ),
{
    let ls = lines(text);
    let is_part = |line: Seq<char>| is_partition_line(line);
    let sources = ls.filter(is_part);
    lemma_no_fault(ls);
    lemma_filter_elements(ls, is_part);
    lemma_lines_hold_no_line_feed(text);
    assert forall|i: int| 0 <= i < partitions_of(ls).len() implies is_plain_line(
        (#[trigger] partitions_of(ls)[i]).line(),
    ) by {
        let source = sources[i];
        let p = partitions_of(ls)[i];
        assert(p == parse_partition_line(source)->Ok_0);
        assert(ls.contains(source));
        let at_line = choose|k: int| 0 <= k < ls.len() && ls[k] == source;
        assert(line_fault(ls[at_line]) is None);
        assert(parse_partition_line(source) is Ok);
        let path = captured(SFDISK_PARTITION_LINE_PATTERN@, source, FULL_PATH_GROUP@);
        let rest = captured(SFDISK_PARTITION_LINE_PATTERN@, source, REST_GROUP@);
        assert(path == Some(Some(p.name)));
        assert(is_part_of(p.name, source));
        let at = choose|at: int| occurs_at(source, p.name, at);
        assert forall|k: int| 0 <= k < p.name.len() implies #[trigger] p.name[k] != '\n' by {
            assert(p.name[k] == source.subrange(at, at + p.name.len())[k]);
            assert(ls[at_line][at + k] != '\n');
        }
        lemma_words_are_words(rest->0->0);
        lemma_written_line_is_plain(p);
    }
}

/// Writing a disk that was read from a dump, and reading what was written, gives the
/// same disk, provided that
/// - no header line ends in a carriage return (a line feed would take it along), and
/// - the line of each partition reads back as that partition.
pub proof fn lemma_dump_round_trip(text: Seq<char>)
    requires
        parse_dump(text) is Ok,
        forall|i: int|
            0 <= i < (parse_dump(text)->Ok_0).header_lines.len() ==> {
                let header = #[trigger] (parse_dump(text)->Ok_0).header_lines[i];
                header.len() > 0 ==> header.last() != '\r'
            },
        forall|i: int|
            0 <= i < (parse_dump(text)->Ok_0).partitions.len() ==> reads_back(
                #[trigger] (parse_dump(text)->Ok_0).partitions[i],
            ),
    ensures
        parse_dump((parse_dump(text)->Ok_0).text()) == parse_dump(text),
{
    let d = parse_dump(text)->Ok_0;
    let ls = lines(text);
    let is_header = |line: Seq<char>| !is_partition_line(line);
    let is_part = |line: Seq<char>| is_partition_line(line);
    let written = |p: PartitionView| p.line();
    let parsed = |line: Seq<char>| parse_partition_line(line)->Ok_0;
    let headers = d.header_lines;
    let part_lines = d.partitions.map_values(written);
    let again = headers + part_lines;

    assert(first_fault(ls) is None);
    assert(headers == ls.filter(is_header));
    lemma_no_fault(ls);
    lemma_filter_elements(ls, is_header);
    lemma_lines_hold_no_line_feed(text);
    lemma_partition_lines_are_plain(text);

    // What is written splits into the header lines and the partitions' lines.
    assert forall|i: int| 0 <= i < again.len() implies is_plain_line(#[trigger] again[i]) by {
        if i < headers.len() {
            let header = headers[i];
            assert(again[i] == header);
            assert(ls.contains(header));
            let k = choose|k: int| 0 <= k < ls.len() && ls[k] == header;
            assert forall|c: int| 0 <= c < header.len() implies #[trigger] header[c] != '\n' by {
                assert(ls[k][c] != '\n');
            }
        } else {
            assert(again[i] == d.partitions[i - headers.len()].line());
        }
    }
    lemma_lines_of_unlines(again);
    assert(lines(d.text()) == again);

    // No line of it has a fault.
    assert forall|i: int| 0 <= i < again.len() implies line_fault(#[trigger] again[i]) is None by {
        if i < headers.len() {
            let header = headers[i];
            assert(again[i] == header);
            assert(ls.contains(header));
            let k = choose|k: int| 0 <= k < ls.len() && ls[k] == header;
            assert(line_fault(ls[k]) is None);
        } else {
            let p = d.partitions[i - headers.len()];
            assert(again[i] == p.line());
            assert(reads_back(p));
        }
    }
    lemma_no_fault(again);

    // Its header lines and partitions are those of the disk.
    assert forall|i: int| 0 <= i < headers.len() implies is_header(#[trigger] headers[i]) by {}
    assert forall|i: int| 0 <= i < headers.len() implies !is_part(#[trigger] headers[i]) by {
        assert(is_header(headers[i]));
    }
    assert forall|i: int| 0 <= i < part_lines.len() implies is_part(#[trigger] part_lines[i]) by {
        assert(reads_back(d.partitions[i]));
    }
    assert forall|i: int| 0 <= i < part_lines.len() implies !is_header(#[trigger] part_lines[i]) by {
        assert(is_part(part_lines[i]));
    }
    Seq::filter_distributes_over_add(headers, part_lines, is_header);
    Seq::filter_distributes_over_add(headers, part_lines, is_part);
    lemma_filter_keeps_all(headers, is_header);
    lemma_filter_keeps_none(part_lines, is_header);
    lemma_filter_keeps_none(headers, is_part);
    lemma_filter_keeps_all(part_lines, is_part);
    assert(header_lines_of(again) == headers);
    assert(again.filter(is_part) == part_lines);
    assert(partitions_of(again) == d.partitions) by {
        assert forall|i: int| 0 <= i < d.partitions.len() implies part_lines.map_values(parsed)[i]
            == d.partitions[i] by {
            assert(reads_back(d.partitions[i]));
        }
        assert(part_lines.map_values(parsed) =~= d.partitions);
    }

    // It names the same device.
    lemma_device_of_header_lines(ls);
    assert forall|i: int| 0 <= i < part_lines.len() implies is_partition_line(
        #[trigger] part_lines[i],
    ) by {
        assert(is_part(part_lines[i]));
    }
    lemma_device_of_with_partition_lines(headers, part_lines);
    assert(device_of(again) == device_of(ls));
    assert(disk_of_lines(again) == disk_of_lines(ls));
}

} // verus!
