//! A disk as a dump describes it: reading the dump, renumbering the partitions by start
//! block, and writing the dump again.

pub mod theorems;

use vstd::prelude::*;
use vstd::string::*;
use crate::disk::theorems::lemma_rearranged;
use crate::error::{DumpError, ErrorKind, RearrangeError, RegexCapturesError};
use crate::linux::block::{family_of, linux_blk_name, split_name, LinuxBlockDevice};
use crate::partition::order::{
    is_sorted_by_start,
    lemma_stable_sort_len,
    partition_views,
    sort_by_start_block,
    stable_sort,
};
use crate::partition::parse::{
    is_partition_line,
    is_sfdisk_partition_line,
    parse_partition_line,
    parse_sfdisk_partition_line,
};
use crate::partition::{Partition, PartitionView};
use crate::pattern::{capture, captured, group_view, is_match, pattern_matches};
use crate::text::lines::{lines, split_lines, unlines, write_lines};
use crate::text::words::views;

verus! {

/// The shape of the line that names the disk's device.
pub const SFDISK_DEVICE_NAME_PATTERN: &'static str =
    r"(?:device:\s+)(?P<device_name>(?:/dev/).*)";

/// The capture group with the device path.
pub const DEVICE_NAME_GROUP: &'static str = "device_name";

/// One disk: its device path, the family of that path, the lines of the dump that are
/// no partition lines, and the partitions.
#[derive(Debug, PartialEq)]
pub struct Disk {
    /// The device path, e.g. `/dev/sda`.
    pub name: String,
    /// The family of the device path.
    pub linux_block_device: LinuxBlockDevice,
    /// Every line of the dump that is no partition line, as it was read.
    pub header_lines: Vec<String>,
    /// The partitions, in the order of their lines or, after `rearrange`, of their
    /// start blocks.
    pub partitions: Vec<Partition>,
}

/// A disk as plain values.
pub struct DiskView {
    pub name: Seq<char>,
    pub linux_block_device: LinuxBlockDevice,
    pub header_lines: Seq<Seq<char>>,
    pub partitions: Seq<PartitionView>,
}

impl View for Disk {
    type V = DiskView;

    open spec fn view(&self) -> DiskView {
        DiskView {
            name: self.name@,
            linux_block_device: self.linux_block_device,
            header_lines: views(self.header_lines@),
            partitions: partition_views(self.partitions@),
        }
    }
}

/// Whether `line` announces the disk's device.
pub open spec fn is_device_line(line: Seq<char>) -> bool {
    pattern_matches(SFDISK_DEVICE_NAME_PATTERN@, line)
}

/// The device path that a capture of the device-name group holds.
pub open spec fn device_name_of_group(group: Option<Option<Seq<char>>>) -> Option<Seq<char>> {
    match group {
        Some(Some(path)) => Some(path),
        _ => None,
    }
}

/// The device path that `line` announces.
pub open spec fn device_name_of(line: Seq<char>) -> Option<Seq<char>> {
    device_name_of_group(captured(SFDISK_DEVICE_NAME_PATTERN@, line, DEVICE_NAME_GROUP@))
}

/// What is wrong with a line of a dump, if anything: a partition line must give a
/// partition, and a device line a device path.
pub open spec fn line_fault(line: Seq<char>) -> Option<ErrorKind> {
    if is_partition_line(line) {
        match parse_partition_line(line) {
            Ok(_) => None,
            Err(kind) => Some(kind),
        }
    } else if is_device_line(line) && device_name_of(line) is None {
        Some(ErrorKind::MalformedDeviceLine)
    } else {
        None
    }
}

/// The first line with a fault: its number, counted from 1, and the fault.
pub open spec fn first_fault(lines: Seq<Seq<char>>) -> Option<(nat, ErrorKind)>
    decreases lines.len(),
{
    if lines.len() == 0 {
        None
    } else {
        match first_fault(lines.drop_last()) {
            Some(fault) => Some(fault),
            None => match line_fault(lines.last()) {
                Some(kind) => Some((lines.len(), kind)),
                None => None,
            },
        }
    }
}

/// The lines that are no partition lines, in their order.
pub open spec fn header_lines_of(lines: Seq<Seq<char>>) -> Seq<Seq<char>> {
    lines.filter(|line: Seq<char>| !is_partition_line(line))
}

/// The partitions that the partition lines describe, in the order of the lines.
pub open spec fn partitions_of(lines: Seq<Seq<char>>) -> Seq<PartitionView> {
    lines.filter(|line: Seq<char>| is_partition_line(line)).map_values(
        |line: Seq<char>| parse_partition_line(line)->Ok_0,
    )
}

/// The device path of the first device line among the header lines.
pub open spec fn device_of(lines: Seq<Seq<char>>) -> Option<Seq<char>>
    decreases lines.len(),
{
    if lines.len() == 0 {
        None
    } else {
        match device_of(lines.drop_last()) {
            Some(path) => Some(path),
            None => if !is_partition_line(lines.last()) && is_device_line(lines.last()) {
                device_name_of(lines.last())
            } else {
                None
            },
        }
    }
}

/// The disk that the lines of a dump describe.
///
/// The first faulty line fails the whole dump.  Without a fault, the dump needs a device
/// line, and the device path a family.
pub open spec fn disk_of_lines(lines: Seq<Seq<char>>) -> Result<DiskView, DumpError> {
    match first_fault(lines) {
        Some((number, kind)) => Err(DumpError { kind, line: Some(number as usize) }),
        None => match device_of(lines) {
            None => Err(DumpError { kind: ErrorKind::MissingDeviceName, line: None }),
            Some(path) => if header_lines_of(lines).len() == 0 {
                Err(DumpError { kind: ErrorKind::MissingHeaderLines, line: None })
            } else {
                match family_of(path) {
                    None => Err(DumpError { kind: ErrorKind::UnrecognizedDeviceFamily, line: None }),
                    Some(family) => Ok(
                        DiskView {
                            name: path,
                            linux_block_device: family,
                            header_lines: header_lines_of(lines),
                            partitions: partitions_of(lines),
                        },
                    ),
                }
            },
        },
    }
}

/// The disk that the text of a dump describes.
pub open spec fn parse_dump(text: Seq<char>) -> Result<DiskView, DumpError> {
    disk_of_lines(lines(text))
}

/// The place, in `sorted`, of the first partition whose name does not follow the naming
/// of `family`; the length of `sorted` where every name does.
pub open spec fn mismatch_position(sorted: Seq<PartitionView>, family: LinuxBlockDevice) -> int
    decreases sorted.len(),
{
    if sorted.len() == 0 {
        0
    } else {
        let before = mismatch_position(sorted.drop_last(), family);
        if before < sorted.len() - 1 || split_name(family, sorted.last().name) is None {
            before
        } else {
            sorted.len() as int
        }
    }
}

/// `sorted` with its first `upto` partitions renamed by their place: the partition at
/// place `i`, counted from 0, gets the number `i + 1`.
pub open spec fn renumbered(sorted: Seq<PartitionView>, family: LinuxBlockDevice, upto: int) -> Seq<
    PartitionView,
> {
    Seq::new(
        sorted.len(),
        |i: int|
            if i < upto {
                sorted[i].redesignated(family, (i + 1) as usize)->0
            } else {
                sorted[i]
            },
    )
}

impl DiskView {
    /// The disk's family is the family of its device path.
    pub open spec fn well_formed(self) -> bool {
        family_of(self.name) == Some(self.linux_block_device)
    }

    /// The partitions in the order of their start blocks.
    pub open spec fn sorted_partitions(self) -> Seq<PartitionView> {
        stable_sort(self.partitions)
    }

    /// How many partitions, in start-block order, can be renamed before one's name does
    /// not follow the naming of the disk's family.
    pub open spec fn renamable(self) -> int {
        mismatch_position(self.sorted_partitions(), self.linux_block_device)
    }

    /// Whether every partition's name follows the naming of the disk's family.
    pub open spec fn can_rearrange(self) -> bool {
        self.renamable() == self.partitions.len()
    }

    /// The disk after its partitions were put in start-block order and renamed by their
    /// place, as far as their names allow.
    pub open spec fn rearranged(self) -> DiskView {
        DiskView {
            partitions: renumbered(
                self.sorted_partitions(),
                self.linux_block_device,
                self.renamable(),
            ),
            ..self
        }
    }

    /// The text of the dump: the header lines, then one line for each partition.
    pub open spec fn text(self) -> Seq<char> {
        unlines(self.header_lines + self.partitions.map_values(|p: PartitionView| p.line()))
    }
}

/// Before the mismatch position every name follows the family's naming; the name at the
/// position does not.
pub proof fn lemma_mismatch_position(sorted: Seq<PartitionView>, family: LinuxBlockDevice)
    ensures
        0 <= mismatch_position(sorted, family) <= sorted.len(),
        forall|i: int|
            0 <= i < mismatch_position(sorted, family) ==> split_name(
                family,
                (#[trigger] sorted[i]).name,
            ) is Some,
        mismatch_position(sorted, family) < sorted.len() ==> split_name(
            family,
            sorted[mismatch_position(sorted, family)].name,
        ) is None,
    decreases sorted.len(),
{
    if sorted.len() > 0 {
        let front = sorted.drop_last();
        lemma_mismatch_position(front, family);
        assert forall|i: int| 0 <= i < mismatch_position(sorted, family) implies split_name(
            family,
            (#[trigger] sorted[i]).name,
        ) is Some by {
            if i < front.len() {
                assert(sorted[i] == front[i]);
            }
        }
        if mismatch_position(sorted, family) < front.len() {
            assert(sorted[mismatch_position(sorted, family)] == front[mismatch_position(
                front,
                family,
            )]);
        }
    }
}

/// What a scan from the front finds is the mismatch position.
pub proof fn lemma_mismatch_position_is(
    sorted: Seq<PartitionView>,
    family: LinuxBlockDevice,
    at: int,
)
    requires
        0 <= at <= sorted.len(),
        forall|i: int| 0 <= i < at ==> split_name(family, (#[trigger] sorted[i]).name) is Some,
        at < sorted.len() ==> split_name(family, sorted[at].name) is None,
    ensures
        mismatch_position(sorted, family) == at,
    decreases sorted.len(),
{
    if sorted.len() > 0 {
        let front = sorted.drop_last();
        let front_at = if at < sorted.len() {
            at
        } else {
            at - 1
        };
        assert forall|i: int| 0 <= i < front_at implies split_name(
            family,
            (#[trigger] front[i]).name,
        ) is Some by {
            assert(front[i] == sorted[i]);
        }
        if at < front.len() {
            assert(front[at] == sorted[at]);
            lemma_mismatch_position_is(front, family, at);
        } else {
            lemma_mismatch_position_is(front, family, front.len() as int);
        }
    }
}

/// Whether `s` announces the disk's device.
pub fn is_sfdisk_device_name_line(s: &str) -> (r: bool)
    ensures
        r == is_device_line(s@),
{
    is_match(SFDISK_DEVICE_NAME_PATTERN, s)
}

/// Takes the device path out of what the device-name group of a device line holds.
/// Fails unless the pattern matched and the group took part.
pub fn device_name_from_group(group: Option<Option<&str>>) -> (r: Result<
    String,
    RegexCapturesError,
>)
    ensures
        match r {
            Ok(path) => device_name_of_group(group_view(group)) == Some(path@),
            Err(_) => device_name_of_group(group_view(group)) is None,
        },
{
    match group {
        Some(Some(path)) => Ok(String::from_str(path)),
        _ => Err(RegexCapturesError),
    }
}

/// The device path that the line `s` announces.
pub fn parse_sfdisk_device_name_line(s: &str) -> (r: Result<String, RegexCapturesError>)
    ensures
        match r {
            Ok(path) => device_name_of(s@) == Some(path@),
            Err(_) => device_name_of(s@) is None,
        },
{
    device_name_from_group(capture(SFDISK_DEVICE_NAME_PATTERN, s, DEVICE_NAME_GROUP))
}

/// A fault among the first lines is the fault of the whole dump.
pub proof fn lemma_first_fault_stays(lines: Seq<Seq<char>>, k: int)
    requires
        0 <= k <= lines.len(),
        first_fault(lines.take(k)) is Some,
    ensures
        first_fault(lines) == first_fault(lines.take(k)),
    decreases lines.len() - k,
{
    if k == lines.len() {
        assert(lines.take(k) == lines);
    } else {
        assert(lines.drop_last().take(k) == lines.take(k));
        lemma_first_fault_stays(lines.drop_last(), k);
    }
}

/// What one more line adds to what the lines before it gave.
pub proof fn lemma_scan_next_line(lines: Seq<Seq<char>>, i: int)
    requires
        0 <= i < lines.len(),
    ensures
        lines.take(i + 1).drop_last() == lines.take(i),
        lines.take(i + 1).last() == lines[i],
        header_lines_of(lines.take(i + 1)) == if is_partition_line(lines[i]) {
            header_lines_of(lines.take(i))
        } else {
            header_lines_of(lines.take(i)).push(lines[i])
        },
        partitions_of(lines.take(i + 1)) == if is_partition_line(lines[i]) {
            partitions_of(lines.take(i)).push(parse_partition_line(lines[i])->Ok_0)
        } else {
            partitions_of(lines.take(i))
        },
{
    let before = lines.take(i);
    let line = lines[i];
    assert(lines.take(i + 1) == before.push(line));
    assert(before.push(line).drop_last() == before);
    let is_header = |line: Seq<char>| !is_partition_line(line);
    let is_part = |line: Seq<char>| is_partition_line(line);
    let parsed = |line: Seq<char>| parse_partition_line(line)->Ok_0;
    before.lemma_filter_push(line, is_header);
    before.lemma_filter_push(line, is_part);
    if is_partition_line(line) {
        before.filter(is_part).lemma_push_map_commute(parsed, line);
    }
}

impl Disk {
    /// A disk named `disk_name` with the given lines and partitions.  Fails where the
    /// name belongs to no family.
    pub fn new(disk_name: &str, header_lines: Vec<String>, partitions: Vec<Partition>) -> (r:
        Result<Self, ErrorKind>)
        ensures
            match r {
                Ok(disk) => {
                    &&& disk@.well_formed()
                    &&& disk.name@ == disk_name@
                    &&& disk.header_lines == header_lines
                    &&& disk.partitions == partitions
                },
                Err(kind) => family_of(disk_name@) is None && kind
                    == ErrorKind::UnrecognizedDeviceFamily,
            },
    {
        match linux_blk_name(disk_name) {
            Some(family) => Ok(
                Disk {
                    name: String::from_str(disk_name),
                    linux_block_device: family,
                    header_lines,
                    partitions,
                },
            ),
            None => Err(ErrorKind::UnrecognizedDeviceFamily),
        }
    }

    /// Puts the partitions in the order of their start blocks, partitions of equal start
    /// in the order they had, and renames them by their place: the first gets the number
    /// 1.  A name keeps everything before its partition number.
    ///
    /// Stops at the first partition, in that order, whose name does not follow the naming
    /// of the disk's family, and reports it; the partitions before it are renamed by then,
    /// and all are in start-block order.
    pub fn rearrange(&mut self) -> (r: Result<(), RearrangeError>)
        ensures
            final(self)@ == old(self)@.rearranged(),
            old(self)@.well_formed() ==> final(self)@.well_formed(),
            final(self)@.partitions.len() == old(self)@.partitions.len(),
            is_sorted_by_start(final(self)@.partitions),
            match r {
                Ok(_) => {
                    &&& old(self)@.can_rearrange()
                    &&& forall|i: int|
                        0 <= i < final(self)@.partitions.len() ==> (
                        #[trigger] final(self)@.partitions[i]).designation == i + 1
                },
                Err(e) => {
                    &&& !old(self)@.can_rearrange()
                    &&& e.position == old(self)@.renamable()
                    &&& e.name@ == old(self)@.sorted_partitions()[e.position as int].name
                },
            },
    {
        let family = self.linux_block_device;
        sort_by_start_block(&mut self.partitions);
        let ghost sorted = partition_views(self.partitions@);
        let n = self.partitions.len();
        proof {
            lemma_stable_sort_len(old(self)@.partitions);
        }
        let mut i: usize = 0;
        while i < n
            invariant
                i <= n,
                n == self.partitions.len(),
                n == sorted.len(),
                n == old(self)@.partitions.len(),
                family == self.linux_block_device,
                self.name == old(self).name,
                self.linux_block_device == old(self).linux_block_device,
                self.header_lines == old(self).header_lines,
                sorted == old(self)@.sorted_partitions(),
                forall|k: int| 0 <= k < i ==> split_name(family, (#[trigger] sorted[k]).name) is Some,
                partition_views(self.partitions@) == renumbered(sorted, family, i as int),
            decreases n - i,
        {
            let ghost before = partition_views(self.partitions@);
            assert(before[i as int] == sorted[i as int]);
            assert(self.partitions@[i as int]@ == before[i as int]);
            match self.partitions[i].redesignate(family, i + 1) {
                Ok(_) => {
                    proof {
                        let now = partition_views(self.partitions@);
                        assert(now == renumbered(sorted, family, i + 1)) by {
                            assert forall|k: int| 0 <= k < n implies now[k] == renumbered(
                                sorted,
                                family,
                                i + 1,
                            )[k] by {
                                if k != i {
                                    assert(now[k] == before[k]);
                                }
                            }
                        }
                    }
                },
                Err(_) => {
                    proof {
                        lemma_mismatch_position_is(sorted, family, i as int);
                        assert(partition_views(self.partitions@) == before);
                        lemma_rearranged(old(self)@);
                    }
                    let name = self.partitions[i].name.clone();
                    return Err(RearrangeError { position: i, name });
                },
            }
            i = i + 1;
        }
        proof {
            lemma_mismatch_position_is(sorted, family, n as int);
            lemma_rearranged(old(self)@);
        }
        Ok(())
    }

    /// Writes the disk as the text of a dump: the header lines as they were read, then
    /// one line for each partition, in their order.
    pub fn to_text(&self) -> (out: String)
        ensures
            out@ == self@.text(),
    {
        let mut out = write_lines(&self.header_lines);
        let n = self.partitions.len();
        let ghost head = views(self.header_lines@);
        let ghost parts = partition_views(self.partitions@).map_values(|p: PartitionView| p.line());
        let mut i: usize = 0;
        assert(head + parts.take(0) == head);
        while i < n
            invariant
                i <= n,
                n == self.partitions.len(),
                n == parts.len(),
                head == views(self.header_lines@),
                parts == partition_views(self.partitions@).map_values(|p: PartitionView| p.line()),
                out@ == unlines(head + parts.take(i as int)),
            decreases n - i,
        {
            let line = self.partitions[i].to_text();
            proof {
                reveal_strlit("\n");
                let grown = head + parts.take(i + 1);
                assert(grown.drop_last() == head + parts.take(i as int));
                assert(grown.last() == line@);
            }
            out.append(line.as_str());
            out.append("\n");
            i = i + 1;
        }
        assert(parts.take(n as int) == parts);
        out
    }
}

impl Default for Disk {
    fn default() -> (disk: Self)
        ensures
            disk@ == (DiskView {
                name: Seq::empty(),
                linux_block_device: LinuxBlockDevice::SCSI,
                header_lines: Seq::empty(),
                partitions: Seq::empty(),
            }),
    {
        let disk = Disk {
            name: String::new(),
            linux_block_device: LinuxBlockDevice::SCSI,
            header_lines: Vec::new(),
            partitions: Vec::new(),
        };
        assert(views(disk.header_lines@) == Seq::<Seq<char>>::empty());
        assert(partition_views(disk.partitions@) == Seq::<PartitionView>::empty());
        disk
    }
}

/// The view of an optional string.
pub open spec fn opt_string_view(s: Option<String>) -> Option<Seq<char>> {
    match s {
        Some(t) => Some(t@),
        None => None,
    }
}

/// Reads the text of a dump into a disk.
pub fn parse_sfdisk_full_disk(prog_input: String) -> (r: Result<Disk, DumpError>)
    ensures
        match r {
            Ok(disk) => parse_dump(prog_input@) == Ok::<DiskView, DumpError>(disk@)
                && disk@.well_formed(),
            Err(e) => parse_dump(prog_input@) == Err::<DiskView, DumpError>(e),
        },
{
    let input_lines = split_lines(prog_input.as_str());
    let ghost all = views(input_lines@);
    let n = input_lines.len();
    let mut device_name: Option<String> = None;
    let mut header_lines: Vec<String> = Vec::new();
    let mut partitions: Vec<Partition> = Vec::new();
    let mut i: usize = 0;
    proof {
        assert(all.take(0) == Seq::<Seq<char>>::empty());
        reveal(Seq::filter);
        assert(header_lines_of(all.take(0)) == Seq::<Seq<char>>::empty());
        assert(partitions_of(all.take(0)) == Seq::<PartitionView>::empty());
        assert(views(header_lines@) == Seq::<Seq<char>>::empty());
        assert(partition_views(partitions@) == Seq::<PartitionView>::empty());
    }
    while i < n
        invariant
            i <= n,
            n == input_lines.len(),
            all == views(input_lines@),
            all == lines(prog_input@),
            first_fault(all.take(i as int)) is None,
            opt_string_view(device_name) == device_of(all.take(i as int)),
            views(header_lines@) == header_lines_of(all.take(i as int)),
            partition_views(partitions@) == partitions_of(all.take(i as int)),
        decreases n - i,
    {
        let line = input_lines[i].as_str();
        proof {
            assert(line@ == all[i as int]);
            lemma_scan_next_line(all, i as int);
        }
        if is_sfdisk_partition_line(line) {
            match parse_sfdisk_partition_line(line) {
                Ok(partition) => {
                    proof {
                        partitions@.lemma_push_map_commute(|p: Partition| p@, partition);
                    }
                    partitions.push(partition);
                },
                Err(kind) => {
                    proof {
                        lemma_first_fault_stays(all, i + 1);
                    }
                    return Err(DumpError { kind, line: Some(i + 1) });
                },
            }
        } else {
            if is_sfdisk_device_name_line(line) {
                match parse_sfdisk_device_name_line(line) {
                    Ok(path) => {
                        if device_name.is_none() {
                            device_name = Some(path);
                        }
                    },
                    Err(_) => {
                        proof {
                            lemma_first_fault_stays(all, i + 1);
                        }
                        return Err(
                            DumpError { kind: ErrorKind::MalformedDeviceLine, line: Some(i + 1) },
                        );
                    },
                }
            }
            let kept = String::from_str(line);
            proof {
                header_lines@.lemma_push_map_commute(|s: String| s@, kept);
            }
            header_lines.push(kept);
        }
        i = i + 1;
    }
    assert(all.take(n as int) == all);
    let path = match device_name {
        Some(path) => path,
        None => {
            return Err(DumpError { kind: ErrorKind::MissingDeviceName, line: None });
        },
    };
    if header_lines.len() == 0 {
        return Err(DumpError { kind: ErrorKind::MissingHeaderLines, line: None });
    }
    match Disk::new(path.as_str(), header_lines, partitions) {
        Ok(disk) => Ok(disk),
        Err(kind) => Err(DumpError { kind, line: None }),
    }
}

} // verus!
