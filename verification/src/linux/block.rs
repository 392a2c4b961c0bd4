//! Device families: which family a device path belongs to, and where in a partition path
//! the partition number starts.
//!
//! NVMe and MMC paths put a `p` between the device and the partition number
//! (`/dev/nvme0n1p3`, `/dev/mmcblk0p2`); SCSI and virtio paths do not (`/dev/sda3`,
//! `/dev/vda3`).  A partition path can therefore only be taken apart once the family is known.

use vstd::prelude::*;
use crate::error::RegexError;
use crate::pattern::{capture, captured, group_view, is_match, pattern_matches};

verus! {

/// The families of block device names.
#[derive(Clone, Copy, Debug, PartialEq, Eq, Hash)]
pub enum LinuxBlockDevice {
    /// SCSI, ATA, and SATA
    SCSI,
    /// Virtual devices, e.g. `/dev/vdX`
    VIRT,
    /// eMMC storage, SD cards, and other NAND/NOR flash
    MMCBLK,
    /// NVMe devices
    NVME,
}

/// A SCSI device name: `sda`, `sdb`, ...
pub const SCSI_REGEX: &'static str = "sd[a-z]";

/// A virtio device name: `vda`, `vdb`, ...
pub const VIRT_REGEX: &'static str = "vd[a-z]";

/// An NVMe device name: controller and namespace, `nvme0n1`.
pub const NVME_REGEX: &'static str = r"nvme\d+[n]\d+";

/// An MMC device name: `mmcblk0`.
pub const MMBCLK_REGEX: &'static str = r"mmcblk\d+";

/// A SCSI partition path: the device, then the number.
pub const SCSI_PART_REGEX: &'static str = r"(?P<prefix>/dev/sd[a-z])(?P<part_num>\d+)";

/// A virtio partition path: the device, then the number.
pub const VIRT_PART_REGEX: &'static str = r"(?P<prefix>/dev/vd[a-z])(?P<part_num>\d+)";

/// An NVMe partition path: the device, a `p`, then the number.  The `p` belongs to the
/// prefix.
pub const NVME_PART_REGEX: &'static str = r"(?P<prefix>/dev/nvme\d+[n]\d+[p])(?P<part_num>\d+)";

/// An MMC partition path: the device, a `p`, then the number.  The `p` belongs to the
/// prefix.
pub const MMBCLK_PART_REGEX: &'static str = r"(?P<prefix>/dev/mmcblk\d+[p])(?P<part_num>\d+)";

/// The name of the capture group that holds everything before the partition number.
pub const PREFIX_GROUP: &'static str = "prefix";

/// The name of the capture group that holds the partition number.
pub const PART_NUM_GROUP: &'static str = "part_num";

impl Default for LinuxBlockDevice {
    fn default() -> (r: Self)
        ensures
            r == LinuxBlockDevice::SCSI,
    {
        LinuxBlockDevice::SCSI
    }
}

impl LinuxBlockDevice {
    /// The pattern that recognizes a device name of this family.
    pub open spec fn device_pattern(self) -> Seq<char> {
        match self {
            LinuxBlockDevice::SCSI => SCSI_REGEX@,
            LinuxBlockDevice::VIRT => VIRT_REGEX@,
            LinuxBlockDevice::MMCBLK => MMBCLK_REGEX@,
            LinuxBlockDevice::NVME => NVME_REGEX@,
        }
    }

    /// The pattern that takes a partition path of this family apart.
    pub open spec fn partition_pattern(self) -> Seq<char> {
        match self {
            LinuxBlockDevice::SCSI => SCSI_PART_REGEX@,
            LinuxBlockDevice::VIRT => VIRT_PART_REGEX@,
            LinuxBlockDevice::MMCBLK => MMBCLK_PART_REGEX@,
            LinuxBlockDevice::NVME => NVME_PART_REGEX@,
        }
    }

    /// The pattern that recognizes a device name of this family.
    pub fn device_regex(self) -> (r: &'static str)
        ensures
            r@ == self.device_pattern(),
    {
        match self {
            LinuxBlockDevice::SCSI => SCSI_REGEX,
            LinuxBlockDevice::VIRT => VIRT_REGEX,
            LinuxBlockDevice::MMCBLK => MMBCLK_REGEX,
            LinuxBlockDevice::NVME => NVME_REGEX,
        }
    }

    /// The pattern that takes a partition path of this family apart.
    pub fn partition_regex(self) -> (r: &'static str)
        ensures
            r@ == self.partition_pattern(),
    {
        match self {
            LinuxBlockDevice::SCSI => SCSI_PART_REGEX,
            LinuxBlockDevice::VIRT => VIRT_PART_REGEX,
            LinuxBlockDevice::MMCBLK => MMBCLK_PART_REGEX,
            LinuxBlockDevice::NVME => NVME_PART_REGEX,
        }
    }
}

/// The first family, in the order SCSI, VIRT, MMCBLK, NVME, whose pattern matched.
pub open spec fn first_family(scsi: bool, virt: bool, mmcblk: bool, nvme: bool) -> Option<
    LinuxBlockDevice,
> {
    if scsi {
        Some(LinuxBlockDevice::SCSI)
    } else if virt {
        Some(LinuxBlockDevice::VIRT)
    } else if mmcblk {
        Some(LinuxBlockDevice::MMCBLK)
    } else if nvme {
        Some(LinuxBlockDevice::NVME)
    } else {
        None
    }
}

/// The family of a device name: the first, in the order SCSI, VIRT, MMCBLK, NVME, whose
/// device pattern finds a match in the name.
pub open spec fn family_of(device_name: Seq<char>) -> Option<LinuxBlockDevice> {
    first_family(
        pattern_matches(LinuxBlockDevice::SCSI.device_pattern(), device_name),
        pattern_matches(LinuxBlockDevice::VIRT.device_pattern(), device_name),
        pattern_matches(LinuxBlockDevice::MMCBLK.device_pattern(), device_name),
        pattern_matches(LinuxBlockDevice::NVME.device_pattern(), device_name),
    )
}

/// The prefix and the partition number that two capture groups hold, if both hold one.
pub open spec fn parts_of_groups(
    prefix: Option<Option<Seq<char>>>,
    part_num: Option<Option<Seq<char>>>,
) -> Option<(Seq<char>, Seq<char>)> {
    match (prefix, part_num) {
        (Some(Some(p)), Some(Some(n))) => Some((p, n)),
        _ => None,
    }
}

/// A partition path of `family` taken apart: everything before the partition number
/// (with the `p` of NVMe and MMC paths), and the digits of the number.
pub open spec fn split_name(family: LinuxBlockDevice, path: Seq<char>) -> Option<
    (Seq<char>, Seq<char>),
> {
    parts_of_groups(
        captured(family.partition_pattern(), path, PREFIX_GROUP@),
        captured(family.partition_pattern(), path, PART_NUM_GROUP@),
    )
}

/// Picks the family from the answers of the four device patterns, SCSI first.
pub fn family_of_matches(scsi: bool, virt: bool, mmcblk: bool, nvme: bool) -> (r: Option<
    LinuxBlockDevice,
>)
    ensures
        r == first_family(scsi, virt, mmcblk, nvme),
{
    if scsi {
        Some(LinuxBlockDevice::SCSI)
    } else if virt {
        Some(LinuxBlockDevice::VIRT)
    } else if mmcblk {
        Some(LinuxBlockDevice::MMCBLK)
    } else if nvme {
        Some(LinuxBlockDevice::NVME)
    } else {
        None
    }
}

/// The family that `device_name` belongs to, if any.
pub fn linux_blk_name(device_name: &str) -> (r: Option<LinuxBlockDevice>)
    ensures
        r == family_of(device_name@),
{
    let scsi = is_match(LinuxBlockDevice::SCSI.device_regex(), device_name);
    let virt = is_match(LinuxBlockDevice::VIRT.device_regex(), device_name);
    let mmcblk = is_match(LinuxBlockDevice::MMCBLK.device_regex(), device_name);
    let nvme = is_match(LinuxBlockDevice::NVME.device_regex(), device_name);
    family_of_matches(scsi, virt, mmcblk, nvme)
}

/// Puts together what the `prefix` and `part_num` groups of a partition pattern hold.
/// Fails unless the pattern matched and both groups took part.
pub fn prefix_and_part_num<'a>(
    prefix: Option<Option<&'a str>>,
    part_num: Option<Option<&'a str>>,
) -> (r: Result<(&'a str, &'a str), RegexError>)
    ensures
        match r {
            Ok((p, n)) => parts_of_groups(group_view(prefix), group_view(part_num)) == Some(
                (p@, n@),
            ),
            Err(_) => parts_of_groups(group_view(prefix), group_view(part_num)) is None,
        },
{
    match (prefix, part_num) {
        (Some(Some(p)), Some(Some(n))) => Ok((p, n)),
        _ => Err(RegexError),
    }
}

/// Takes the partition path `part_name` apart by the naming of `blk_dev`: `/dev/sda1000`
/// gives `("/dev/sda", "1000")`, `/dev/mmcblk10p2` gives `("/dev/mmcblk10p", "2")`.
pub fn linux_part_prefix_and_part_num<'a>(blk_dev: LinuxBlockDevice, part_name: &'a str) -> (r:
    Result<(&'a str, &'a str), RegexError>)
    ensures
        match r {
            Ok((p, n)) => split_name(blk_dev, part_name@) == Some((p@, n@)),
            Err(_) => split_name(blk_dev, part_name@) is None,
        },
{
    let prefix = capture(blk_dev.partition_regex(), part_name, PREFIX_GROUP);
    let part_num = capture(blk_dev.partition_regex(), part_name, PART_NUM_GROUP);
    prefix_and_part_num(prefix, part_num)
}

} // verus!
