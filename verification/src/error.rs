//! What can go wrong while a dump is read or its partitions are renumbered.

use vstd::prelude::*;
use vstd::string::*;
use crate::text::decimal::{decimal_digits, render_usize};

verus! {

/// A text did not match the pattern it was held against.
#[derive(Clone, Copy, Debug, PartialEq, Eq)]
pub struct RegexError;

/// A capture group that was asked for holds nothing: the pattern found no match, or the
/// group took no part in it.
#[derive(Clone, Copy, Debug, PartialEq, Eq)]
pub struct RegexCapturesError;

/// The kinds of failure.
#[derive(Clone, Copy, Debug, PartialEq, Eq)]
pub enum ErrorKind {
    /// The device path belongs to none of the known families.
    UnrecognizedDeviceFamily,
    /// A line does not have the shape of a partition line.
    MalformedPartitionLine,
    /// A `device:` line names no device path.
    MalformedDeviceLine,
    /// Digits of a partition line write no number that fits.
    NumericParseFailure,
    /// The dump has no `device:` line.
    MissingDeviceName,
    /// The dump has no line besides partition lines.
    MissingHeaderLines,
    /// A partition's name does not follow the naming of its disk's family.
    PartitionNameMismatch,
}

/// A failure to read a dump, with the line of the dump that caused it.
#[derive(Clone, Copy, Debug, PartialEq, Eq)]
pub struct DumpError {
    pub kind: ErrorKind,
    /// The line's number, counted from 1; `None` where no single line is at fault.
    pub line: Option<usize>,
}

/// A failure to renumber: the partition at `position` in start-block order, named `name`,
/// does not follow the naming of the disk's family.
#[derive(Clone, Debug, PartialEq, Eq)]
pub struct RearrangeError {
    pub position: usize,
    pub name: String,
}

/// The wording of each kind of failure.
pub open spec fn kind_text(kind: ErrorKind) -> Seq<char> {
    match kind {
        ErrorKind::UnrecognizedDeviceFamily => "disk name does not match a known Linux block device name"@,
        ErrorKind::MalformedPartitionLine => "bad partition line"@,
        ErrorKind::MalformedDeviceLine => "failed to parse device name from 'device' line"@,
        ErrorKind::NumericParseFailure => "failed to parse number"@,
        ErrorKind::MissingDeviceName => "missing device name"@,
        ErrorKind::MissingHeaderLines => "missing header lines"@,
        ErrorKind::PartitionNameMismatch => "partition name does not match the disk's device family"@,
    }
}

impl RegexError {
    /// The wording of this failure.
    pub fn message(&self) -> (r: String)
        ensures
            r@ == "text does not match regex"@,
    {
        String::from_str("text does not match regex")
    }
}

impl RegexCapturesError {
    /// The wording of this failure.
    pub fn message(&self) -> (r: String)
        ensures
            r@ == "regex capture failed"@,
    {
        String::from_str("regex capture failed")
    }
}

impl ErrorKind {
    /// The wording of this kind of failure.
    pub fn message(&self) -> (r: String)
        ensures
            r@ == kind_text(*self),
    {
        match self {
            ErrorKind::UnrecognizedDeviceFamily => String::from_str(
                "disk name does not match a known Linux block device name",
            ),
            ErrorKind::MalformedPartitionLine => String::from_str("bad partition line"),
            ErrorKind::MalformedDeviceLine => String::from_str(
                "failed to parse device name from 'device' line",
            ),
            ErrorKind::NumericParseFailure => String::from_str("failed to parse number"),
            ErrorKind::MissingDeviceName => String::from_str("missing device name"),
            ErrorKind::MissingHeaderLines => String::from_str("missing header lines"),
            ErrorKind::PartitionNameMismatch => String::from_str(
                "partition name does not match the disk's device family",
            ),
        }
    }
}

impl DumpError {
    /// What [`DumpError::message`] writes.
    pub open spec fn text(self) -> Seq<char> {
        match self.line {
            Some(n) => "line "@ + decimal_digits(n as nat) + ": "@ + kind_text(self.kind),
            None => kind_text(self.kind),
        }
    }

    /// The wording of this failure, led by the line's number where there is one.
    pub fn message(&self) -> (r: String)
        ensures
            r@ == self.text(),
    {
        match self.line {
            Some(n) => {
                let mut out = String::from_str("line ");
                out.append(render_usize(n).as_str());
                out.append(": ");
                out.append(self.kind.message().as_str());
                out
            },
            None => self.kind.message(),
        }
    }
}

impl RearrangeError {
    /// The kind of this failure.
    pub fn kind(&self) -> (k: ErrorKind)
        ensures
            k == ErrorKind::PartitionNameMismatch,
    {
        ErrorKind::PartitionNameMismatch
    }

    /// What [`RearrangeError::message`] writes.
    pub open spec fn text(self) -> Seq<char> {
        "failed to get partition number for "@ + self.name@
    }

    /// The wording of this failure, with the partition's name.
    pub fn message(&self) -> (r: String)
        ensures
            r@ == self.text(),
    {
        let mut out = String::from_str("failed to get partition number for ");
        out.append(self.name.as_str());
        out
    }
}

} // verus!
