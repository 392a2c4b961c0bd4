//! Renumbers the partitions of an `sfdisk -d` dump.
//!
//! A dump describes one disk: some header lines, among them the line that names the
//! device, and one line for each partition.  After partitions were deleted and created
//! out of order, their numbers no longer follow their places on the disk.  This library
//! reads a dump, puts the partitions in the order of their start blocks, renames them
//! `1, 2, 3, ...` by the naming of the device's family, and writes the dump again; every
//! other field of a line is kept word for word.
//!
//! ```text
//! text --parse_sfdisk_full_disk--> Disk --rearrange--> Disk --to_text--> text
//! ```
//!
//! # What is proved
//!
//! Every function is verified against a contract over plain values: a [`disk::Disk`]
//! is seen as a [`disk::DiskView`], a string as its `Seq<char>`.
//!
//! - [`text`] splits lines and words, reads and writes decimal numbers and searches
//!   text, each against a model of its own.
//! - [`partition::order`] orders partitions by start block; the order is proved to
//!   be sorted, to keep partitions of equal start in their order, and to be the only
//!   order that does both.
//! - [`disk`] reads, renumbers and writes; [`disk::theorems`] relates the three.
//!
//! # What is trusted
//!
//! Which texts a pattern matches is decided by the `regex` crate and is not proved
//! here.  [`pattern`] holds the two functions that call it and names their results;
//! the contracts of the library say what is done with those results.

pub mod disk;
pub mod error;
pub mod linux;
pub mod partition;
pub mod pattern;
pub mod text;
