//! One partition of a dump.

pub mod order;
pub mod parse;
pub mod parser;

use vstd::prelude::*;
use vstd::string::*;
use crate::error::RegexError;
use crate::linux::block::{linux_part_prefix_and_part_num, split_name, LinuxBlockDevice};
use crate::text::chars::is_digit;
use crate::text::decimal::{decimal_digits, lemma_decimal_digits, render_usize};
use crate::text::lines::is_plain_line;
use crate::text::words::{is_word, join, join_strings, lemma_joined_words_stay_on_the_line, views};

verus! {

/// What matters of a partition line: the fields by which partitions are ordered and
/// renamed, and the rest of the line, kept word by word.
#[derive(Debug, PartialEq, Clone)]
pub struct Partition {
    /// The partition's number, as its path ends.
    pub designation: usize,
    /// The first sector of the partition.
    pub start_block: usize,
    /// The full path, e.g. `/dev/sda1`.
    pub name: String,
    /// The words after `start= <N>,`, in their order.
    pub extras: Vec<String>,
}

/// A partition as plain values.
pub struct PartitionView {
    pub designation: usize,
    pub start_block: usize,
    pub name: Seq<char>,
    pub extras: Seq<Seq<char>>,
}

impl View for Partition {
    type V = PartitionView;

    open spec fn view(&self) -> PartitionView {
        PartitionView {
            designation: self.designation,
            start_block: self.start_block,
            name: self.name@,
            extras: views(self.extras@),
        }
    }
}

impl Default for Partition {
    fn default() -> (p: Self)
        ensures
            p@ == (PartitionView {
                designation: 0,
                start_block: 0,
                name: Seq::empty(),
                extras: Seq::empty(),
            }),
    {
        let p = Partition { designation: 0, start_block: 0, name: String::new(), extras: Vec::new() };
        assert(views(p.extras@) == Seq::<Seq<char>>::empty());
        p
    }
}

impl PartitionView {
    /// The dump line of this partition:
    /// `<name> : start= <start_block>, <extras joined by single spaces>`.
    pub open spec fn line(self) -> Seq<char> {
        self.name + " : start= "@ + decimal_digits(self.start_block as nat) + ", "@ + join(
            self.extras,
            " "@,
        )
    }

    /// This partition renamed to number `new_designation` within `family`: the name keeps
    /// everything before its partition number, the start block and extras stay.  `None`
    /// where the name does not follow the naming of `family`.
    pub open spec fn redesignated(self, family: LinuxBlockDevice, new_designation: usize) -> Option<
        PartitionView,
    > {
        match split_name(family, self.name) {
            Some((prefix, _)) => Some(
                PartitionView {
                    designation: new_designation,
                    start_block: self.start_block,
                    name: prefix + decimal_digits(new_designation as nat),
                    extras: self.extras,
                },
            ),
            None => None,
        }
    }
}

/// The line of a partition is one line: where the name holds no line feed and the extras
/// are words, writing the line and splitting the text into lines gives the line back.
pub proof fn lemma_written_line_is_plain(p: PartitionView)
    requires
        forall|k: int| 0 <= k < p.name.len() ==> #[trigger] p.name[k] != '\n',
        forall|i: int| 0 <= i < p.extras.len() ==> is_word(#[trigger] p.extras[i]),
    ensures
        is_plain_line(p.line()),
{
    reveal_strlit(" : start= ");
    reveal_strlit(", ");
    reveal_strlit(" ");
    let colon = " : start= "@;
    let digits = decimal_digits(p.start_block as nat);
    let comma = ", "@;
    let tail = join(p.extras, " "@);
    assert(" "@ == seq![' ']);
    lemma_decimal_digits(p.start_block as nat);
    lemma_joined_words_stay_on_the_line(p.extras);
    let line = p.line();
    let a = p.name.len() as int;
    let b = a + colon.len();
    let c = b + digits.len();
    let d = c + comma.len();
    assert(line == p.name + colon + digits + comma + tail);
    assert forall|k: int| 0 <= k < line.len() implies #[trigger] line[k] != '\n' by {
        if k < a {
            assert(line[k] == p.name[k]);
        } else if k < b {
            assert(line[k] == colon[k - a]);
        } else if k < c {
            assert(line[k] == digits[k - b]);
            assert(is_digit(digits[k - b]));
        } else if k < d {
            assert(line[k] == comma[k - c]);
        } else {
            assert(line[k] == tail[k - d]);
        }
    }
    if p.extras.len() > 0 {
        assert(line.last() == tail.last());
    } else {
        assert(tail.len() == 0);
        assert(line.last() == comma[1]);
    }
}

impl Partition {
    /// Writes the partition as a line of a dump.
    pub fn to_text(&self) -> (out: String)
        ensures
            out@ == self@.line(),
    {
        let mut out = self.name.clone();
        out.append(" : start= ");
        out.append(render_usize(self.start_block).as_str());
        out.append(", ");
        out.append(join_strings(&self.extras, " ").as_str());
        out
    }

    /// Gives the partition the number `new_designation`: the name keeps its prefix by the
    /// naming of `blk_dev` and gets the new number as its suffix.  Fails, and changes
    /// nothing, where the name does not follow that naming.
    pub fn redesignate(&mut self, blk_dev: LinuxBlockDevice, new_designation: usize) -> (r: Result<
        (),
        RegexError,
    >)
        ensures
            match r {
                Ok(_) => old(self)@.redesignated(blk_dev, new_designation) == Some(final(self)@),
                Err(_) => old(self)@.redesignated(blk_dev, new_designation) is None && *final(self)
                    == *old(self),
            },
    {
        let renamed = match linux_part_prefix_and_part_num(blk_dev, self.name.as_str()) {
            Ok((prefix, _)) => {
                let mut name = String::from_str(prefix);
                name.append(render_usize(new_designation).as_str());
                name
            },
            Err(e) => {
                return Err(e);
            },
        };
        self.name = renamed;
        self.designation = new_designation;
        Ok(())
    }
}

} // verus!
