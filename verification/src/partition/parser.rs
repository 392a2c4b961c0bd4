//! Reading a partition line field by field, by rules that are keyed by a field's place.

use std::collections::HashMap;
use vstd::prelude::*;
use vstd::string::*;
use crate::error::ErrorKind;
use crate::partition::{Partition, PartitionView};
use crate::text::decimal::{parse_usize, parse_usize_spec};
use crate::text::find::{first_piece, piece_after_first, piece_before, same_text, second_piece};
use crate::text::words::{split_whitespace, views, words};

verus! {

broadcast use vstd::std_specs::hash::group_hash_axioms;

/// What a field of a partition line holds.
#[derive(Debug, Clone, Copy, PartialEq, Eq)]
pub enum SfdiskPartitionInfo {
    /// The partition's path: the device path, then the partition number.
    PartName,
    /// The separator between the path and the fields.
    PartNameSep,
    /// The text that announces the start block.
    StartText,
    /// The start block, up to the first comma.
    StartBlock,
}

/// The rules for the fields of a line: the key is a field's place, counted from 1; the
/// value says what the field holds and, for a separator or the start text, which text is
/// expected there.
pub type ParseMap<'a> = HashMap<usize, (SfdiskPartitionInfo, Option<&'a str>)>;

/// A line together with the rules to read it by.
pub struct LineParser<'a> {
    line: &'a str,
    map: ParseMap<'a>,
}

/// The partition `p` after one more field was read by `rule`.
///
/// A field without a rule joins the extras.  A path must hold `base` and, behind its
/// first occurrence, a number; it becomes the name, the number the designation.  A
/// separator or start text must be the expected text, and a rule that expects none
/// refuses every field.  A start block is the number before the field's first comma.
pub open spec fn read_field(
    p: PartitionView,
    rule: Option<(SfdiskPartitionInfo, Option<&str>)>,
    field: Seq<char>,
    base: Seq<char>,
) -> Result<PartitionView, ErrorKind> {
    match rule {
        None => Ok(PartitionView { extras: p.extras.push(field), ..p }),
        Some((SfdiskPartitionInfo::PartName, _)) => match second_piece(field, base) {
            None => Err(ErrorKind::MalformedPartitionLine),
            Some(digits) => match parse_usize_spec(digits) {
                None => Err(ErrorKind::NumericParseFailure),
                Some(number) => Ok(PartitionView { designation: number, name: field, ..p }),
            },
        },
        Some((SfdiskPartitionInfo::PartNameSep, expected))
        | Some((SfdiskPartitionInfo::StartText, expected)) => if expected is Some && field
            == expected->0@ {
            Ok(p)
        } else {
            Err(ErrorKind::MalformedPartitionLine)
        },
        Some((SfdiskPartitionInfo::StartBlock, _)) => match parse_usize_spec(
            first_piece(field, ","@),
        ) {
            None => Err(ErrorKind::NumericParseFailure),
            Some(number) => Ok(PartitionView { start_block: number, ..p }),
        },
    }
}

/// The rule for the field at place `place`, counted from 1.
pub open spec fn rule_at(rules: Map<usize, (SfdiskPartitionInfo, Option<&str>)>, place: nat) -> Option<
    (SfdiskPartitionInfo, Option<&str>),
> {
    if rules.contains_key(place as usize) {
        Some(rules[place as usize])
    } else {
        None
    }
}

/// The partition that `fields` give when they are read in their order, each by the rule
/// for its place, starting from an empty partition.  The first field that its rule
/// refuses fails the whole line.
pub open spec fn read_fields(
    fields: Seq<Seq<char>>,
    rules: Map<usize, (SfdiskPartitionInfo, Option<&str>)>,
    base: Seq<char>,
) -> Result<PartitionView, ErrorKind>
    decreases fields.len(),
{
    if fields.len() == 0 {
        Ok(
            PartitionView {
                designation: 0,
                start_block: 0,
                name: Seq::empty(),
                extras: Seq::empty(),
            },
        )
    } else {
        match read_fields(fields.drop_last(), rules, base) {
            Err(kind) => Err(kind),
            Ok(p) => read_field(p, rule_at(rules, fields.len()), fields.last(), base),
        }
    }
}

/// A failure among the first fields is the failure of the whole line.
pub proof fn lemma_read_fields_failure_stays(
    fields: Seq<Seq<char>>,
    rules: Map<usize, (SfdiskPartitionInfo, Option<&str>)>,
    base: Seq<char>,
    k: int,
)
    requires
        0 <= k <= fields.len(),
        read_fields(fields.take(k), rules, base) is Err,
    ensures
        read_fields(fields, rules, base) == read_fields(fields.take(k), rules, base),
    decreases fields.len() - k,
{
    if k == fields.len() {
        assert(fields.take(k) == fields);
    } else {
        assert(fields.drop_last().take(k) == fields.take(k));
        lemma_read_fields_failure_stays(fields.drop_last(), rules, base, k);
    }
}

impl<'a> LineParser<'a> {
    /// The line to read.
    pub closed spec fn line(&self) -> Seq<char> {
        self.line@
    }

    /// The rules to read the line by.
    pub closed spec fn rules(&self) -> Map<usize, (SfdiskPartitionInfo, Option<&'a str>)> {
        self.map@
    }

    /// A parser for `line` with the rules `map`.
    pub fn new(line: &'a str, map: ParseMap<'a>) -> (parser: Self)
        ensures
            parser.line() == line@,
            parser.rules() == map@,
    {
        LineParser { line, map }
    }

    /// Reads the line: its whitespace-separated fields, in their order, each by the rule
    /// for its place.  `base_name` is the device path that a partition path starts with.
    pub fn foo(&self, base_name: &'a str) -> (r: Result<Partition, ErrorKind>)
        ensures
            match r {
                Ok(p) => read_fields(words(self.line()), self.rules(), base_name@) == Ok::<
                    PartitionView,
                    ErrorKind,
                >(p@),
                Err(kind) => read_fields(words(self.line()), self.rules(), base_name@) == Err::<
                    PartitionView,
                    ErrorKind,
                >(kind),
            },
    {
        let fields = split_whitespace(self.line);
        let ghost all = views(fields@);
        let n = fields.len();
        let mut partition = Partition::default();
        let mut i: usize = 0;
        assert(all.take(0) == Seq::<Seq<char>>::empty());
        while i < n
            invariant
                i <= n,
                n == fields.len(),
                all == views(fields@),
                all == words(self.line()),
                self.rules() == self.map@,
                read_fields(all.take(i as int), self.rules(), base_name@) == Ok::<
                    PartitionView,
                    ErrorKind,
                >(partition@),
            decreases n - i,
        {
            let field = fields[i].as_str();
            proof {
                assert(all.take(i + 1).drop_last() == all.take(i as int));
                assert(all.take(i + 1).last() == field@);
            }
            let ghost before = partition@;
            let place: usize = i + 1;
            let rule = self.map.get(&place);
            assert(match rule {
                Some(r) => rule_at(self.rules(), place as nat) == Some(*r),
                None => rule_at(self.rules(), place as nat) is None,
            });
            let step: Result<(), ErrorKind> = match rule {
                None => {
                    let kept = String::from_str(field);
                    proof {
                        partition.extras@.lemma_push_map_commute(|s: String| s@, kept);
                    }
                    partition.extras.push(kept);
                    Ok(())
                },
                Some((SfdiskPartitionInfo::PartName, _)) => match piece_after_first(
                    field,
                    base_name,
                ) {
                    None => Err(ErrorKind::MalformedPartitionLine),
                    Some(digits) => match parse_usize(digits) {
                        None => Err(ErrorKind::NumericParseFailure),
                        Some(number) => {
                            partition.designation = number;
                            partition.name = String::from_str(field);
                            Ok(())
                        },
                    },
                },
                Some((SfdiskPartitionInfo::PartNameSep, expected)) | Some(
                    (SfdiskPartitionInfo::StartText, expected),
                ) => match expected {
                    Some(text) => if same_text(field, text) {
                        Ok(())
                    } else {
                        Err(ErrorKind::MalformedPartitionLine)
                    },
                    None => Err(ErrorKind::MalformedPartitionLine),
                },
                Some((SfdiskPartitionInfo::StartBlock, _)) => match parse_usize(
                    piece_before(field, ","),
                ) {
                    None => Err(ErrorKind::NumericParseFailure),
                    Some(number) => {
                        partition.start_block = number;
                        Ok(())
                    },
                },
            };
            match step {
                Ok(_) => {},
                Err(kind) => {
                    proof {
                        lemma_read_fields_failure_stays(all, self.rules(), base_name@, i + 1);
                    }
                    return Err(kind);
                },
            }
            i = i + 1;
        }
        assert(all.take(n as int) == all);
        Ok(partition)
    }
}

} // verus!
