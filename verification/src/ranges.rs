//! Comparing the section ranges that two elves were assigned.

use crate::text::{parse_size, parsed_size, pieces_of, split_on};
use itertools::Itertools;
use vstd::prelude::*;

verus! {

/// The sections from `start` to `end`, both included. A range whose start
/// lies behind its end holds no section.
#[derive(Clone, Copy, Debug, PartialEq, Eq, Structural)]
pub struct Sections {
    pub start: usize,
    pub end: usize,
}

/// `Itertools::collect_tuple` for a pair: both items if the list holds
/// exactly two, else `None`.
#[verifier::external_body]
fn exactly_two(items: Vec<String>) -> (r: Option<(String, String)>)
    ensures
        match r {
            Some((first, second)) => items@.len() == 2 && first@ == items@[0]@ && second@
                == items@[1]@,
            None => items@.len() != 2,
        },
{
    items.into_iter().collect_tuple()
}

/// The range that a text of the form `start-end` denotes.
pub open spec fn parsed_sections(s: Seq<char>) -> Option<Sections> {
    let pieces = split_on(s, '-');
    if pieces.len() == 2 {
        match (parsed_size(pieces[0]), parsed_size(pieces[1])) {
            (Some(start), Some(end)) => Some(Sections { start, end }),
            _ => None,
        }
    } else {
        None
    }
}

/// The two ranges that a line of the form `range,range` denotes.
pub open spec fn parsed_pair(line: Seq<char>) -> Option<(Sections, Sections)> {
    let pieces = split_on(line, ',');
    if pieces.len() == 2 {
        match (parsed_sections(pieces[0]), parsed_sections(pieces[1])) {
            (Some(first), Some(second)) => Some((first, second)),
            _ => None,
        }
    } else {
        None
    }
}

impl Sections {
    /// Section `x` belongs to the range.
    pub open spec fn holds(&self, x: usize) -> bool {
        self.start <= x <= self.end
    }

    /// One of the two ranges holds both ends of the other.
    pub open spec fn one_contains(pair: (Sections, Sections)) -> bool {
        (pair.0.holds(pair.1.start) && pair.0.holds(pair.1.end)) || (pair.1.holds(pair.0.start)
            && pair.1.holds(pair.0.end))
    }

    /// One of the two ranges holds an end of the other.
    pub open spec fn one_overlaps(pair: (Sections, Sections)) -> bool {
        pair.0.holds(pair.1.start) || pair.0.holds(pair.1.end) || pair.1.holds(pair.0.start)
            || pair.1.holds(pair.0.end)
    }

    /// Whether the section belongs to the range.
    pub fn contains(&self, x: usize) -> (r: bool)
        ensures
            r == self.holds(x),
    {
        self.start <= x && x <= self.end
    }

    /// Whether the range holds both ends of the other.
    pub fn contains_range(&self, other: &Sections) -> (r: bool)
        ensures
            r == (self.holds(other.start) && self.holds(other.end)),
    {
        self.contains(other.start) && self.contains(other.end)
    }

    /// Whether the range holds an end of the other.
    pub fn overlaps_range(&self, other: &Sections) -> (r: bool)
        ensures
            r == (self.holds(other.start) || self.holds(other.end)),
    {
        self.contains(other.start) || self.contains(other.end)
    }

    /// Reads a range from a text of the form `start-end`, or returns `None`
    /// if the text has another form.
    pub fn parse(input: &str) -> (r: Option<Sections>)
        ensures
            r == parsed_sections(input@),
    {
        let pieces = pieces_of(input, '-');
        match exactly_two(pieces) {
            Some((first, second)) => {
                match (parse_size(first.as_str()), parse_size(second.as_str())) {
                    (Some(start), Some(end)) => Some(Sections { start, end }),
                    _ => None,
                }
            },
            None => None,
        }
    }

    /// Reads a range from a text of the form `start-end`.
    pub fn from_str(input: &str) -> (r: Sections)
        requires
            parsed_sections(input@) is Some,
        ensures
            Some(r) == parsed_sections(input@),
    {
        match Sections::parse(input) {
            Some(range) => range,
            None => Sections { start: 0, end: 0 },
        }
    }

    /// Reads the two ranges of a line of the form `range,range`, or returns
    /// `None` if the line has another form.
    pub fn parse_pair(line: &str) -> (r: Option<(Sections, Sections)>)
        ensures
            r == parsed_pair(line@),
    {
        let pieces = pieces_of(line, ',');
        match exactly_two(pieces) {
            Some((first, second)) => {
                match (Sections::parse(first.as_str()), Sections::parse(second.as_str())) {
                    (Some(first), Some(second)) => Some((first, second)),
                    _ => None,
                }
            },
            None => None,
        }
    }
}

/// The number of pairs among the first `n` in which one range contains the
/// other.
pub open spec fn contained_among(pairs: Seq<(Sections, Sections)>, n: int) -> nat
    decreases n,
{
    if n <= 0 {
        0
    } else {
        contained_among(pairs, n - 1) + if Sections::one_contains(pairs[n - 1]) {
            1nat
        } else {
            0nat
        }
    }
}

/// The number of pairs among the first `n` in which the ranges overlap.
pub open spec fn overlapping_among(pairs: Seq<(Sections, Sections)>, n: int) -> nat
    decreases n,
{
    if n <= 0 {
        0
    } else {
        overlapping_among(pairs, n - 1) + if Sections::one_overlaps(pairs[n - 1]) {
            1nat
        } else {
            0nat
        }
    }
}

/// The number of pairs in which one range contains the other.
pub fn count_contained(pairs: &Vec<(Sections, Sections)>) -> (count: usize)
    ensures
        count == contained_among(pairs@, pairs@.len() as int),
{
    let mut count: usize = 0;
    let mut i: usize = 0;
    while i < pairs.len()
        invariant
            0 <= i <= pairs@.len(),
            count == contained_among(pairs@, i as int),
            count <= i,
        decreases pairs@.len() - i,
    {
        let (first, second) = pairs[i];
        if first.contains_range(&second) || second.contains_range(&first) {
            count = count + 1;
        }
        i = i + 1;
    }
    count
}

/// The number of pairs in which the ranges overlap.
pub fn count_overlapping(pairs: &Vec<(Sections, Sections)>) -> (count: usize)
    ensures
        count == overlapping_among(pairs@, pairs@.len() as int),
{
    let mut count: usize = 0;
    let mut i: usize = 0;
    while i < pairs.len()
        invariant
            0 <= i <= pairs@.len(),
            count == overlapping_among(pairs@, i as int),
            count <= i,
        decreases pairs@.len() - i,
    {
        let (first, second) = pairs[i];
        if first.overlaps_range(&second) || second.overlaps_range(&first) {
            count = count + 1;
        }
        i = i + 1;
    }
    count
}

} // verus!
