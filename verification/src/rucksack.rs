//! Finding the item that the compartments of a rucksack, or the rucksacks
//! of a group, have in common.

use crate::tally::{lemma_tally_grows, lemma_tally_lost, tally};
use crate::text::{chars_of, lines_of, split_lines, texts};
use vstd::prelude::*;

verus! {

/// The items of a rucksack, one letter each.
#[derive(Debug)]
pub struct Rucksack(pub Vec<char>);

/// `item` occurs in both lists, and nothing else does.
pub open spec fn sole_common(item: char, a: Seq<char>, b: Seq<char>) -> bool {
    &&& a.contains(item)
    &&& b.contains(item)
    &&& forall|other: char| a.contains(other) && b.contains(other) ==> other == item
}

/// `item` occurs in all three lists, and nothing else does.
pub open spec fn sole_common3(item: char, a: Seq<char>, b: Seq<char>, c: Seq<char>) -> bool {
    &&& a.contains(item)
    &&& b.contains(item)
    &&& c.contains(item)
    &&& forall|other: char|
        a.contains(other) && b.contains(other) && c.contains(other) ==> other == item
}

/// The priority of an item: 1 to 26 for `a` to `z`, 27 to 52 for `A` to `Z`,
/// and 0 for anything else.
pub open spec fn priority(item: char) -> nat {
    if 'a' <= item <= 'z' {
        (item as nat - 96) as nat
    } else if 'A' <= item <= 'Z' {
        (item as nat - 38) as nat
    } else {
        0
    }
}

/// Whether `item` occurs among `items[from..to]`.
fn holds(items: &Vec<char>, from: usize, to: usize, item: char) -> (r: bool)
    requires
        from <= to <= items@.len(),
    ensures
        r == items@.subrange(from as int, to as int).contains(item),
{
    let ghost part = items@.subrange(from as int, to as int);
    let mut i: usize = from;
    while i < to
        invariant
            from <= i <= to <= items@.len(),
            part == items@.subrange(from as int, to as int),
            forall|k: int| 0 <= k < i - from ==> part[k] != item,
        decreases to - i,
    {
        if items[i] == item {
            assert(part[i - from] == item);
            return true;
        }
        i = i + 1;
    }
    false
}

impl Rucksack {
    /// The left compartment: the first half of the items, the shorter one
    /// if their number is odd.
    pub open spec fn left(&self) -> Seq<char> {
        self.0@.subrange(0, (self.0@.len() / 2) as int)
    }

    /// The right compartment: the items after the left one.
    pub open spec fn right(&self) -> Seq<char> {
        self.0@.subrange((self.0@.len() / 2) as int, self.0@.len() as int)
    }

    /// A rucksack with one item for each character of the text.
    pub fn from_str(input: &str) -> (r: Rucksack)
        ensures
            r.0@ == input@,
    {
        Rucksack(chars_of(input))
    }

    /// The one item that both compartments hold, or `None` if they share
    /// no item or more than one.
    pub fn find_odd_one(&self) -> (r: Option<char>)
        ensures
            match r {
                Some(item) => sole_common(item, self.left(), self.right()),
                None => forall|item: char| !sole_common(item, self.left(), self.right()),
            },
    {
        let n = self.0.len();
        let half = n / 2;
        let ghost left = self.left();
        let ghost right = self.right();
        let mut found: Option<char> = None;
        let mut i: usize = 0;
        while i < half
            invariant
                0 <= i <= half,
                half == n / 2,
                n == self.0@.len(),
                left == self.left(),
                right == self.right(),
                match found {
                    Some(item) => left.contains(item) && right.contains(item) && forall|k: int|
                        0 <= k < i && right.contains(#[trigger] left[k]) ==> left[k] == item,
                    None => forall|k: int| 0 <= k < i ==> !right.contains(#[trigger] left[k]),
                },
            decreases half - i,
        {
            let item = self.0[i];
            assert(left[i as int] == item);
            if holds(&self.0, half, n, item) {
                match found {
                    Some(other) => {
                        if other != item {
                            assert forall|c: char| !sole_common(c, left, right) by {
                                if sole_common(c, left, right) {
                                    assert(other == c && item == c);
                                }
                            }
                            return None;
                        }
                    },
                    None => {
                        found = Some(item);
                    },
                }
            }
            i = i + 1;
        }
        proof {
            match found {
                Some(item) => {
                    assert forall|other: char|
                        left.contains(other) && right.contains(other) implies other == item by {
                        let k = choose|k: int| 0 <= k < left.len() && left[k] == other;
                        assert(right.contains(left[k]));
                    }
                },
                None => {
                    assert forall|c: char| !sole_common(c, left, right) by {
                        if left.contains(c) && right.contains(c) {
                            let k = choose|k: int| 0 <= k < left.len() && left[k] == c;
                            assert(right.contains(left[k]));
                        }
                    }
                },
            }
        }
        found
    }

    /// The one item that both compartments hold.
    pub fn odd_one(&self) -> (item: char)
        requires
            exists|item: char| sole_common(item, self.left(), self.right()),
        ensures
            sole_common(item, self.left(), self.right()),
    {
        match self.find_odd_one() {
            Some(item) => item,
            None => 'a',
        }
    }

    /// The one item that all three rucksacks hold, or `None` if they share
    /// no item or more than one.
    pub fn find_common_one(a: &Rucksack, b: &Rucksack, c: &Rucksack) -> (r: Option<char>)
        ensures
            match r {
                Some(item) => sole_common3(item, a.0@, b.0@, c.0@),
                None => forall|item: char| !sole_common3(item, a.0@, b.0@, c.0@),
            },
    {
        let mut found: Option<char> = None;
        let mut i: usize = 0;
        assert(b.0@.subrange(0, b.0@.len() as int) =~= b.0@);
        assert(c.0@.subrange(0, c.0@.len() as int) =~= c.0@);
        while i < a.0.len()
            invariant
                0 <= i <= a.0@.len(),
                b.0@.subrange(0, b.0@.len() as int) == b.0@,
                c.0@.subrange(0, c.0@.len() as int) == c.0@,
                match found {
                    Some(item) => a.0@.contains(item) && b.0@.contains(item) && c.0@.contains(item)
                        && forall|k: int|
                        0 <= k < i && b.0@.contains(#[trigger] a.0@[k]) && c.0@.contains(a.0@[k])
                            ==> a.0@[k] == item,
                    None => forall|k: int|
                        0 <= k < i ==> !(b.0@.contains(#[trigger] a.0@[k]) && c.0@.contains(
                            a.0@[k],
                        )),
                },
            decreases a.0@.len() - i,
        {
            let item = a.0[i];
            if holds(&b.0, 0, b.0.len(), item) && holds(&c.0, 0, c.0.len(), item) {
                match found {
                    Some(other) => {
                        if other != item {
                            assert forall|x: char| !sole_common3(x, a.0@, b.0@, c.0@) by {
                                if sole_common3(x, a.0@, b.0@, c.0@) {
                                    assert(other == x && item == x);
                                }
                            }
                            return None;
                        }
                    },
                    None => {
                        found = Some(item);
                    },
                }
            }
            i = i + 1;
        }
        proof {
            match found {
                Some(item) => {
                    assert forall|other: char|
                        a.0@.contains(other) && b.0@.contains(other) && c.0@.contains(
                            other,
                        ) implies other == item by {
                        let k = choose|k: int| 0 <= k < a.0@.len() && a.0@[k] == other;
                        assert(b.0@.contains(a.0@[k]));
                    }
                },
                None => {
                    assert forall|x: char| !sole_common3(x, a.0@, b.0@, c.0@) by {
                        if a.0@.contains(x) && b.0@.contains(x) && c.0@.contains(x) {
                            let k = choose|k: int| 0 <= k < a.0@.len() && a.0@[k] == x;
                            assert(b.0@.contains(a.0@[k]));
                        }
                    }
                },
            }
        }
        found
    }

    /// The one item that all three rucksacks hold.
    pub fn common_one(a: &Rucksack, b: &Rucksack, c: &Rucksack) -> (item: char)
        requires
            exists|item: char| sole_common3(item, a.0@, b.0@, c.0@),
        ensures
            sole_common3(item, a.0@, b.0@, c.0@),
    {
        match Rucksack::find_common_one(a, b, c) {
            Some(item) => item,
            None => 'a',
        }
    }
}

/// The priority of an item.
pub fn char_to_number(input: char) -> (r: u32)
    ensures
        r == priority(input),
{
    if 'a' <= input && input <= 'z' {
        input as u32 - 96
    } else if 'A' <= input && input <= 'Z' {
        input as u32 - 38
    } else {
        0
    }
}

/// The left half of a line.
pub open spec fn left_of(line: Seq<char>) -> Seq<char> {
    line.subrange(0, (line.len() / 2) as int)
}

/// The right half of a line.
pub open spec fn right_of(line: Seq<char>) -> Seq<char> {
    line.subrange((line.len() / 2) as int, line.len() as int)
}

/// The priority of the one item that both lists hold, or `None` if there
/// is no such single item.
pub open spec fn shared_priority(a: Seq<char>, b: Seq<char>) -> Option<nat> {
    if exists|item: char| sole_common(item, a, b) {
        Some(priority(choose|item: char| sole_common(item, a, b)))
    } else {
        None
    }
}

/// The priority of the one item that all three lists hold, or `None` if
/// there is no such single item.
pub open spec fn shared_priority3(a: Seq<char>, b: Seq<char>, c: Seq<char>) -> Option<nat> {
    if exists|item: char| sole_common3(item, a, b, c) {
        Some(priority(choose|item: char| sole_common3(item, a, b, c)))
    } else {
        None
    }
}

/// The single shared item decides the shared priority.
proof fn lemma_shared_priority(a: Seq<char>, b: Seq<char>, item: char)
    requires
        sole_common(item, a, b),
    ensures
        shared_priority(a, b) == Some(priority(item)),
{
    let other = choose|other: char| sole_common(other, a, b);
    assert(other == item);
}

/// The single item shared by three decides their shared priority.
proof fn lemma_shared_priority3(a: Seq<char>, b: Seq<char>, c: Seq<char>, item: char)
    requires
        sole_common3(item, a, b, c),
    ensures
        shared_priority3(a, b, c) == Some(priority(item)),
{
    let other = choose|other: char| sole_common3(other, a, b, c);
    assert(other == item);
}

/// For each line, the priority of the one item that both of its halves hold.
pub open spec fn odd_priorities(lines: Seq<Seq<char>>) -> Seq<Option<nat>> {
    Seq::new(lines.len(), |i: int| shared_priority(left_of(lines[i]), right_of(lines[i])))
}

/// For each group of three lines, the priority of the one item that all
/// three hold.
pub open spec fn badge_priorities(lines: Seq<Seq<char>>) -> Seq<Option<nat>> {
    Seq::new(
        (lines.len() / 3) as nat,
        |g: int| shared_priority3(lines[3 * g], lines[3 * g + 1], lines[3 * g + 2]),
    )
}

/// The sum of the priorities of the items that sit in both compartments,
/// one rucksack per line. `None` if a rucksack has no such single item or
/// the sum does not fit.
pub fn sum_of_odd_ones(input: &str) -> (r: Option<u32>)
    ensures
        ({
            let values = odd_priorities(split_lines(input@));
            match r {
                Some(sum) => tally(values, values.len() as int) == Some(sum as nat),
                None => match tally(values, values.len() as int) {
                    Some(sum) => sum > u32::MAX,
                    None => true,
                },
            }
        }),
{
    let lines = lines_of(input);
    let ghost all = split_lines(input@);
    let ghost values = odd_priorities(all);
    let mut sum: u32 = 0;
    let mut i: usize = 0;
    while i < lines.len()
        invariant
            0 <= i <= lines@.len(),
            texts(lines@) == all,
            all == split_lines(input@),
            values == odd_priorities(all),
            tally(values, i as int) == Some(sum as nat),
        decreases lines@.len() - i,
    {
        let sack = Rucksack::from_str(lines[i].as_str());
        proof {
            assert(all[i as int] == lines@[i as int]@);
            assert(sack.left() == left_of(all[i as int]));
            assert(sack.right() == right_of(all[i as int]));
        }
        match sack.find_odd_one() {
            Some(item) => {
                let value = char_to_number(item);
                proof {
                    lemma_shared_priority(left_of(all[i as int]), right_of(all[i as int]), item);
                    assert(values[i as int] == Some(value as nat));
                }
                if value > u32::MAX - sum {
                    proof {
                        if tally(values, values.len() as int) is Some {
                            lemma_tally_grows(values, i + 1, values.len() as int);
                        }
                    }
                    return None;
                }
                sum = sum + value;
            },
            None => {
                proof {
                    assert(values[i as int] is None);
                    lemma_tally_lost(values, i + 1, values.len() as int);
                }
                return None;
            },
        }
        i = i + 1;
    }
    Some(sum)
}

/// The sum of the priorities of the badges, one group per three lines: the
/// badge is the one item that all three rucksacks hold. `None` if the
/// lines do not come in threes, a group has no such single item, or the
/// sum does not fit.
pub fn sum_of_badges(input: &str) -> (r: Option<u32>)
    ensures
        ({
            let lines = split_lines(input@);
            let values = badge_priorities(lines);
            match r {
                Some(sum) => lines.len() % 3 == 0 && tally(values, values.len() as int) == Some(
                    sum as nat,
                ),
                None => lines.len() % 3 != 0 || match tally(values, values.len() as int) {
                    Some(sum) => sum > u32::MAX,
                    None => true,
                },
            }
        }),
{
    let lines = lines_of(input);
    let ghost all = split_lines(input@);
    let ghost values = badge_priorities(all);
    if lines.len() % 3 != 0 {
        return None;
    }
    let groups = lines.len() / 3;
    let mut sum: u32 = 0;
    let mut g: usize = 0;
    while g < groups
        invariant
            0 <= g <= groups,
            groups == lines@.len() / 3,
            3 * groups == lines@.len(),
            texts(lines@) == all,
            all == split_lines(input@),
            values == badge_priorities(all),
            tally(values, g as int) == Some(sum as nat),
        decreases groups - g,
    {
        let a = Rucksack::from_str(lines[3 * g].as_str());
        let b = Rucksack::from_str(lines[3 * g + 1].as_str());
        let c = Rucksack::from_str(lines[3 * g + 2].as_str());
        proof {
            assert(all[3 * g] == lines@[3 * g]@);
            assert(all[3 * g + 1] == lines@[3 * g + 1]@);
            assert(all[3 * g + 2] == lines@[3 * g + 2]@);
        }
        match Rucksack::find_common_one(&a, &b, &c) {
            Some(item) => {
                let value = char_to_number(item);
                proof {
                    lemma_shared_priority3(all[3 * g], all[3 * g + 1], all[3 * g + 2], item);
                    assert(values[g as int] == Some(value as nat));
                }
                if value > u32::MAX - sum {
                    proof {
                        if tally(values, values.len() as int) is Some {
                            lemma_tally_grows(values, g + 1, values.len() as int);
                        }
                    }
                    return None;
                }
                sum = sum + value;
            },
            None => {
                proof {
                    assert(values[g as int] is None);
                    lemma_tally_lost(values, g + 1, values.len() as int);
                }
                return None;
            },
        }
        g = g + 1;
    }
    Some(sum)
}

} // verus!
