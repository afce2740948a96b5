//! Adding up the calories that one elf carries.

use crate::text::{blocks_of, lines_of, parse_size, parsed_size, split_blocks, split_lines, texts};
use vstd::prelude::*;

verus! {

/// The sum of the numbers that the lines denote, or `None` if some line
/// denotes no number.
pub open spec fn calories(lines: Seq<Seq<char>>) -> Option<nat>
    decreases lines.len(),
{
    if lines.len() == 0 {
        Some(0)
    } else {
        match (calories(lines.drop_last()), parsed_size(lines.last())) {
            (Some(sum), Some(number)) => Some((sum + number) as nat),
            _ => None,
        }
    }
}

/// Once a line fails to denote a number, no longer list has a sum.
proof fn lemma_calories_lost(lines: Seq<Seq<char>>, n: int)
    requires
        0 <= n <= lines.len(),
        calories(lines.take(n)) is None,
    ensures
        calories(lines) is None,
    decreases lines.len(),
{
    if n == lines.len() {
        assert(lines.take(n) =~= lines);
    } else {
        assert(lines.drop_last().take(n) =~= lines.take(n));
        lemma_calories_lost(lines.drop_last(), n);
    }
}

/// The sum over more lines is no smaller.
proof fn lemma_calories_grow(lines: Seq<Seq<char>>, n: int)
    requires
        0 <= n <= lines.len(),
        calories(lines) is Some,
    ensures
        calories(lines.take(n)) is Some,
        calories(lines.take(n))->0 <= calories(lines)->0,
    decreases lines.len(),
{
    if n == lines.len() {
        assert(lines.take(n) =~= lines);
    } else {
        assert(lines.drop_last().take(n) =~= lines.take(n));
        lemma_calories_grow(lines.drop_last(), n);
    }
}

/// The sum of the numbers on the lines of the text, one number per line, or
/// `None` if a line holds no number or the sum does not fit.
pub fn try_sum_calories(input: &str) -> (r: Option<usize>)
    ensures
        match r {
            Some(sum) => calories(split_lines(input@)) == Some(sum as nat),
            None => match calories(split_lines(input@)) {
                Some(sum) => sum > usize::MAX,
                None => true,
            },
        },
{
    let lines = lines_of(input);
    let ghost all = split_lines(input@);
    let mut sum: usize = 0;
    let mut i: usize = 0;
    proof {
        assert(all.take(0) =~= Seq::<Seq<char>>::empty());
    }
    while i < lines.len()
        invariant
            0 <= i <= lines@.len(),
            texts(lines@) == all,
            all == split_lines(input@),
            calories(all.take(i as int)) == Some(sum as nat),
        decreases lines@.len() - i,
    {
        proof {
            assert(all.take(i + 1).drop_last() =~= all.take(i as int));
            assert(all.take(i + 1).last() == lines@[i as int]@);
        }
        match parse_size(lines[i].as_str()) {
            Some(number) => {
                if number > usize::MAX - sum {
                    proof {
                        assert(calories(all.take(i + 1)) == Some((sum + number) as nat));
                        if calories(all) is Some {
                            lemma_calories_grow(all, i + 1);
                        }
                    }
                    return None;
                }
                sum = sum + number;
            },
            None => {
                proof {
                    assert(calories(all.take(i + 1)) is None);
                    lemma_calories_lost(all, i + 1);
                }
                return None;
            },
        }
        i = i + 1;
    }
    proof {
        assert(all.take(i as int) =~= all);
    }
    Some(sum)
}

/// The sum of the numbers on the lines of the text, one number per line.
pub fn sum_calories(input: &str) -> (sum: usize)
    requires
        calories(split_lines(input@)) is Some,
        calories(split_lines(input@))->0 <= usize::MAX,
    ensures
        calories(split_lines(input@)) == Some(sum as nat),
{
    match try_sum_calories(input) {
        Some(sum) => sum,
        None => 0,
    }
}

/// What each elf carries: the sum of the numbers of each block of the text,
/// blocks being separated by blank lines. `None` if some block has no sum
/// that fits.
pub fn elf_totals(input: &str) -> (r: Option<Vec<usize>>)
    ensures
        match r {
            Some(totals) => {
                &&& totals@.len() == split_blocks(input@).len()
                &&& forall|i: int|
                    0 <= i < totals@.len() ==> calories(
                        split_lines(#[trigger] split_blocks(input@)[i]),
                    ) == Some(totals@[i] as nat)
            },
            None => exists|i: int|
                0 <= i < split_blocks(input@).len() && match calories(
                    split_lines(#[trigger] split_blocks(input@)[i]),
                ) {
                    Some(sum) => sum > usize::MAX,
                    None => true,
                },
        },
{
    let blocks = blocks_of(input);
    let ghost all = split_blocks(input@);
    let mut totals: Vec<usize> = Vec::new();
    let mut i: usize = 0;
    while i < blocks.len()
        invariant
            0 <= i <= blocks@.len(),
            texts(blocks@) == all,
            all == split_blocks(input@),
            totals@.len() == i,
            forall|j: int|
                0 <= j < i ==> calories(split_lines(#[trigger] all[j])) == Some(totals@[j] as nat),
        decreases blocks@.len() - i,
    {
        assert(all[i as int] == blocks@[i as int]@);
        match try_sum_calories(blocks[i].as_str()) {
            Some(sum) => {
                totals.push(sum);
            },
            None => {
                return None;
            },
        }
        i = i + 1;
    }
    Some(totals)
}

/// The largest of the numbers, or `None` if there is none.
pub fn max_calories(totals: &Vec<usize>) -> (r: Option<usize>)
    ensures
        match r {
            Some(max) => totals@.contains(max) && forall|i: int|
                0 <= i < totals@.len() ==> totals@[i] <= max,
            None => totals@.len() == 0,
        },
{
    if totals.len() == 0 {
        return None;
    }
    let mut max = totals[0];
    let mut i: usize = 1;
    while i < totals.len()
        invariant
            1 <= i <= totals@.len(),
            totals@.contains(max),
            forall|j: int| 0 <= j < i ==> totals@[j] <= max,
        decreases totals@.len() - i,
    {
        if totals[i] > max {
            max = totals[i];
        }
        i = i + 1;
    }
    Some(max)
}

/// `a`, `b` and `c` stand at three different places of the list, in
/// falling order, and nothing at another place is larger than `c`.
pub open spec fn are_top_three(totals: Seq<usize>, a: usize, b: usize, c: usize) -> bool {
    exists|i: int, j: int, k: int|
        {
            &&& 0 <= i < totals.len() && 0 <= j < totals.len() && 0 <= k < totals.len()
            &&& i != j && i != k && j != k
            &&& #[trigger] totals[i] == a && #[trigger] totals[j] == b && #[trigger] totals[k] == c
            &&& a >= b >= c
            &&& forall|m: int| 0 <= m < totals.len() && m != i && m != j && m != k ==> totals[m] <= c
        }
}

/// The three largest of the numbers, largest first, or `None` if there are
/// fewer than three.
pub fn top_three(totals: &Vec<usize>) -> (r: Option<(usize, usize, usize)>)
    ensures
        match r {
            Some((a, b, c)) => are_top_three(totals@, a, b, c),
            None => totals@.len() < 3,
        },
{
    if totals.len() < 3 {
        return None;
    }
    let mut a: usize = 0;
    let mut b: usize = 0;
    let mut c: usize = 0;
    let ghost mut i: int = -1;
    let ghost mut j: int = -2;
    let ghost mut k: int = -3;
    let mut n: usize = 0;
    while n < totals.len()
        invariant
            0 <= n <= totals@.len(),
            a >= b >= c,
            i != j && i != k && j != k,
            i < n && j < n && k < n,
            n >= 1 ==> 0 <= i && totals@[i] == a,
            n >= 2 ==> 0 <= j && totals@[j] == b,
            n >= 3 ==> 0 <= k && totals@[k] == c,
            n < 1 ==> i == -1 && a == 0,
            n < 2 ==> j == -2 && b == 0,
            n < 3 ==> k == -3 && c == 0,
            forall|m: int| 0 <= m < n && m != i && m != j && m != k ==> totals@[m] <= c,
        decreases totals@.len() - n,
    {
        let x = totals[n];
        if x > a || n == 0 {
            c = b;
            b = a;
            a = x;
            proof {
                k = j;
                j = i;
                i = n as int;
                if n == 1 {
                    k = -3;
                }
                if n == 0 {
                    j = -2;
                    k = -3;
                }
            }
        } else if x > b || n == 1 {
            c = b;
            b = x;
            proof {
                k = j;
                j = n as int;
                if n == 1 {
                    k = -3;
                }
            }
        } else if x > c || n == 2 {
            c = x;
            proof {
                k = n as int;
            }
        }
        n = n + 1;
    }
    Some((a, b, c))
}

} // verus!
