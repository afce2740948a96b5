//! Rearranging stacks of crates with a cargo crane.

use crate::pattern::{
    captures, captures_view, compile, group, group_text, regex_captures, regex_valid,
};
use crate::text::{lines_of, parse_size, parsed_size, split_lines, text_of, texts};
use std::collections::BTreeMap;
use vstd::std_specs::cmp::OrdSpec;
use vstd::prelude::*;

verus! {

broadcast use {vstd::std_specs::btree::group_btree_axioms, vstd::laws_cmp::group_laws_cmp};

/// The stacks of crates by their number; the last crate of each is on top.
#[derive(Clone, Debug)]
pub struct Stack(pub BTreeMap<u32, Vec<char>>);

/// An order to the crane: move `times` crates from one stack to another.
#[derive(Copy, Clone, Debug)]
pub struct Instruction {
    pub times: u32,
    pub from: u32,
    pub to: u32,
}

impl Instruction {
    pub fn new(times: u32, from: u32, to: u32) -> (r: Instruction)
        ensures
            r.times == times,
            r.from == from,
            r.to == to,
    {
        Instruction { times, from, to }
    }
}

/// The stacks after `times` crates went from `from` to `to` one at a time,
/// so that they arrive in reverse order.
pub open spec fn moved_singly(piles: Map<u32, Seq<char>>, times: nat, from: u32, to: u32) -> Map<
    u32,
    Seq<char>,
> {
    if times == 0 || from == to {
        piles
    } else {
        let keep = piles[from].len() - times;
        piles.insert(from, piles[from].take(keep)).insert(
            to,
            piles[to] + piles[from].skip(keep).reverse(),
        )
    }
}

/// The stacks after `times` crates went from `from` to `to` in one grip, so
/// that they keep their order.
pub open spec fn moved_together(piles: Map<u32, Seq<char>>, times: nat, from: u32, to: u32) -> Map<
    u32,
    Seq<char>,
> {
    if from == to {
        piles
    } else {
        let keep = piles[from].len() - times;
        piles.insert(from, piles[from].take(keep)).insert(to, piles[to] + piles[from].skip(keep))
    }
}

/// Moving one crate more, from a stack that still has one.
proof fn lemma_one_more(piles: Map<u32, Seq<char>>, times: nat, from: u32, to: u32)
    requires
        from != to,
        piles.contains_key(from),
        piles.contains_key(to),
        times < piles[from].len(),
    ensures
        ({
            let now = moved_singly(piles, times, from, to);
            let next = moved_singly(piles, times + 1, from, to);
            &&& now.contains_key(from) && now.contains_key(to)
            &&& now[from].len() > 0
            &&& next == now.insert(from, now[from].drop_last()).insert(
                to,
                now[to].push(now[from].last()),
            )
        }),
{
    let now = moved_singly(piles, times, from, to);
    let next = moved_singly(piles, times + 1, from, to);
    let n = piles[from].len() as int;
    let keep = n - times;
    if times == 0 {
        assert(piles[from].skip(n).reverse() =~= Seq::<char>::empty());
        assert(piles[to] + Seq::<char>::empty() =~= piles[to]);
        assert(piles[from].take(n) =~= piles[from]);
    }
    assert(now[from] =~= piles[from].take(keep));
    assert(now[to] =~= piles[to] + piles[from].skip(keep).reverse());
    assert(piles[from].take(keep).drop_last() =~= piles[from].take(keep - 1));
    assert(piles[from].skip(keep - 1).reverse() =~= piles[from].skip(keep).reverse().push(
        piles[from][keep - 1],
    ));
    assert((piles[to] + piles[from].skip(keep).reverse()).push(piles[from][keep - 1]) =~= piles[to]
        + piles[from].skip(keep - 1).reverse());
    assert(next =~= now.insert(from, now[from].drop_last()).insert(
        to,
        now[to].push(now[from].last()),
    ));
}

/// `keys` lists the numbers of all stacks in increasing order.
pub open spec fn in_order(keys: Seq<u32>, piles: Map<u32, Seq<char>>) -> bool {
    &&& forall|i: int, j: int| 0 <= i < j < keys.len() ==> keys[i] < keys[j]
    &&& forall|k: u32| keys.contains(k) <==> piles.contains_key(k)
}

/// The top crates of the stacks that `keys` lists.
pub open spec fn tops(keys: Seq<u32>, piles: Map<u32, Seq<char>>) -> Seq<char> {
    keys.map_values(|k: u32| piles[k].last())
}

/// Keys that the map yields in its order are strictly increasing numbers.
proof fn lemma_increasing(keys: Seq<u32>)
    requires
        vstd::std_specs::btree::increasing_seq(keys),
    ensures
        forall|i: int, j: int| 0 <= i < j < keys.len() ==> keys[i] < keys[j],
{
    assert forall|i: int, j: int| 0 <= i < j < keys.len() implies keys[i] < keys[j] by {
        assert(keys[i].cmp_spec(&keys[j]) is Less);
    }
}

impl Stack {
    /// The stacks as plain sequences of crates.
    pub open spec fn piles(&self) -> Map<u32, Seq<char>> {
        self.0@.map_values(|pile: Vec<char>| pile@)
    }

    /// The crane can take `times` crates from `from`, one at a time, and
    /// put them on `to`.
    pub open spec fn can_move_singly(&self, instruction: Instruction) -> bool {
        instruction.times > 0 ==> {
            &&& self.piles().contains_key(instruction.from)
            &&& self.piles().contains_key(instruction.to)
            &&& self.piles()[instruction.from].len() >= (if instruction.from == instruction.to {
                1
            } else {
                instruction.times as int
            })
        }
    }

    /// The crane can take `times` crates from `from` in one grip and put
    /// them on `to`.
    pub open spec fn can_move_together(&self, instruction: Instruction) -> bool {
        &&& self.piles().contains_key(instruction.from)
        &&& self.piles().contains_key(instruction.to)
        &&& self.piles()[instruction.from].len() >= instruction.times
    }

    /// Moves one crate from the top of `from` to the top of `to`.
    fn move_one(&mut self, from: u32, to: u32)
        requires
            old(self).piles().contains_key(from),
            old(self).piles().contains_key(to),
            old(self).piles()[from].len() > 0,
            from != to,
        ensures
            final(self).piles() == old(self).piles().insert(
                from,
                old(self).piles()[from].drop_last(),
            ).insert(to, old(self).piles()[to].push(old(self).piles()[from].last())),
    {
        let ghost before = self.piles();
        let Some(mut source) = self.0.remove(&from) else {
            return ;
        };
        let Some(x) = source.pop() else {
            return ;
        };
        self.0.insert(from, source);
        let Some(mut target) = self.0.remove(&to) else {
            return ;
        };
        target.push(x);
        self.0.insert(to, target);
        proof {
            assert(self.piles() =~= before.insert(from, before[from].drop_last()).insert(
                to,
                before[to].push(before[from].last()),
            ));
        }
    }

    /// Carries out the instruction with a crane that moves one crate at a
    /// time: the crates arrive on the target stack in reverse order.
    pub fn calclulate_instruction_for_mover_9000(&mut self, instruction: Instruction)
        requires
            old(self).can_move_singly(instruction),
        ensures
            final(self).piles() == moved_singly(
                old(self).piles(),
                instruction.times as nat,
                instruction.from,
                instruction.to,
            ),
    {
        if instruction.from == instruction.to || instruction.times == 0 {
            return ;
        }
        let ghost before = self.piles();
        let mut done: u32 = 0;
        while done < instruction.times
            invariant
                0 <= done <= instruction.times,
                instruction.from != instruction.to,
                before == old(self).piles(),
                before.contains_key(instruction.from),
                before.contains_key(instruction.to),
                before[instruction.from].len() >= instruction.times,
                self.piles() == moved_singly(before, done as nat, instruction.from, instruction.to),
            decreases instruction.times - done,
        {
            proof {
                lemma_one_more(before, done as nat, instruction.from, instruction.to);
            }
            self.move_one(instruction.from, instruction.to);
            done = done + 1;
        }
    }

    /// Carries out the instruction with a crane that moves all the crates
    /// in one grip: they keep their order.
    pub fn calclulate_instruction_for_mover_9001(&mut self, instruction: Instruction)
        requires
            old(self).can_move_together(instruction),
        ensures
            final(self).piles() == moved_together(
                old(self).piles(),
                instruction.times as nat,
                instruction.from,
                instruction.to,
            ),
    {
        if instruction.from == instruction.to {
            return ;
        }
        let ghost before = self.piles();
        let Some(mut source) = self.0.remove(&instruction.from) else {
            return ;
        };
        let keep = source.len() - instruction.times as usize;
        let mut splitted = source.split_off(keep);
        self.0.insert(instruction.from, source);
        let Some(mut target) = self.0.remove(&instruction.to) else {
            return ;
        };
        target.append(&mut splitted);
        self.0.insert(instruction.to, target);
        proof {
            assert(self.piles() =~= moved_together(
                before,
                instruction.times as nat,
                instruction.from,
                instruction.to,
            ));
        }
    }
    /// Whether the crane can carry out the instruction one crate at a time.
    pub fn permits_singly(&self, instruction: Instruction) -> (r: bool)
        ensures
            r == self.can_move_singly(instruction),
    {
        if instruction.times == 0 {
            return true;
        }
        if !self.0.contains_key(&instruction.to) {
            return false;
        }
        match self.0.get(&instruction.from) {
            Some(pile) => {
                assert(self.piles()[instruction.from] == pile@);
                if instruction.from == instruction.to {
                    pile.len() >= 1
                } else {
                    pile.len() >= instruction.times as usize
                }
            },
            None => false,
        }
    }

    /// Whether the crane can carry out the instruction in one grip.
    pub fn permits_together(&self, instruction: Instruction) -> (r: bool)
        ensures
            r == self.can_move_together(instruction),
    {
        if !self.0.contains_key(&instruction.to) {
            return false;
        }
        match self.0.get(&instruction.from) {
            Some(pile) => {
                assert(self.piles()[instruction.from] == pile@);
                pile.len() >= instruction.times as usize
            },
            None => false,
        }
    }

    /// Every stack holds a crate.
    pub open spec fn topped(&self) -> bool {
        forall|k: u32| self.piles().contains_key(k) ==> self.piles()[k].len() > 0
    }

    /// Whether every stack holds a crate.
    pub fn has_tops(&self) -> (r: bool)
        ensures
            r == self.topped(),
    {
        let values = self.0.values();
        let ghost keys: Seq<u32> = choose|keys: Seq<u32>|
            {
                &&& vstd::std_specs::btree::increasing_seq(keys)
                &&& keys.to_set() == self.0@.dom()
                &&& keys.no_duplicates()
                &&& vstd::std_specs::iter::IteratorSpec::remaining(&values) == keys.map(
                    |i: int, k: u32| &self.0@[k],
                )
            };
        for pile in it: values
            invariant
                it.seq() == keys.map(|i: int, k: u32| &self.0@[k]),
                it.seq().len() == keys.len(),
                keys.to_set() == self.0@.dom(),
                forall|i: int| 0 <= i < it.index() ==> self.0@[keys[i]]@.len() > 0,
        {
            proof {
                let k = keys[it.index()];
                assert(keys.contains(k));
                assert(self.0@.dom().contains(k));
                assert(it.seq()[it.index()] == &self.0@[k]);
            }
            if pile.len() == 0 {
                proof {
                    let k = keys[it.index()];
                    assert(self.piles().contains_key(k) && self.piles()[k].len() == 0);
                }
                return false;
            }
        }
        proof {
            assert forall|k: u32| self.piles().contains_key(k) implies self.piles()[k].len()
                > 0 by {
                assert(keys.to_set().contains(k));
                let i = choose|i: int| 0 <= i < keys.len() && keys[i] == k;
                assert(self.0@[keys[i]]@.len() > 0);
            }
        }
        true
    }

    /// The top crate of every stack, in increasing order of the stacks'
    /// numbers.
    pub fn print(self) -> (r: String)
        requires
            self.topped(),
        ensures
            exists|keys: Seq<u32>| in_order(keys, self.piles()) && r@ == tops(keys, self.piles()),
    {
        let mut out: Vec<char> = Vec::new();
        let values = self.0.values();
        let ghost keys: Seq<u32> = choose|keys: Seq<u32>|
            {
                &&& vstd::std_specs::btree::increasing_seq(keys)
                &&& keys.to_set() == self.0@.dom()
                &&& keys.no_duplicates()
                &&& vstd::std_specs::iter::IteratorSpec::remaining(&values) == keys.map(
                    |i: int, k: u32| &self.0@[k],
                )
            };
        for pile in it: values
            invariant
                out@.len() == it.index(),
                it.seq() == keys.map(|i: int, k: u32| &self.0@[k]),
                it.seq().len() == keys.len(),
                forall|k: u32| self.piles().contains_key(k) ==> self.piles()[k].len() > 0,
                keys.to_set() == self.0@.dom(),
                forall|i: int| 0 <= i < out@.len() ==> out@[i] == self.piles()[keys[i]].last(),
        {
            proof {
                let k = keys[it.index()];
                assert(keys.contains(k));
                assert(self.0@.dom().contains(k));
                assert(it.seq()[it.index()] == &self.0@[k]);
                assert(self.piles().contains_key(k));
                assert(self.piles()[k] == pile@);
            }
            out.push(pile[pile.len() - 1]);
        }
        proof {
            assert(out@ =~= tops(keys, self.piles()));
            lemma_increasing(keys);
            assert forall|k: u32| keys.contains(k) <==> self.piles().contains_key(k) by {
                assert(keys.to_set().contains(k) == keys.contains(k));
            }
        }
        text_of(&out)
    }
}

/// Why the orders to the crane could not be read.
#[derive(Clone, Copy, Debug, PartialEq, Eq, Structural)]
pub enum OrderError {
    /// The pattern of an order was not accepted.
    BadPattern,
    /// A line is no order.
    WrongLine,
    /// A number of an order is missing or does not fit.
    NotANumber,
}

/// The pattern of an order; the groups are the number of crates, the stack
/// they leave and the stack they reach.
pub open spec fn order_pattern() -> Seq<char> {
    r"move (\d+) from (\d+) to (\d+)"@
}

/// The number that the text denotes, if it fits 32 bits.
pub open spec fn number_of(text: Option<Seq<char>>) -> Option<u32> {
    match text {
        Some(text) => match parsed_size(text) {
            Some(n) => if n <= u32::MAX {
                Some(n as u32)
            } else {
                None
            },
            None => None,
        },
        None => None,
    }
}

/// The order that a line stands for, given what the pattern found in it.
pub open spec fn order_of(found: Option<Seq<Option<Seq<char>>>>) -> Result<
    Instruction,
    OrderError,
> {
    match found {
        Some(groups) => match (
            number_of(group(groups, 1)),
            number_of(group(groups, 2)),
            number_of(group(groups, 3)),
        ) {
            (Some(times), Some(from), Some(to)) => Ok(Instruction { times, from, to }),
            _ => Err(OrderError::NotANumber),
        },
        None => Err(OrderError::WrongLine),
    }
}

/// The orders that the lines stand for, or the error of the first line
/// that is none.
pub open spec fn orders_of(lines: Seq<Seq<char>>) -> Result<Seq<Instruction>, OrderError>
    decreases lines.len(),
{
    if lines.len() == 0 {
        Ok(Seq::empty())
    } else {
        match orders_of(lines.drop_last()) {
            Err(e) => Err(e),
            Ok(orders) => match order_of(regex_captures(order_pattern(), lines.last())) {
                Err(e) => Err(e),
                Ok(order) => Ok(orders.push(order)),
            },
        }
    }
}

/// The orders that a text stands for, one per line.
pub open spec fn orders_in(input: Seq<char>) -> Result<Seq<Instruction>, OrderError> {
    if regex_valid(order_pattern()) {
        orders_of(split_lines(input))
    } else {
        Err(OrderError::BadPattern)
    }
}

/// An error among the first lines is the error of the whole.
proof fn lemma_orders_stop(lines: Seq<Seq<char>>, n: int)
    requires
        0 <= n <= lines.len(),
        orders_of(lines.take(n)) is Err,
    ensures
        orders_of(lines) == orders_of(lines.take(n)),
    decreases lines.len(),
{
    if n == lines.len() {
        assert(lines.take(n) =~= lines);
    } else {
        assert(lines.drop_last().take(n) =~= lines.take(n));
        lemma_orders_stop(lines.drop_last(), n);
    }
}

/// The number in group `i`, if it is there and fits 32 bits.
fn group_number(groups: &Vec<Option<String>>, i: usize) -> (r: Option<u32>)
    ensures
        r == number_of(group(crate::pattern::groups_view(groups@), i as int)),
{
    match group_text(groups, i) {
        Some(text) => match parse_size(text.as_str()) {
            Some(n) => if n <= 0xffff_ffff {
                Some(n as u32)
            } else {
                None
            },
            None => None,
        },
        None => None,
    }
}

impl Instruction {
    /// The order that a line stands for, given what the pattern of an
    /// order found in it. Fails with `WrongLine` if it found nothing, and
    /// with `NotANumber` if one of the three numbers is missing or too large.
    pub fn from_captures(found: &Option<Vec<Option<String>>>) -> (r: Result<
        Instruction,
        OrderError,
    >)
        ensures
            r == order_of(captures_view(*found)),
    {
        match found {
            Some(groups) => match (
                group_number(groups, 1),
                group_number(groups, 2),
                group_number(groups, 3),
            ) {
                (Some(times), Some(from), Some(to)) => Ok(Instruction::new(times, from, to)),
                _ => Err(OrderError::NotANumber),
            },
            None => Err(OrderError::WrongLine),
        }
    }
}

/// The orders that a text stands for, one per line. Fails with
/// `BadPattern` if the pattern is not accepted, else with the error of the
/// first line that is no order.
pub fn read_orders(input: &str) -> (r: Result<Vec<Instruction>, OrderError>)
    ensures
        match r {
            Ok(orders) => Ok::<Seq<Instruction>, OrderError>(orders@) == orders_in(input@),
            Err(e) => Err::<Seq<Instruction>, OrderError>(e) == orders_in(input@),
        },
{
    let re = match compile(r"move (\d+) from (\d+) to (\d+)") {
        Ok(re) => re,
        Err(_) => {
            return Err(OrderError::BadPattern);
        },
    };
    let lines = lines_of(input);
    let ghost all = split_lines(input@);
    let mut orders: Vec<Instruction> = Vec::new();
    let mut i: usize = 0;
    proof {
        assert(all.take(0) =~= Seq::<Seq<char>>::empty());
    }
    while i < lines.len()
        invariant
            0 <= i <= lines@.len(),
            crate::pattern::regex_source(re) == order_pattern(),
            regex_valid(order_pattern()),
            texts(lines@) == all,
            all == split_lines(input@),
            orders_of(all.take(i as int)) == Ok::<Seq<Instruction>, OrderError>(orders@),
        decreases lines@.len() - i,
    {
        let ghost before = orders@;
        proof {
            assert(all.take(i + 1).drop_last() =~= all.take(i as int));
            assert(all.take(i + 1).last() == lines@[i as int]@);
        }
        let found = captures(&re, lines[i].as_str());
        match Instruction::from_captures(&found) {
            Ok(order) => {
                orders.push(order);
            },
            Err(e) => {
                proof {
                    assert(orders_of(all.take(i + 1)) == Err::<Seq<Instruction>, OrderError>(e));
                    lemma_orders_stop(all, i + 1);
                }
                return Err(e);
            },
        }
        i = i + 1;
    }
    proof {
        assert(all.take(i as int) =~= all);
    }
    Ok(orders)
}

} // verus!
