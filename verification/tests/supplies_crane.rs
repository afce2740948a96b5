use elf_expedition::supplies::{read_orders, Instruction, OrderError, Stack};
use std::collections::BTreeMap;

#[test]
fn test_stack_9000() {
    let mut stack = Stack(BTreeMap::from([
        (1, vec!['Z', 'N']),
        (2, vec!['M', 'C', 'D']),
        (3, vec!['P']),
    ]));

    stack.calclulate_instruction_for_mover_9000(Instruction::new(1, 2, 1));
    stack.calclulate_instruction_for_mover_9000(Instruction::new(3, 1, 3));
    stack.calclulate_instruction_for_mover_9000(Instruction::new(2, 2, 1));
    stack.calclulate_instruction_for_mover_9000(Instruction::new(1, 1, 2));

    assert_eq!(stack.print(), "CMZ".to_string())
}

#[test]
fn test_stack_9001() {
    let mut stack = Stack(BTreeMap::from([
        (1, vec!['Z', 'N']),
        (2, vec!['M', 'C', 'D']),
        (3, vec!['P']),
    ]));

    stack.calclulate_instruction_for_mover_9001(Instruction::new(1, 2, 1));
    stack.calclulate_instruction_for_mover_9001(Instruction::new(3, 1, 3));
    stack.calclulate_instruction_for_mover_9001(Instruction::new(2, 2, 1));
    stack.calclulate_instruction_for_mover_9001(Instruction::new(1, 1, 2));

    assert_eq!(stack.print(), "MCD".to_string())
}

#[test]
fn single_moves_reverse_and_grips_keep_the_order() {
    let piles = BTreeMap::from([(1, vec!['a', 'b', 'c']), (2, vec!['x'])]);
    let mut singly = Stack(piles.clone());
    singly.calclulate_instruction_for_mover_9000(Instruction::new(2, 1, 2));
    assert_eq!(singly.0[&1], vec!['a']);
    assert_eq!(singly.0[&2], vec!['x', 'c', 'b']);

    let mut together = Stack(piles);
    together.calclulate_instruction_for_mover_9001(Instruction::new(2, 1, 2));
    assert_eq!(together.0[&1], vec!['a']);
    assert_eq!(together.0[&2], vec!['x', 'b', 'c']);
}

#[test]
fn moving_onto_the_same_stack_changes_nothing() {
    let piles = BTreeMap::from([(1, vec!['a', 'b']), (2, vec!['x'])]);
    let mut singly = Stack(piles.clone());
    singly.calclulate_instruction_for_mover_9000(Instruction::new(2, 1, 1));
    assert_eq!(singly.0, piles);
    let mut together = Stack(piles.clone());
    together.calclulate_instruction_for_mover_9001(Instruction::new(2, 1, 1));
    assert_eq!(together.0, piles);
    let mut idle = Stack(piles.clone());
    idle.calclulate_instruction_for_mover_9000(Instruction::new(0, 7, 8));
    assert_eq!(idle.0, piles);
}

#[test]
fn tops_come_in_the_order_of_the_stack_numbers() {
    let stack = Stack(BTreeMap::from([
        (9, vec!['q', 'z']),
        (2, vec!['b']),
        (5, vec!['c', 'm']),
    ]));
    assert_eq!(stack.print(), "bmz".to_string());
    assert_eq!(Stack(BTreeMap::new()).print(), String::new());
}

#[test]
fn instruction_keeps_its_fields() {
    let instruction = Instruction::new(3, 1, 2);
    assert_eq!(instruction.times, 3);
    assert_eq!(instruction.from, 1);
    assert_eq!(instruction.to, 2);
}

#[test]
fn orders_are_read_from_lines() {
    let orders = read_orders("move 1 from 2 to 1\nmove 3 from 1 to 3\n").unwrap();
    assert_eq!(orders.len(), 2);
    assert_eq!((orders[0].times, orders[0].from, orders[0].to), (1, 2, 1));
    assert_eq!((orders[1].times, orders[1].from, orders[1].to), (3, 1, 3));
    assert_eq!(read_orders("").unwrap().len(), 0);
    assert_eq!(read_orders("move 1 from 2").unwrap_err(), OrderError::WrongLine);
    assert_eq!(
        read_orders("move 4294967296 from 2 to 1").unwrap_err(),
        OrderError::NotANumber
    );
    let edge = read_orders("move 4294967295 from 2 to 1").unwrap();
    assert_eq!(edge[0].times, u32::MAX);
}

#[test]
fn feasibility_of_orders() {
    let stack = Stack(BTreeMap::from([(1, vec!['a', 'b']), (2, vec![])]));
    assert!(stack.permits_singly(Instruction::new(2, 1, 2)));
    assert!(!stack.permits_singly(Instruction::new(3, 1, 2)));
    assert!(stack.permits_singly(Instruction::new(3, 1, 1)));
    assert!(!stack.permits_singly(Instruction::new(1, 2, 2)));
    assert!(!stack.permits_singly(Instruction::new(1, 1, 3)));
    assert!(stack.permits_singly(Instruction::new(0, 8, 9)));
    assert!(stack.permits_together(Instruction::new(2, 1, 2)));
    assert!(!stack.permits_together(Instruction::new(3, 1, 2)));
    assert!(!stack.permits_together(Instruction::new(3, 1, 1)));
    assert!(!stack.permits_together(Instruction::new(0, 8, 9)));
    assert!(stack.permits_together(Instruction::new(0, 2, 1)));
    assert!(!stack.has_tops());
    assert!(Stack(BTreeMap::from([(1, vec!['a'])])).has_tops());
    assert!(Stack(BTreeMap::new()).has_tops());
}
