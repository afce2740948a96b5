use elf_expedition::rucksack::{char_to_number, sum_of_badges, sum_of_odd_ones, Rucksack};

#[test]
fn should_find_odd_ones() {
    assert_eq!(
        Rucksack::from_str("vJrwpWtwJgWrhcsFMMfFFhFp").odd_one(),
        'p'
    );
    assert_eq!(
        Rucksack::from_str("jqHRNqRjqzjGDLGLrsFMfFZSrLrFZsSL").odd_one(),
        'L'
    );
    assert_eq!(Rucksack::from_str("PmmdzqPrVvPwwTWBwg").odd_one(), 'P');
}

#[test]
fn should_convert_to_number() {
    assert_eq!(char_to_number('p'), 16);
    assert_eq!(char_to_number('L'), 38);
    assert_eq!(char_to_number('P'), 42);
}

#[test]
fn priorities_at_the_edges() {
    assert_eq!(char_to_number('a'), 1);
    assert_eq!(char_to_number('z'), 26);
    assert_eq!(char_to_number('A'), 27);
    assert_eq!(char_to_number('Z'), 52);
    assert_eq!(char_to_number('0'), 0);
    assert_eq!(char_to_number(' '), 0);
}

#[test]
fn rucksack_holds_the_characters_in_order() {
    assert_eq!(Rucksack::from_str("abC").0, vec!['a', 'b', 'C']);
    assert_eq!(Rucksack::from_str("").0, Vec::<char>::new());
}

#[test]
fn no_or_several_shared_items_give_none() {
    assert_eq!(Rucksack::from_str("abcd").find_odd_one(), None);
    assert_eq!(Rucksack::from_str("abab").find_odd_one(), None);
    assert_eq!(Rucksack::from_str("abca").find_odd_one(), Some('a'));
    assert_eq!(Rucksack::from_str("aaaa").find_odd_one(), Some('a'));
    assert_eq!(Rucksack::from_str("").find_odd_one(), None);
}

#[test]
fn badge_of_a_group() {
    let a = Rucksack::from_str("vJrwpWtwJgWrhcsFMMfFFhFp");
    let b = Rucksack::from_str("jqHRNqRjqzjGDLGLrsFMfFZSrLrFZsSL");
    let c = Rucksack::from_str("PmmdzqPrVvPwwTWBwg");
    assert_eq!(Rucksack::common_one(&a, &b, &c), 'r');
    let d = Rucksack::from_str("wMqvLMZHhHMvwLHjbvcjnnSBnvTQFn");
    let e = Rucksack::from_str("ttgJtRGJQctTZtZT");
    let f = Rucksack::from_str("CrZsJsPPZsGzwwsLwLmpwMDw");
    assert_eq!(Rucksack::find_common_one(&d, &e, &f), Some('Z'));
    assert_eq!(Rucksack::find_common_one(&a, &a, &a), None);
}

#[test]
fn sums_over_the_sample_rucksacks() {
    let input = "vJrwpWtwJgWrhcsFMMfFFhFp\njqHRNqRjqzjGDLGLrsFMfFZSrLrFZsSL\nPmmdzqPrVvPwwTWBwg\nwMqvLMZHhHMvwLHjbvcjnnSBnvTQFn\nttgJtRGJQctTZtZT\nCrZsJsPPZsGzwwsLwLmpwMDw";
    assert_eq!(sum_of_odd_ones(input), Some(157));
    assert_eq!(sum_of_badges(input), Some(70));
    assert_eq!(sum_of_odd_ones(""), Some(0));
    assert_eq!(sum_of_badges(""), Some(0));
    assert_eq!(sum_of_odd_ones("abcd"), None);
    assert_eq!(sum_of_badges("ab\nbc"), None);
    assert_eq!(sum_of_badges("ab\nbc\ncd"), None);
    assert_eq!(sum_of_badges("ab\nbc\nbd"), Some(2));
}
