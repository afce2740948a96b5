use elf_expedition::calories::{
    elf_totals, max_calories, sum_calories, top_three, try_sum_calories,
};
use elf_expedition::ranges::{count_contained, count_overlapping, Sections};

#[test]
fn calories_of_one_elf() {
    assert_eq!(sum_calories("1000\n2000\n3000"), 6000);
    assert_eq!(sum_calories("7000\n8000\n9000\n"), 24000);
    assert_eq!(sum_calories("10000"), 10000);
    assert_eq!(sum_calories("+5\r\n6\r\n"), 11);
    assert_eq!(sum_calories(""), 0);
}

#[test]
fn calories_that_cannot_be_summed() {
    assert_eq!(try_sum_calories("1000\nabc"), None);
    assert_eq!(try_sum_calories("1000\n\n2000"), None);
    assert_eq!(try_sum_calories("-1"), None);
    assert_eq!(try_sum_calories("+"), None);
    assert_eq!(try_sum_calories("12 "), None);
    assert_eq!(try_sum_calories("99999999999999999999999999"), None);
    let max = format!("{}\n1", usize::MAX);
    assert_eq!(try_sum_calories(&max), None);
    let just = format!("{}\n0", usize::MAX);
    assert_eq!(try_sum_calories(&just), Some(usize::MAX));
    assert_eq!(try_sum_calories("007\n3"), Some(10));
    assert_eq!(try_sum_calories("5\r"), None);
    assert_eq!(try_sum_calories("5\r\n6"), Some(11));
    assert_eq!(try_sum_calories("\n"), None);
}

#[test]
fn ranges_are_read() {
    assert_eq!(Sections::from_str("2-4"), Sections { start: 2, end: 4 });
    assert_eq!(Sections::parse("6-6"), Some(Sections { start: 6, end: 6 }));
    assert_eq!(Sections::parse("6"), None);
    assert_eq!(Sections::parse("1-2-3"), None);
    assert_eq!(Sections::parse("a-3"), None);
    assert_eq!(Sections::parse("3-"), None);
    assert_eq!(Sections::parse(""), None);
    assert_eq!(
        Sections::parse_pair("2-4,6-8"),
        Some((Sections { start: 2, end: 4 }, Sections { start: 6, end: 8 }))
    );
    assert_eq!(Sections::parse_pair("2-4"), None);
    assert_eq!(Sections::parse_pair("2-4,6-8,1-1"), None);
    assert_eq!(Sections::parse_pair("2-4,x"), None);
}

#[test]
fn containment_and_overlap() {
    let wide = Sections { start: 2, end: 8 };
    let inner = Sections { start: 3, end: 7 };
    let right = Sections { start: 7, end: 9 };
    assert!(wide.contains_range(&inner));
    assert!(!inner.contains_range(&wide));
    assert!(!wide.contains_range(&right));
    assert!(wide.overlaps_range(&right));
    assert!(right.overlaps_range(&inner));
    assert!(!inner.overlaps_range(&wide));
    assert!(wide.contains(2) && wide.contains(8) && !wide.contains(9) && !wide.contains(1));
}

#[test]
fn counts_over_the_sample_assignments() {
    let lines = ["2-4,6-8", "2-3,4-5", "5-7,7-9", "2-8,3-7", "6-6,4-6", "2-6,4-8"];
    let pairs: Vec<(Sections, Sections)> = lines
        .iter()
        .map(|line| Sections::parse_pair(line).unwrap())
        .collect();
    assert_eq!(count_contained(&pairs), 2);
    assert_eq!(count_overlapping(&pairs), 4);
    assert_eq!(count_contained(&Vec::new()), 0);
    assert_eq!(count_overlapping(&Vec::new()), 0);
}

#[test]
fn totals_per_elf_and_the_largest() {
    let input = "1000\n2000\n3000\n\n4000\n\n5000\n6000\n\n7000\n8000\n9000\n\n10000";
    let totals = elf_totals(input).unwrap();
    assert_eq!(totals, vec![6000, 4000, 11000, 24000, 10000]);
    assert_eq!(max_calories(&totals), Some(24000));
    assert_eq!(top_three(&totals), Some((24000, 11000, 10000)));
    assert_eq!(max_calories(&Vec::new()), None);
    assert_eq!(top_three(&vec![1, 2]), None);
    assert_eq!(top_three(&vec![5, 5, 5, 1]), Some((5, 5, 5)));
    assert_eq!(top_three(&vec![0, 0, 0]), Some((0, 0, 0)));
    assert_eq!(top_three(&vec![1, 2, 3, 4]), Some((4, 3, 2)));
    assert_eq!(elf_totals("1\n\n\n2"), None);
    assert_eq!(elf_totals("1\n\nx"), None);
    assert_eq!(elf_totals(""), Some(vec![0]));
}
