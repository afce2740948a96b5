use elf_expedition::strategy::{total_score, Game, Shape};

#[test]
fn should_calculate_test_game_guess() {
    assert_eq!(Game::from_str_guess("A Y").expect("parsable").points(), 8);
    assert_eq!(Game::from_str_guess("B X").expect("parsable").points(), 1);
    assert_eq!(Game::from_str_guess("C Z").expect("parsable").points(), 6);
}

#[test]
fn should_calculate_test_game_real() {
    assert_eq!(Game::from_str("A Y").expect("parsable").points(), 4);
    assert_eq!(Game::from_str("B X").expect("parsable").points(), 1);
    assert_eq!(Game::from_str("C Z").expect("parsable").points(), 7);
}

#[test]
fn shapes_are_read_from_single_letters() {
    assert_eq!(Shape::from_str("A"), Some(Shape::Rock));
    assert_eq!(Shape::from_str("X"), Some(Shape::Rock));
    assert_eq!(Shape::from_str("B"), Some(Shape::Paper));
    assert_eq!(Shape::from_str("Y"), Some(Shape::Paper));
    assert_eq!(Shape::from_str("C"), Some(Shape::Scissors));
    assert_eq!(Shape::from_str("Z"), Some(Shape::Scissors));
    assert_eq!(Shape::from_str("D"), None);
    assert_eq!(Shape::from_str(""), None);
    assert_eq!(Shape::from_str("AB"), None);
}

#[test]
fn outcome_scores() {
    assert_eq!(Shape::Rock.points_against(&Shape::Rock), 3);
    assert_eq!(Shape::Rock.points_against(&Shape::Scissors), 6);
    assert_eq!(Shape::Rock.points_against(&Shape::Paper), 0);
    assert_eq!(Shape::Paper.points_against(&Shape::Rock), 6);
    assert_eq!(Shape::Scissors.points_against(&Shape::Paper), 6);
    assert_eq!(Shape::Scissors.points_against(&Shape::Rock), 0);
    assert_eq!(Shape::Rock.points(), 1);
    assert_eq!(Shape::Paper.points(), 2);
    assert_eq!(Shape::Scissors.points(), 3);
}

#[test]
fn answers_reach_the_outcome_asked_for() {
    assert_eq!(Shape::Rock.shape_against("Z"), Some(Shape::Paper));
    assert_eq!(Shape::Paper.shape_against("Z"), Some(Shape::Scissors));
    assert_eq!(Shape::Scissors.shape_against("Z"), Some(Shape::Rock));
    assert_eq!(Shape::Rock.shape_against("X"), Some(Shape::Scissors));
    assert_eq!(Shape::Paper.shape_against("X"), Some(Shape::Rock));
    assert_eq!(Shape::Scissors.shape_against("X"), Some(Shape::Paper));
    assert_eq!(Shape::Paper.shape_against("Y"), Some(Shape::Paper));
    assert_eq!(Shape::Paper.shape_against("A"), None);
}

#[test]
fn malformed_rounds_are_refused() {
    assert_eq!(Game::from_str_guess("AY"), None);
    assert_eq!(Game::from_str_guess("A  Y"), None);
    assert_eq!(Game::from_str_guess("A Q"), None);
    assert_eq!(Game::from_str_guess("Q Y"), None);
    assert_eq!(Game::from_str_guess(" A Y"), None);
    assert_eq!(Game::from_str("A B"), None);
    assert_eq!(Game::from_str("X Y"), Some(Game(Shape::Rock, Shape::Rock)));
    assert_eq!(Game::from_str_guess("A Y"), Some(Game(Shape::Rock, Shape::Paper)));
}

#[test]
fn totals_of_the_sample_guide() {
    assert_eq!(total_score("A Y\nB X\nC Z", false), Some(15));
    assert_eq!(total_score("A Y\nB X\nC Z\n", true), Some(12));
    assert_eq!(total_score("", true), Some(0));
    assert_eq!(total_score("A Y\nB Q", false), None);
    assert_eq!(total_score("A A", true), None);
    assert_eq!(total_score("A A", false), Some(4));
}
