//! Scoring rounds of rock, paper, scissors from an encrypted strategy guide.

use crate::tally::{lemma_tally_grows, lemma_tally_lost, tally};
use crate::text::{
    lemma_position_of, lines_of, position_of, same_text, split_lines, split_once_space, texts,
};
use vstd::prelude::*;

verus! {

/// What a player shows in one round.
#[derive(PartialEq, Eq, Structural, Copy, Clone, Debug)]
pub enum Shape {
    Rock,
    Paper,
    Scissors,
}

/// `a` defeats `b`: rock blunts scissors, scissors cut paper, paper wraps rock.
pub open spec fn beats(a: Shape, b: Shape) -> bool {
    (a == Shape::Rock && b == Shape::Scissors) || (a == Shape::Scissors && b == Shape::Paper) || (a
        == Shape::Paper && b == Shape::Rock)
}

/// The shape that a letter of the guide stands for.
pub open spec fn shape_of(letter: char) -> Option<Shape> {
    if letter == 'A' || letter == 'X' {
        Some(Shape::Rock)
    } else if letter == 'B' || letter == 'Y' {
        Some(Shape::Paper)
    } else if letter == 'C' || letter == 'Z' {
        Some(Shape::Scissors)
    } else {
        None
    }
}

/// The shape to show against `opponent` for the outcome that a letter asks
/// for: `X` to lose, `Y` to draw, `Z` to win.
pub open spec fn answer_to(opponent: Shape, letter: char) -> Option<Shape> {
    if letter == 'Y' {
        Some(opponent)
    } else if letter == 'Z' {
        Some(
            match opponent {
                Shape::Rock => Shape::Paper,
                Shape::Paper => Shape::Scissors,
                Shape::Scissors => Shape::Rock,
            },
        )
    } else if letter == 'X' {
        Some(
            match opponent {
                Shape::Rock => Shape::Scissors,
                Shape::Paper => Shape::Rock,
                Shape::Scissors => Shape::Paper,
            },
        )
    } else {
        None
    }
}

/// The text is the single character `letter`.
pub open spec fn is_letter(text: Seq<char>, letter: char) -> bool {
    text.len() == 1 && text[0] == letter
}

/// The only character of a text of length one.
pub open spec fn letter_of(text: Seq<char>) -> Option<char> {
    if text.len() == 1 {
        Some(text[0])
    } else {
        None
    }
}

/// Whether `text` is the one-letter string `literal`, which holds `letter`.
fn is_text(text: &str, literal: &str, Ghost(letter): Ghost<char>) -> (r: bool)
    requires
        is_letter(literal@, letter),
    ensures
        r == is_letter(text@, letter),
{
    let r = same_text(text, literal);
    proof {
        if is_letter(text@, letter) {
            assert(text@ =~= literal@);
        }
    }
    r
}

impl Shape {
    /// The shape that a one-letter text stands for: `A` or `X` for rock,
    /// `B` or `Y` for paper, `C` or `Z` for scissors.
    pub fn from_str(input: &str) -> (r: Option<Shape>)
        ensures
            r == match letter_of(input@) {
                Some(letter) => shape_of(letter),
                None => None,
            },
    {
        proof {
            reveal_strlit("A");
            reveal_strlit("B");
            reveal_strlit("C");
            reveal_strlit("X");
            reveal_strlit("Y");
            reveal_strlit("Z");
        }
        if is_text(input, "A", Ghost('A')) || is_text(input, "X", Ghost('X')) {
            Some(Shape::Rock)
        } else if is_text(input, "B", Ghost('B')) || is_text(input, "Y", Ghost('Y')) {
            Some(Shape::Paper)
        } else if is_text(input, "C", Ghost('C')) || is_text(input, "Z", Ghost('Z')) {
            Some(Shape::Scissors)
        } else {
            None
        }
    }

    /// The score for the outcome of showing `self` against `other`: 3 for a
    /// draw, 6 for a win, 0 for a loss.
    pub fn points_against(&self, other: &Shape) -> (r: usize)
        ensures
            r == outcome_points(*self, *other),
    {
        if *self == *other {
            return 3;
        }
        match (self, other) {
            (Shape::Rock, Shape::Scissors)
            | (Shape::Scissors, Shape::Paper)
            | (Shape::Paper, Shape::Rock) => 6,
            _ => 0,
        }
    }

    /// The shape to show against `self` for the outcome that the text asks
    /// for: `X` to lose, `Y` to draw, `Z` to win.
    pub fn shape_against(&self, winning_indicator: &str) -> (r: Option<Shape>)
        ensures
            r == match letter_of(winning_indicator@) {
                Some(letter) => answer_to(*self, letter),
                None => None,
            },
    {
        proof {
            reveal_strlit("X");
            reveal_strlit("Y");
            reveal_strlit("Z");
        }
        if is_text(winning_indicator, "Z", Ghost('Z')) {
            Some(
                match self {
                    Shape::Rock => Shape::Paper,
                    Shape::Paper => Shape::Scissors,
                    Shape::Scissors => Shape::Rock,
                },
            )
        } else if is_text(winning_indicator, "X", Ghost('X')) {
            Some(
                match self {
                    Shape::Rock => Shape::Scissors,
                    Shape::Paper => Shape::Rock,
                    Shape::Scissors => Shape::Paper,
                },
            )
        } else if is_text(winning_indicator, "Y", Ghost('Y')) {
            Some(*self)
        } else {
            None
        }
    }

    /// The score for showing the shape: 1 for rock, 2 for paper, 3 for scissors.
    pub fn points(&self) -> (r: usize)
        ensures
            r == shape_points(*self),
    {
        match self {
            Shape::Rock => 1,
            Shape::Paper => 2,
            Shape::Scissors => 3,
        }
    }
}

/// The score for the outcome of showing `ours` against `theirs`.
pub open spec fn outcome_points(ours: Shape, theirs: Shape) -> nat {
    if ours == theirs {
        3
    } else if beats(ours, theirs) {
        6
    } else {
        0
    }
}

/// The score for the shape itself.
pub open spec fn shape_points(shape: Shape) -> nat {
    match shape {
        Shape::Rock => 1,
        Shape::Paper => 2,
        Shape::Scissors => 3,
    }
}

/// One round: what the opponent shows, then what we show.
#[derive(PartialEq, Eq, Structural, Copy, Clone, Debug)]
pub struct Game(pub Shape, pub Shape);

/// The two letters of a line of the guide: a letter, one space, a letter.
pub open spec fn letters_of(line: Seq<char>) -> Option<(char, char)> {
    if line.len() == 3 && line[1] == ' ' && line[0] != ' ' {
        Some((line[0], line[2]))
    } else {
        None
    }
}

/// The round that a line stands for if its second letter is a shape.
pub open spec fn guessed_game(line: Seq<char>) -> Option<Game> {
    match letters_of(line) {
        Some((theirs, ours)) => match (shape_of(theirs), shape_of(ours)) {
            (Some(theirs), Some(ours)) => Some(Game(theirs, ours)),
            _ => None,
        },
        None => None,
    }
}

/// The round that a line stands for if its second letter is an outcome.
pub open spec fn planned_game(line: Seq<char>) -> Option<Game> {
    match letters_of(line) {
        Some((theirs, outcome)) => match shape_of(theirs) {
            Some(theirs) => match answer_to(theirs, outcome) {
                Some(ours) => Some(Game(theirs, ours)),
                None => None,
            },
            None => None,
        },
        None => None,
    }
}

/// The two halves of a line around its first space are its two letters,
/// whenever both halves are one character long.
proof fn lemma_halves(line: Seq<char>)
    ensures
        ({
            let p = position_of(line, ' ');
            p < line.len() ==> (match (letter_of(line.take(p)), letter_of(line.skip(p + 1))) {
                (Some(a), Some(b)) => letters_of(line) == Some((a, b)),
                _ => letters_of(line) is None,
            })
        }),
        position_of(line, ' ') == line.len() ==> letters_of(line) is None,
{
    lemma_position_of(line, ' ');
}

impl Game {
    /// Reads a line as the opponent's shape and our shape.
    pub fn from_str_guess(input: &str) -> (r: Option<Game>)
        ensures
            r == guessed_game(input@),
    {
        proof {
            lemma_halves(input@);
        }
        let Some((opponent, we)) = split_once_space(input) else {
            return None;
        };
        let (Some(opponent), Some(we)) = (Shape::from_str(opponent), Shape::from_str(we)) else {
            return None;
        };
        Some(Game(opponent, we))
    }

    /// Reads a line as the opponent's shape and the outcome to reach, and
    /// picks our shape to reach it.
    pub fn from_str(input: &str) -> (r: Option<Game>)
        ensures
            r == planned_game(input@),
    {
        proof {
            lemma_halves(input@);
        }
        let Some((opponent, we)) = split_once_space(input) else {
            return None;
        };
        let Some(opponent) = Shape::from_str(opponent) else {
            return None;
        };
        let Some(we) = opponent.shape_against(we) else {
            return None;
        };
        Some(Game(opponent, we))
    }

    /// The score of the round: for the outcome and for our shape.
    pub fn points(&self) -> (r: usize)
        ensures
            r == outcome_points(self.1, self.0) + shape_points(self.1),
    {
        self.1.points_against(&self.0) + self.1.points()
    }
}

/// The score of the round that a line stands for, read as the guide plans
/// it (`planned`) or as it was first guessed; `None` if the line is no round.
pub open spec fn round_points(line: Seq<char>, planned: bool) -> Option<nat> {
    let game = if planned {
        planned_game(line)
    } else {
        guessed_game(line)
    };
    match game {
        Some(game) => Some(outcome_points(game.1, game.0) + shape_points(game.1)),
        None => None,
    }
}

/// The score of each line of a guide.
pub open spec fn guide_points(lines: Seq<Seq<char>>, planned: bool) -> Seq<Option<nat>> {
    lines.map_values(|line: Seq<char>| round_points(line, planned))
}

/// The total score of a guide, one round per line, or `None` if some line
/// is no round or the total does not fit.
pub fn total_score(input: &str, planned: bool) -> (r: Option<usize>)
    ensures
        ({
            let points = guide_points(split_lines(input@), planned);
            match r {
                Some(total) => tally(points, points.len() as int) == Some(total as nat),
                None => match tally(points, points.len() as int) {
                    Some(total) => total > usize::MAX,
                    None => true,
                },
            }
        }),
{
    let lines = lines_of(input);
    let ghost points = guide_points(split_lines(input@), planned);
    let mut total: usize = 0;
    let mut i: usize = 0;
    while i < lines.len()
        invariant
            0 <= i <= lines@.len(),
            texts(lines@) == split_lines(input@),
            points == guide_points(split_lines(input@), planned),
            tally(points, i as int) == Some(total as nat),
        decreases lines@.len() - i,
    {
        let line = lines[i].as_str();
        assert(points[i as int] == round_points(lines@[i as int]@, planned));
        let game = if planned {
            Game::from_str(line)
        } else {
            Game::from_str_guess(line)
        };
        match game {
            Some(game) => {
                let score = game.points();
                if score > usize::MAX - total {
                    proof {
                        if tally(points, points.len() as int) is Some {
                            lemma_tally_grows(points, i + 1, points.len() as int);
                        }
                    }
                    return None;
                }
                total = total + score;
            },
            None => {
                proof {
                    lemma_tally_lost(points, i + 1, points.len() as int);
                }
                return None;
            },
        }
        i = i + 1;
    }
    Some(total)
}

} // verus!
