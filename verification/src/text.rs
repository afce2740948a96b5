//! Operations on text that the standard library provides.

use vstd::prelude::*;

verus! {

/// Equality of two string slices, `str::eq` of the standard library: they
/// are equal exactly when they hold the same characters in the same order.
#[verifier::external_body]
pub(crate) fn same_text(a: &str, b: &str) -> (r: bool)
    ensures
        r == (a@ == b@),
{
    a == b
}

/// Position of the first `c` in `s`, or the length of `s` if it holds none.
pub open spec fn position_of(s: Seq<char>, c: char) -> int
    decreases s.len(),
{
    if s.len() == 0 {
        0
    } else if s[0] == c {
        0
    } else {
        1 + position_of(s.drop_first(), c)
    }
}

/// `position_of` is the least index that holds `c`.
pub proof fn lemma_position_of(s: Seq<char>, c: char)
    ensures
        0 <= position_of(s, c) <= s.len(),
        position_of(s, c) < s.len() ==> s[position_of(s, c)] == c,
        forall|i: int| 0 <= i < position_of(s, c) ==> s[i] != c,
    decreases s.len(),
{
    if s.len() > 0 && s[0] != c {
        let rest = s.drop_first();
        lemma_position_of(rest, c);
        assert forall|i: int| 0 <= i < position_of(s, c) implies s[i] != c by {
            if i > 0 {
                assert(rest[i - 1] == s[i]);
            }
        }
    }
}

/// `str::split_once` of the standard library, with a single space as the
/// delimiter: the text before the first space and the text after it, or
/// `None` if the text holds no space.
#[verifier::external_body]
pub(crate) fn split_once_space(s: &str) -> (r: Option<(&str, &str)>)
    ensures
        match r {
            Some((before, after)) => {
                &&& position_of(s@, ' ') < s@.len()
                &&& before@ == s@.take(position_of(s@, ' '))
                &&& after@ == s@.skip(position_of(s@, ' ') + 1)
            },
            None => position_of(s@, ' ') == s@.len(),
        },
{
    s.split_once(" ")
}

/// `str::chars` of the standard library, collected: the characters of the
/// text in order.
#[verifier::external_body]
pub(crate) fn chars_of(s: &str) -> (r: Vec<char>)
    ensures
        r@ == s@,
{
    s.chars().collect()
}

/// The number that a text of decimal digits denotes; 0 for the empty text.
pub open spec fn digits_value(s: Seq<char>) -> nat
    decreases s.len(),
{
    if s.len() == 0 {
        0
    } else {
        10 * digits_value(s.drop_last()) + (s.last() as nat - '0' as nat) as nat
    }
}

/// The text is made of one or more of the digits `0` to `9`.
pub open spec fn is_digits(s: Seq<char>) -> bool {
    s.len() > 0 && forall|i: int| 0 <= i < s.len() ==> '0' <= #[trigger] s[i] <= '9'
}

/// The text without a leading plus sign.
pub open spec fn unsigned_part(s: Seq<char>) -> Seq<char> {
    if s.len() > 0 && s[0] == '+' {
        s.drop_first()
    } else {
        s
    }
}

/// The machine integer that a text denotes: decimal digits, with or without
/// a plus sign in front, whose value fits; `None` for any other text.
pub open spec fn parsed_size(s: Seq<char>) -> Option<usize> {
    let digits = unsigned_part(s);
    if is_digits(digits) && digits_value(digits) <= usize::MAX {
        Some(digits_value(digits) as usize)
    } else {
        None
    }
}

/// `str::parse::<usize>` of the standard library: the number that the text
/// denotes in decimal notation, or `None` where the text is empty, holds a
/// character other than a digit behind an optional plus sign, or denotes a
/// number that does not fit.
#[verifier::external_body]
pub(crate) fn parse_size(s: &str) -> (r: Option<usize>)
    ensures
        r == parsed_size(s@),
{
    s.parse::<usize>().ok()
}

/// A line without the carriage return that ended it, if one did.
pub open spec fn without_return(line: Seq<char>) -> Seq<char> {
    if line.len() > 0 && line.last() == '\r' {
        line.drop_last()
    } else {
        line
    }
}

/// The lines of a text. A line ends with a line feed, or with a carriage
/// return and a line feed; neither belongs to the line. The last line need
/// not be ended, and the empty text has no line.
pub open spec fn split_lines(s: Seq<char>) -> Seq<Seq<char>>
    decreases s.len(),
{
    let p = position_of(s, '\n');
    if s.len() == 0 {
        Seq::empty()
    } else if p < 0 || p >= s.len() {
        seq![s]
    } else {
        seq![without_return(s.take(p))] + split_lines(s.skip(p + 1))
    }
}

/// The pieces of a text between the occurrences of `c`. A text without `c`
/// is one piece, and so is the empty text.
pub open spec fn split_on(s: Seq<char>, c: char) -> Seq<Seq<char>>
    decreases s.len(),
{
    let p = position_of(s, c);
    if p < 0 || p >= s.len() {
        seq![s]
    } else {
        seq![s.take(p)] + split_on(s.skip(p + 1), c)
    }
}

/// The texts that a list of strings holds.
pub open spec fn texts(items: Seq<String>) -> Seq<Seq<char>> {
    items.map_values(|item: String| item@)
}

/// `str::lines` of the standard library: the lines of the text, each copied
/// out, without their line endings.
#[verifier::external_body]
pub(crate) fn lines_of(s: &str) -> (r: Vec<String>)
    ensures
        texts(r@) == split_lines(s@),
{
    s.lines().map(|line| line.to_string()).collect()
}

/// `str::split` of the standard library with a character as the delimiter:
/// the pieces between its occurrences, each copied out.
#[verifier::external_body]
pub(crate) fn pieces_of(s: &str, c: char) -> (r: Vec<String>)
    ensures
        texts(r@) == split_on(s@, c),
{
    s.split(c).map(|piece| piece.to_string()).collect()
}

/// `String::from_iter` of the standard library on characters: the text
/// made of the characters in order.
#[verifier::external_body]
pub(crate) fn text_of(chars: &Vec<char>) -> (r: String)
    ensures
        r@ == chars@,
{
    chars.iter().collect()
}

/// The character of a decimal digit.
pub open spec fn digit_char(d: nat) -> char {
    if d == 0 {
        '0'
    } else if d == 1 {
        '1'
    } else if d == 2 {
        '2'
    } else if d == 3 {
        '3'
    } else if d == 4 {
        '4'
    } else if d == 5 {
        '5'
    } else if d == 6 {
        '6'
    } else if d == 7 {
        '7'
    } else if d == 8 {
        '8'
    } else {
        '9'
    }
}

/// A number in decimal notation, without leading zeros.
pub open spec fn decimal_text(n: nat) -> Seq<char>
    decreases n,
{
    if n < 10 {
        seq![digit_char(n)]
    } else {
        decimal_text(n / 10).push(digit_char(n % 10))
    }
}

/// `usize::to_string` of the standard library: the number in decimal
/// notation.
#[verifier::external_body]
pub(crate) fn decimal_of(n: usize) -> (r: String)
    ensures
        r@ == decimal_text(n as nat),
{
    n.to_string()
}

/// A run of `n` spaces.
pub open spec fn spaces(n: nat) -> Seq<char>
    decreases n,
{
    if n == 0 {
        Seq::empty()
    } else {
        spaces((n - 1) as nat).push(' ')
    }
}

/// Position of the first blank line in `s`, that is of the first line feed
/// that another one follows, or the length of `s` if it holds none.
pub open spec fn first_gap(s: Seq<char>) -> int
    decreases s.len(),
{
    if s.len() < 2 {
        s.len() as int
    } else if s[0] == '\n' && s[1] == '\n' {
        0
    } else {
        1 + first_gap(s.drop_first())
    }
}

/// The blocks of a text that blank lines separate. A text without a blank
/// line is one block.
pub open spec fn split_blocks(s: Seq<char>) -> Seq<Seq<char>>
    decreases s.len(),
{
    let p = first_gap(s);
    if p < 0 || p + 2 > s.len() {
        seq![s]
    } else {
        seq![s.take(p)] + split_blocks(s.skip(p + 2))
    }
}

/// `str::split` of the standard library with two line feeds as the
/// delimiter: the pieces between its occurrences, found from left to right
/// without overlap, each copied out.
#[verifier::external_body]
pub(crate) fn blocks_of(s: &str) -> (r: Vec<String>)
    ensures
        texts(r@) == split_blocks(s@),
{
    s.split("\n\n").map(|block| block.to_string()).collect()
}

} // verus!
