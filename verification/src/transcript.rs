//! Reading a terminal transcript into commands.
//!
//! Each line is held against three patterns in turn: a change of directory,
//! a listed directory, a listed file. The first that matches decides what
//! the line means; a line that matches none changes nothing.

use crate::filesystem::{Command, FileSize, FsError};
use crate::pattern::{
    captures, captures_view, compile, group, group_text, regex_captures, regex_source, regex_valid,
};
use crate::text::{lines_of, parse_size, parsed_size, split_lines, texts};
use crate::tree::Step;
use regex::Regex;
use vstd::prelude::*;

verus! {

/// The pattern of a change of directory; group 1 is the target.
pub open spec fn cd_pattern() -> Seq<char> {
    r"\$ cd (.+)"@
}

/// The pattern of a listed directory; group 1 is its name.
pub open spec fn dir_pattern() -> Seq<char> {
    r"dir (.+)"@
}

/// The pattern of a listed file; group 1 is its size, group 2 its name.
pub open spec fn file_pattern() -> Seq<char> {
    r"(\d+) (.+)"@
}

/// What a line means, given what each of the three patterns found in it.
pub open spec fn decide(
    cd: Option<Seq<Option<Seq<char>>>>,
    dir: Option<Seq<Option<Seq<char>>>>,
    file: Option<Seq<Option<Seq<char>>>>,
) -> Result<Step, FsError> {
    if let Some(groups) = cd {
        match group(groups, 1) {
            Some(target) => Ok(Step::Cd(target)),
            None => Err(FsError::MissingGroup),
        }
    } else if let Some(groups) = dir {
        match group(groups, 1) {
            Some(name) => Ok(Step::Dir(name)),
            None => Err(FsError::MissingGroup),
        }
    } else if let Some(groups) = file {
        match (group(groups, 1), group(groups, 2)) {
            (Some(size), Some(name)) => match parsed_size(size) {
                Some(size) => Ok(Step::File(name, size as nat)),
                None => Err(FsError::InvalidSize),
            },
            _ => Err(FsError::MissingGroup),
        }
    } else {
        Ok(Step::List)
    }
}

/// What a line means.
pub open spec fn line_step(line: Seq<char>) -> Result<Step, FsError> {
    decide(
        regex_captures(cd_pattern(), line),
        regex_captures(dir_pattern(), line),
        regex_captures(file_pattern(), line),
    )
}

/// The steps that the lines stand for, or the error of the first line that
/// cannot be read.
pub open spec fn read_lines(lines: Seq<Seq<char>>) -> Result<Seq<Step>, FsError>
    decreases lines.len(),
{
    if lines.len() == 0 {
        Ok(Seq::empty())
    } else {
        match read_lines(lines.drop_last()) {
            Err(e) => Err(e),
            Ok(steps) => match line_step(lines.last()) {
                Err(e) => Err(e),
                Ok(step) => Ok(steps.push(step)),
            },
        }
    }
}

/// The three patterns are accepted.
pub open spec fn grammar_valid() -> bool {
    regex_valid(cd_pattern()) && regex_valid(dir_pattern()) && regex_valid(file_pattern())
}

/// The steps that a transcript stands for.
pub open spec fn read_text(input: Seq<char>) -> Result<Seq<Step>, FsError> {
    if grammar_valid() {
        read_lines(split_lines(input))
    } else {
        Err(FsError::BadPattern)
    }
}

/// An error among the first lines is the error of the whole.
proof fn lemma_read_stops(lines: Seq<Seq<char>>, n: int)
    requires
        0 <= n <= lines.len(),
        read_lines(lines.take(n)) is Err,
    ensures
        read_lines(lines) == read_lines(lines.take(n)),
    decreases lines.len(),
{
    if n == lines.len() {
        assert(lines.take(n) =~= lines);
    } else {
        assert(lines.drop_last().take(n) =~= lines.take(n));
        lemma_read_stops(lines.drop_last(), n);
    }
}

impl Command {
    /// The command that a line stands for, given what each of the three
    /// patterns found in it: a change of directory if the first matched,
    /// else a listed directory if the second did, else a listed file if the
    /// third did, else the marker that changes nothing.
    ///
    /// Fails with `MissingGroup` if the match that decides lacks a group,
    /// and with `InvalidSize` if the size of a file is no machine integer.
    pub fn from_captures(
        cd: &Option<Vec<Option<String>>>,
        dir: &Option<Vec<Option<String>>>,
        file: &Option<Vec<Option<String>>>,
    ) -> (r: Result<Command, FsError>)
        ensures
            match r {
                Ok(command) => Ok::<Step, FsError>(command.model()) == decide(
                    captures_view(*cd),
                    captures_view(*dir),
                    captures_view(*file),
                ),
                Err(e) => Err::<Step, FsError>(e) == decide(
                    captures_view(*cd),
                    captures_view(*dir),
                    captures_view(*file),
                ),
            },
    {
        if let Some(groups) = cd {
            match group_text(groups, 1) {
                Some(target) => Ok(Command::Cd(target)),
                None => Err(FsError::MissingGroup),
            }
        } else if let Some(groups) = dir {
            match group_text(groups, 1) {
                Some(name) => Ok(Command::Dir(name)),
                None => Err(FsError::MissingGroup),
            }
        } else if let Some(groups) = file {
            match (group_text(groups, 1), group_text(groups, 2)) {
                (Some(size), Some(name)) => match parse_size(size.as_str()) {
                    Some(size) => Ok(Command::File(name, FileSize(size))),
                    None => Err(FsError::InvalidSize),
                },
                _ => Err(FsError::MissingGroup),
            }
        } else {
            Ok(Command::ListMarker)
        }
    }
}

/// The three compiled patterns of the transcript grammar.
pub struct Grammar {
    cd: Regex,
    dir: Regex,
    file: Regex,
}

impl Grammar {
    /// Each expression was compiled from its pattern.
    pub closed spec fn wf(&self) -> bool {
        &&& regex_source(self.cd) == cd_pattern()
        &&& regex_source(self.dir) == dir_pattern()
        &&& regex_source(self.file) == file_pattern()
    }

    /// Compiles the three patterns, or fails with `BadPattern` if one of
    /// them is not accepted.
    pub fn new() -> (r: Result<Grammar, FsError>)
        ensures
            match r {
                Ok(grammar) => grammar.wf() && grammar_valid(),
                Err(e) => e == FsError::BadPattern && !grammar_valid(),
            },
    {
        let Ok(cd) = compile(r"\$ cd (.+)") else {
            return Err(FsError::BadPattern);
        };
        let Ok(dir) = compile(r"dir (.+)") else {
            return Err(FsError::BadPattern);
        };
        let Ok(file) = compile(r"(\d+) (.+)") else {
            return Err(FsError::BadPattern);
        };
        Ok(Grammar { cd, dir, file })
    }

    /// The command that the line stands for.
    pub fn read_line(&self, line: &str) -> (r: Result<Command, FsError>)
        requires
            self.wf(),
        ensures
            match r {
                Ok(command) => Ok::<Step, FsError>(command.model()) == line_step(line@),
                Err(e) => Err::<Step, FsError>(e) == line_step(line@),
            },
    {
        let cd = captures(&self.cd, line);
        if cd.is_some() {
            return Command::from_captures(&cd, &None, &None);
        }
        let dir = captures(&self.dir, line);
        if dir.is_some() {
            return Command::from_captures(&cd, &dir, &None);
        }
        let file = captures(&self.file, line);
        Command::from_captures(&cd, &dir, &file)
    }
}

/// The commands that a transcript stands for, one for each line. Fails with
/// `BadPattern` if the grammar is not accepted, else with the error of the
/// first line that cannot be read.
pub fn read_commands(input: &str) -> (r: Result<Vec<Command>, FsError>)
    ensures
        match r {
            Ok(commands) => Ok::<Seq<Step>, FsError>(crate::filesystem::steps(commands@))
                == read_text(input@),
            Err(e) => Err::<Seq<Step>, FsError>(e) == read_text(input@),
        },
{
    let grammar = match Grammar::new() {
        Ok(grammar) => grammar,
        Err(e) => {
            return Err(e);
        },
    };
    let lines = lines_of(input);
    let ghost all = split_lines(input@);
    let mut commands: Vec<Command> = Vec::new();
    let mut i: usize = 0;
    proof {
        assert(all.take(0) =~= Seq::<Seq<char>>::empty());
        assert(crate::filesystem::steps(commands@) =~= Seq::<Step>::empty());
    }
    while i < lines.len()
        invariant
            0 <= i <= lines@.len(),
            grammar.wf(),
            grammar_valid(),
            texts(lines@) == all,
            all == split_lines(input@),
            read_lines(all.take(i as int)) == Ok::<Seq<Step>, FsError>(
                crate::filesystem::steps(commands@),
            ),
        decreases lines@.len() - i,
    {
        let ghost before = crate::filesystem::steps(commands@);
        proof {
            assert(all.take(i + 1).drop_last() =~= all.take(i as int));
            assert(all.take(i + 1).last() == lines@[i as int]@);
        }
        match grammar.read_line(lines[i].as_str()) {
            Ok(command) => {
                commands.push(command);
                proof {
                    assert(crate::filesystem::steps(commands@) =~= before.push(command.model()));
                }
            },
            Err(e) => {
                proof {
                    assert(read_lines(all.take(i + 1)) == Err::<Seq<Step>, FsError>(e));
                    lemma_read_stops(all, i + 1);
                }
                return Err(e);
            },
        }
        i = i + 1;
    }
    proof {
        assert(all.take(i as int) =~= all);
    }
    Ok(commands)
}

} // verus!
