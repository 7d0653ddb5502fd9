//! The line scanner: the lines of a file that carry the marker
//! `ABSTRAKTOR_LINE`.
use crate::model::instrumentor::PatternError;
use crate::pattern::{
    captures, compile, regex_builds, regex_captures, regex_plain, regex_source,
};
use crate::text::{chars_of, line_views, lines_of, split_lines, string_of};
use regex::Regex;
use vstd::prelude::*;

verus! {

/// The pattern of a line marker.
pub const LINE_PATTERN: &'static str = "ABSTRAKTOR_LINE";

/// The marked lines of one file, by their numbers, counted from 1.
#[derive(Debug, Default)]
pub struct InstrumentationTargets {
    pub path: String,
    pub targets_line: Vec<usize>,
}

/// The scanner: the pattern, compiled once.
pub struct Instrumentor {
    target_line_regex: Regex,
}

/// Does `line` carry the marker?
pub open spec fn is_marked(line: Seq<char>) -> bool {
    regex_captures(LINE_PATTERN@, line) is Some
}

/// The numbers of the marked lines among the first `n`, ascending.
pub open spec fn marked_in(lines: Seq<Seq<char>>, n: int) -> Seq<usize>
    decreases n,
{
    if n <= 0 {
        Seq::empty()
    } else if is_marked(lines[n - 1]) {
        marked_in(lines, n - 1).push(n as usize)
    } else {
        marked_in(lines, n - 1)
    }
}

/// The numbers of the marked lines of `content`, ascending.
pub open spec fn marked_lines(content: Seq<char>) -> Seq<usize> {
    let lines = lines_of(content);
    marked_in(lines, lines.len() as int)
}

impl Instrumentor {
    #[verifier::type_invariant]
    spec fn inv(&self) -> bool {
        &&& regex_source(self.target_line_regex) == LINE_PATTERN@
        &&& regex_plain(self.target_line_regex)
    }

    /// Compiles the pattern.  Succeeds exactly where the `regex` crate
    /// builds it.
    pub fn new() -> (made: Result<Self, PatternError>)
        ensures
            made is Ok <==> regex_builds(LINE_PATTERN@, usize::BITS as nat),
            made matches Err(e) ==> e.pattern@ == LINE_PATTERN@,
    {
        Self::assemble(compile(LINE_PATTERN))
    }

    /// The scanner that holds the expression, where it was built; else the
    /// error that names the pattern.
    pub fn assemble(line: Result<Regex, regex::Error>) -> (made: Result<Self, PatternError>)
        requires
            line matches Ok(re) ==> regex_source(re) == LINE_PATTERN@ && regex_plain(re),
        ensures
            made is Ok <==> line is Ok,
            made matches Err(e) ==> e.pattern@ == LINE_PATTERN@,
    {
        match line {
            Ok(target_line_regex) => Ok(Instrumentor { target_line_regex }),
            Err(_) => Err(PatternError { pattern: LINE_PATTERN }),
        }
    }

    /// The marked lines of the file at `path` that holds `content`.
    pub fn parse_targets(&self, content: &str, path: &str) -> (targets: InstrumentationTargets)
        ensures
            targets.path@ == path@,
            targets.targets_line@ == marked_lines(content@),
    {
        proof {
            use_type_invariant(self);
        }
        let chars = chars_of(content);
        let lines = split_lines(chars.as_slice());
        let ghost views = lines_of(content@);
        let mut targets_line: Vec<usize> = Vec::new();
        let mut index: usize = 0;
        while index < lines.len()
            invariant
                0 <= index <= lines@.len(),
                line_views(lines@) == views,
                regex_source(self.target_line_regex) == LINE_PATTERN@,
                regex_plain(self.target_line_regex),
                targets_line@ == marked_in(views, index as int),
            decreases lines@.len() - index,
        {
            let line = string_of(lines[index].as_slice());
            assert(views[index as int] == line@);
            let line_num = index + 1;
            if captures(&self.target_line_regex, line.as_str()).is_some() {
                targets_line.push(line_num);
            }
            index += 1;
        }
        InstrumentationTargets { path: path.to_owned(), targets_line }
    }
}

} // verus!
