//! The ignore file: one path per line; a line that is `.` or `..` once trimmed
//! is skipped with a warning.
use vstd::prelude::*;
use crate::path::{components, path_eq};
use crate::text::{chars_of, lines, lines_spec, string_of, trim, trim_spec, words_view};

verus! {

/// A line of the ignore file, as it is to be handled.
#[derive(Debug, Clone, PartialEq)]
pub enum IgnoreLine {
    /// A path to ignore, the line as it stands.
    Path(String),
    /// A line that is skipped; it holds the trimmed line, for the warning.
    Skipped(String),
}

/// The line, trimmed, is `.` or `..`.
pub open spec fn invalid_ignore(line: Seq<char>) -> bool {
    trim_spec(line) == seq!['.'] || trim_spec(line) == seq!['.', '.']
}

fn is_invalid_trimmed(t: &Vec<char>) -> (r: bool)
    ensures
        r == (t@ == seq!['.'] || t@ == seq!['.', '.']),
{
    if t.len() == 1 && t[0] == '.' {
        assert(t@ =~= seq!['.']);
        true
    } else if t.len() == 2 && t[0] == '.' && t[1] == '.' {
        assert(t@ =~= seq!['.', '.']);
        true
    } else {
        false
    }
}

pub fn is_invalid_ignore(line: &str) -> (r: bool)
    ensures
        r == invalid_ignore(line@),
{
    let trimmed = trim(chars_of(line).as_slice());
    is_invalid_trimmed(&trimmed)
}

/// How line `line` of the ignore file is handled.
pub open spec fn handles_line(l: IgnoreLine, line: Seq<char>) -> bool {
    match l {
        IgnoreLine::Path(p) => !invalid_ignore(line) && p@ == line,
        IgnoreLine::Skipped(t) => invalid_ignore(line) && t@ == trim_spec(line),
    }
}

/// The lines of the ignore file with contents `file_contents`, each marked as a
/// path to ignore or a line to skip.
pub fn read_ignore_lines(file_contents: &str) -> (r: Vec<IgnoreLine>)
    ensures
        r@.len() == lines_spec(file_contents@).len(),
        forall|i: int| 0 <= i < r@.len() ==> handles_line(#[trigger] r@[i], lines_spec(file_contents@)[i]),
{
    let all = lines(chars_of(file_contents).as_slice());
    let mut r: Vec<IgnoreLine> = Vec::new();
    let mut i: usize = 0;
    while i < all.len()
        invariant
            i <= all@.len(),
            words_view(all@) == lines_spec(file_contents@),
            r@.len() == i,
            forall|j: int| 0 <= j < i ==> handles_line(#[trigger] r@[j], all@[j]@),
        decreases all@.len() - i,
    {
        let trimmed = trim(all[i].as_slice());
        if is_invalid_trimmed(&trimmed) {
            r.push(IgnoreLine::Skipped(string_of(trimmed.as_slice())));
        } else {
            r.push(IgnoreLine::Path(string_of(all[i].as_slice())));
        }
        i = i + 1;
    }
    assert forall|i: int| 0 <= i < r@.len() implies handles_line(
        #[trigger] r@[i],
        lines_spec(file_contents@)[i],
    ) by {
        assert(words_view(all@)[i] == all@[i]@);
    }
    r
}

/// Whether `path` is one of the `ignored` paths, comparing them as `Path`s are
/// compared.
pub fn is_ignored(path: &str, ignored: &Vec<String>) -> (r: bool)
    ensures
        r == exists|i: int| 0 <= i < ignored@.len() && components(#[trigger] ignored@[i]@) == components(path@),
{
    let mut i: usize = 0;
    while i < ignored.len()
        invariant
            i <= ignored@.len(),
            forall|j: int| 0 <= j < i ==> components(#[trigger] ignored@[j]@) != components(path@),
        decreases ignored@.len() - i,
    {
        if path_eq(ignored[i].as_str(), path) {
            return true;
        }
        i = i + 1;
    }
    false
}

} // verus!
