//! The directory part of a file path.

use crate::text::{chars_of, string_of};
use vstd::prelude::*;

verus! {

/// The position of the last `c` in `s`.
pub open spec fn last_index_of(s: Seq<char>, c: char) -> Option<int>
    decreases s.len(),
{
    if s.len() == 0 {
        None
    } else if s.last() == c {
        Some(s.len() - 1)
    } else {
        last_index_of(s.drop_last(), c)
    }
}

/// The directory of a file path: what stands before the last `/`, or,
/// where the path holds none, before the last `\`. A path that holds
/// neither names no directory.
pub open spec fn directory_of(file_path: Seq<char>) -> Option<Seq<char>> {
    match last_index_of(file_path, '/') {
        Some(i) => Some(file_path.take(i)),
        None => match last_index_of(file_path, '\\') {
            Some(i) => Some(file_path.take(i)),
            None => None,
        },
    }
}

/// Finds the last `c` in `s`.
fn find_last(s: &Vec<char>, c: char) -> (found: Option<usize>)
    ensures
        match found {
            Some(i) => i < s.len() && last_index_of(s@, c) == Some(i as int),
            None => last_index_of(s@, c) is None,
        },
{
    let mut i: usize = s.len();
    proof {
        assert(s@.take(i as int) =~= s@);
    }
    while i > 0
        invariant
            i <= s.len(),
            last_index_of(s@, c) == last_index_of(s@.take(i as int), c),
        decreases i,
    {
        if s[i - 1] == c {
            return Some(i - 1);
        }
        proof {
            assert(s@.take(i as int).drop_last() =~= s@.take(i - 1));
        }
        i = i - 1;
    }
    None
}

/// The directory in which the file at `file_path` lies, if the path
/// names one.
pub fn parent_directory(file_path: &str) -> (directory: Option<String>)
    ensures
        match directory {
            Some(d) => directory_of(file_path@) == Some(d@),
            None => directory_of(file_path@) is None,
        },
{
    let chars = chars_of(file_path);
    match find_last(&chars, '/') {
        Some(i) => Some(string_of(&chars, 0, i)),
        None => match find_last(&chars, '\\') {
            Some(i) => Some(string_of(&chars, 0, i)),
            None => None,
        },
    }
}

} // verus!
