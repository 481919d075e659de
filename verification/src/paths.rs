//! Paths, as text.

use crate::text::{chars, same_str, string};
use vstd::prelude::*;
use vstd::slice::slice_subrange;

verus! {

/// Where the last part of a path ends: slashes behind it, and dots alone between slashes, are
/// no part of their own.
pub open spec fn name_end(path: Seq<char>, end: int) -> int
    decreases end,
{
    if end <= 0 {
        0
    } else if path[end - 1] == '/' {
        name_end(path, end - 1)
    } else if path[end - 1] == '.' && end >= 2 && path[end - 2] == '/' {
        name_end(path, end - 1)
    } else {
        end
    }
}

/// Where the part of a path before a place starts.
pub open spec fn name_start(path: Seq<char>, at: int) -> int
    decreases at,
{
    if at <= 0 {
        0
    } else if path[at - 1] == '/' {
        at
    } else {
        name_start(path, at - 1)
    }
}

/// The last part of a path; none, where it is the root, or leads up.
pub open spec fn file_name(path: Seq<char>) -> Option<Seq<char>> {
    let end = name_end(path, path.len() as int);
    let name = path.subrange(name_start(path, end), end);
    if end == 0 || name == ".."@ || name == "."@ {
        None
    } else {
        Some(name)
    }
}

pub fn find_name(path: &[char]) -> (r: (usize, usize))
    ensures
        r.1 == name_end(path@, path@.len() as int),
        r.0 == name_start(path@, r.1 as int),
        r.0 <= r.1 <= path@.len(),
{
    let mut end: usize = path.len();
    while end > 0 && (path[end - 1] == '/' || (path[end - 1] == '.' && end >= 2 && path[end - 2]
        == '/'))
        invariant
            end <= path@.len(),
            name_end(path@, path@.len() as int) == name_end(path@, end as int),
        decreases end,
    {
        end = end - 1;
    }
    let mut start: usize = end;
    while start > 0 && path[start - 1] != '/'
        invariant
            start <= end <= path@.len(),
            name_start(path@, end as int) == name_start(path@, start as int),
        decreases start,
    {
        start = start - 1;
    }
    (start, end)
}

/// The last part of a path.
pub fn find_file_name(path: &str) -> (r: Option<String>)
    ensures
        r.deep_view() == file_name(path@),
{
    let letters: Vec<char> = chars(path);
    let (start, end): (usize, usize) = find_name(letters.as_slice());
    let name: String = string(slice_subrange(letters.as_slice(), start, end));
    if end == 0 || same_str(name.as_str(), "..") || same_str(name.as_str(), ".") {
        None
    } else {
        Some(name)
    }
}

/// What a path is in: all but its last part; none of the root, or of nothing.
pub open spec fn parent_of(path: Seq<char>) -> Option<Seq<char>> {
    let end = name_end(path, path.len() as int);
    let start = name_start(path, end);
    let before = name_end(path, start);
    if end == 0 {
        None
    } else if before == 0 && path[0] == '/' {
        Some("/"@)
    } else {
        Some(path.subrange(0, before))
    }
}

pub fn find_parent(path: &str) -> (r: Option<String>)
    ensures
        r.deep_view() == parent_of(path@),
{
    let letters: Vec<char> = chars(path);
    let (start, end): (usize, usize) = find_name(letters.as_slice());
    if end == 0 {
        return None;
    }
    let mut before: usize = start;
    while before > 0 && (letters[before - 1] == '/' || (letters[before - 1] == '.' && before >= 2
        && letters[before - 2] == '/'))
        invariant
            before <= start <= letters@.len(),
            name_end(letters@, start as int) == name_end(letters@, before as int),
        decreases before,
    {
        before = before - 1;
    }
    if before == 0 && letters[0] == '/' {
        return Some("/".to_string());
    }
    Some(string(slice_subrange(letters.as_slice(), 0, before)))
}

} // verus!
