//! The extension of a path, components separated by `/`.

use vstd::prelude::*;
use vstd::slice::slice_subrange;
use crate::text::{chars_of, string_of};

verus! {

/// How much of a path is left without the separators and `.` components that
/// it ends with.
pub open spec fn tidy_len(path: Seq<char>, n: int) -> int
    decreases n,
{
    if n > 0 && path[n - 1] == '/' {
        tidy_len(path, n - 1)
    } else if n > 1 && path[n - 1] == '.' && path[n - 2] == '/' {
        tidy_len(path, n - 2)
    } else {
        n
    }
}

/// The place behind the last `c` among the first `n` characters, or zero.
pub open spec fn behind_last(s: Seq<char>, c: char, n: int) -> int
    decreases n,
{
    if n <= 0 {
        0
    } else if s[n - 1] == c {
        n
    } else {
        behind_last(s, c, n - 1)
    }
}

/// The last component of a path.
pub open spec fn last_component(path: Seq<char>) -> Seq<char> {
    let end = tidy_len(path, path.len() as int);
    path.subrange(behind_last(path, '/', end), end)
}

/// What follows the last dot of the last component. A component that is only
/// dots has no extension, and neither has one whose only dot is its first
/// character.
pub open spec fn extension_of(path: Seq<char>) -> Option<Seq<char>> {
    let name = last_component(path);
    let behind_dot = behind_last(name, '.', name.len() as int);
    if name == seq!['.', '.'] || behind_dot <= 1 {
        None
    } else {
        Some(name.skip(behind_dot))
    }
}

fn find_behind_last(s: &[char], c: char, n: usize) -> (place: usize)
    requires
        n <= s@.len(),
    ensures
        place == behind_last(s@, c, n as int),
        place <= n,
{
    let mut at: usize = n;
    while at > 0 && s[at - 1] != c
        invariant
            at <= n <= s@.len(),
            behind_last(s@, c, at as int) == behind_last(s@, c, n as int),
        decreases at,
    {
        at = at - 1;
    }
    at
}

/// The extension of a path.
pub fn extension(path: &str) -> (extension: Option<String>)
    ensures
        match extension {
            Some(text) => extension_of(path@) == Some(text@),
            None => extension_of(path@) is None,
        },
{
    let chars: Vec<char> = chars_of(path);
    let mut end: usize = chars.len();
    while end > 0 && (chars[end - 1] == '/' || (end > 1 && chars[end - 1] == '.' && chars[end - 2]
        == '/'))
        invariant
            chars@ == path@,
            end <= chars@.len(),
            tidy_len(path@, end as int) == tidy_len(path@, path@.len() as int),
        decreases end,
    {
        if chars[end - 1] == '/' {
            end = end - 1;
        } else {
            end = end - 2;
        }
    }
    let from: usize = find_behind_last(chars.as_slice(), '/', end);
    let name: &[char] = slice_subrange(chars.as_slice(), from, end);
    assert(name@ == last_component(path@));
    if name.len() == 2 && name[0] == '.' && name[1] == '.' {
        assert(name@ == seq!['.', '.']);
        return None;
    }
    let behind_dot: usize = find_behind_last(name, '.', name.len());
    if behind_dot <= 1 {
        return None;
    }
    let found: &[char] = slice_subrange(name, behind_dot, name.len());
    assert(found@ == name@.skip(behind_dot as int));
    Some(string_of(found))
}

} // verus!
