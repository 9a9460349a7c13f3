//! Taking paths apart and putting them together.
//!
//! Paths are held as text. What the parent of a path is, what its last
//! component is and how a name is joined to a directory is the platform's
//! business: for these the library calls `std::path` and takes the results
//! as they come. The extension of a file name follows a rule short enough to
//! be written down and proved here.

use crate::text::{chars_of, text_of};
use vstd::prelude::*;
use vstd::string::*;

verus! {

/// The path that `std::path::Path::parent` gives for `path`: the path without
/// its last component, and `None` where there is nothing to leave out.
pub uninterp spec fn path_parent(path: Seq<char>) -> Option<Seq<char>>;

/// The name that `std::path::Path::file_name` gives for `path`: its last
/// component where that is an ordinary name, and `None` otherwise.
pub uninterp spec fn path_file_name(path: Seq<char>) -> Option<Seq<char>>;

/// The path that `std::path::Path::join` gives for `name` adjoined to `base`.
pub uninterp spec fn path_join(base: Seq<char>, name: Seq<char>) -> Seq<char>;

/// Calls `std::path::Path::parent` on `path`. Nothing is claimed of the
/// result but that it is the one `path_parent` names: what the standard
/// library returns for this path.
#[verifier::external_body]
pub(crate) fn parent_of(path: &str) -> (parent: Option<String>)
    ensures
        text_of(parent) == path_parent(path@),
{
    let parent = std::path::Path::new(path).parent()?;
    Some(parent.to_str()?.to_owned())
}

/// Calls `std::path::Path::file_name` on `path`. Nothing is claimed of the
/// result but that it is the one `path_file_name` names: what the standard
/// library returns for this path.
#[verifier::external_body]
pub(crate) fn file_name_of(path: &str) -> (name: Option<String>)
    ensures
        text_of(name) == path_file_name(path@),
{
    let name = std::path::Path::new(path).file_name()?;
    Some(name.to_str()?.to_owned())
}

/// Calls `std::path::Path::join` to adjoin `name` to `base`. Nothing is
/// claimed of the result but that it is the one `path_join` names: what the
/// standard library returns for these two.
#[verifier::external_body]
pub(crate) fn join(base: &str, name: &str) -> (joined: String)
    ensures
        joined@ == path_join(base@, name@),
{
    std::path::Path::new(base).join(name).to_string_lossy().into_owned()
}

/// Index of the last `c` in `s`, and -1 where `s` holds none.
pub open spec fn last_index_of(s: Seq<char>, c: char) -> int
    decreases s.len(),
{
    if s.len() == 0 {
        -1
    } else if s.last() == c {
        s.len() - 1
    } else {
        last_index_of(s.drop_last(), c)
    }
}

/// The extension of the file name `name`: what follows its last `.`. A name
/// without a `.`, and one whose only `.` is its first character, has none.
pub open spec fn extension_of(name: Seq<char>) -> Option<Seq<char>> {
    let dot = last_index_of(name, '.');
    if dot <= 0 {
        None
    } else {
        Some(name.skip(dot + 1))
    }
}

/// The extension of `name`, empty where it has none.
pub open spec fn extension_or_empty(name: Seq<char>) -> Seq<char> {
    match extension_of(name) {
        Some(extension) => extension,
        None => Seq::empty(),
    }
}

/// With a `c` at `at` and none behind it, `at` is the last index of `c`.
proof fn lemma_last_index(s: Seq<char>, c: char, at: int)
    requires
        -1 <= at < s.len(),
        at >= 0 ==> s[at] == c,
        forall|k: int| at < k < s.len() ==> s[k] != c,
    ensures
        last_index_of(s, c) == at,
    decreases s.len(),
{
    if s.len() > 0 && at < s.len() - 1 {
        lemma_last_index(s.drop_last(), c, at);
    }
}

/// Returns the extension of the file name `name`, without the `.`.
pub fn extension(name: &str) -> (found: Option<String>)
    ensures
        text_of(found) == extension_of(name@),
{
    let chars = chars_of(name);
    let n = chars.len();
    let mut behind: usize = n;
    while behind > 0 && chars[behind - 1] != '.'
        invariant
            behind <= n,
            n == chars.len(),
            forall|k: int| behind <= k < n ==> chars@[k] != '.',
        decreases behind,
    {
        behind -= 1;
    }
    proof {
        lemma_last_index(name@, '.', behind - 1);
    }
    if behind <= 1 {
        None
    } else {
        Some(name.substring_char(behind, n).to_owned())
    }
}

} // verus!
