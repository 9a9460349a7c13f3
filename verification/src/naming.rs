//! The new name of a file: its parent directory's name, its sequence value
//! and its extension.

use crate::numbering::{extract_numbering, numbering};
use crate::paths::{extension, extension_or_empty, file_name_of, join, parent_of, path_file_name,
    path_join, path_parent};
use crate::text::text_of;
use vstd::prelude::*;
use vstd::string::*;

verus! {

/// The new file name for a file called `file_name` in a directory called
/// `parent_name`: the directory's name, a space, the sequence value written
/// out, a `.`, and the extension. A file without an extension gets a name that
/// ends in the `.`.
pub open spec fn new_file_name(
    parent_name: Seq<char>,
    file_name: Seq<char>,
    anchor: Seq<char>,
) -> Seq<char> {
    parent_name + seq![' '] + numbering(file_name, anchor).text() + seq!['.']
        + extension_or_empty(file_name)
}

/// The new file name for a file of which the directory's name and its own
/// name are known or missing: there is none where either is missing.
pub open spec fn new_file_name_of_parts(
    parent_name: Option<Seq<char>>,
    file_name: Option<Seq<char>>,
    anchor: Seq<char>,
) -> Option<Seq<char>> {
    match (parent_name, file_name) {
        (Some(parent_name), Some(file_name)) => Some(
            new_file_name(parent_name, file_name, anchor),
        ),
        _ => None,
    }
}

/// The name of the directory that the file at `file_path` lies in: the last
/// component of the path's parent. There is none where the path has no
/// parent, or where the parent has no name of its own (it is a root, or ends
/// in `..`).
pub open spec fn parent_name_of(file_path: Seq<char>) -> Option<Seq<char>> {
    match path_parent(file_path) {
        Some(directory) => path_file_name(directory),
        None => None,
    }
}

/// The new path for the file at `file_path`: its new file name, joined to
/// `root_path`. There is none where the file's directory has no name, or
/// where the path has no file name.
pub open spec fn new_name(
    file_path: Seq<char>,
    root_path: Seq<char>,
    anchor: Seq<char>,
) -> Option<Seq<char>> {
    match new_file_name_of_parts(parent_name_of(file_path), path_file_name(file_path), anchor) {
        Some(name) => Some(path_join(root_path, name)),
        None => None,
    }
}

/// Makes the new file name for a file called `file_name` that lies in a
/// directory called `parent_name`.
pub fn make_file_name(parent_name: &str, file_name: &str, num_after: &str) -> (name: String)
    ensures
        name@ == new_file_name(parent_name@, file_name@, num_after@),
{
    proof {
        reveal_strlit(" ");
        reveal_strlit(".");
    }
    let number = extract_numbering(file_name, num_after).to_text();
    let mut name = parent_name.to_owned();
    name.append(" ");
    name.append(number.as_str());
    name.append(".");
    match extension(file_name) {
        Some(ext) => {
            name.append(ext.as_str());
        },
        None => {
            assert(name@ + Seq::<char>::empty() =~= name@);
        },
    }
    name
}

/// Makes the new file name from what was found of a path: the name of the
/// file's directory and the file's own name. Returns `None` where either was
/// not found.
pub fn name_from_parts(
    parent_name: &Option<String>,
    file_name: &Option<String>,
    num_after: &str,
) -> (name: Option<String>)
    ensures
        text_of(name) == new_file_name_of_parts(
            text_of(*parent_name),
            text_of(*file_name),
            num_after@,
        ),
{
    match (parent_name, file_name) {
        (Some(parent_name), Some(file_name)) => Some(
            make_file_name(parent_name.as_str(), file_name.as_str(), num_after),
        ),
        _ => None,
    }
}

/// Generates the new path of the file at `file_path`: under `root_path`, with
/// the name of the file's directory, the file's sequence value and its
/// extension. Returns `None` where the path cannot be taken apart; nothing on
/// disk is looked at.
///
/// Generating again from a new path does not give that path back. A renamed
/// file lies right under the root, so the next name starts with the root's own
/// name, and the first number in the new name may be one that came from the
/// directory's name.
pub fn generate_new_name(file_path: &str, root_path: &str, num_after: &str) -> (name: Option<
    String,
>)
    ensures
        text_of(name) == new_name(file_path@, root_path@, num_after@),
{
    let parent_name = match parent_of(file_path) {
        Some(directory) => file_name_of(directory.as_str()),
        None => None,
    };
    let file_name = file_name_of(file_path);
    match name_from_parts(&parent_name, &file_name, num_after) {
        Some(name) => Some(join(root_path, name.as_str())),
        None => None,
    }
}

} // verus!
