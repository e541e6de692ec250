//! Names of files and their extensions.
use std::path::PathBuf;
use vstd::prelude::*;

verus! {

/// What stands before the last part of a path, with the slash between them.
pub open spec fn parent_part(path: Seq<char>) -> Seq<char> {
    match path.index_of_last('/') {
        Some(k) => path.take(k + 1),
        None => Seq::empty(),
    }
}

/// The last part of a path.
pub open spec fn last_part(path: Seq<char>) -> Seq<char> {
    match path.index_of_last('/') {
        Some(k) => path.skip(k + 1),
        None => path,
    }
}

/// A file name without its extension: what stands before its last dot, unless that is its first
/// character.
pub open spec fn stem(name: Seq<char>) -> Seq<char> {
    match name.index_of_last('.') {
        Some(k) => if k > 0 {
            name.take(k)
        } else {
            name
        },
        None => name,
    }
}

/// Whether all systems take a path apart alike: it names neither a drive nor a server, its parts
/// are separated by slashes, and the last of them is neither empty nor a dot, unless the path is
/// empty.
pub open spec fn is_portable(path: Seq<char>) -> bool {
    &&& !path.contains('\\')
    &&& !path.contains(':')
    &&& !(path.len() >= 2 && path[0] == '/' && path[1] == '/')
    &&& path.len() > 0 ==> last_part(path).len() > 0 && last_part(path) != seq!['.']
}

/// A portable path with its extension set: that of its last part is replaced, or added where there
/// is none. A path without a file name stays as it is.
pub open spec fn extended(path: Seq<char>, extension: Seq<char>) -> Seq<char> {
    if path.len() == 0 || last_part(path) == seq!['.', '.'] {
        path
    } else {
        parent_part(path) + stem(last_part(path)) + seq!['.'] + extension
    }
}

/// Whether a text can be set as an extension: it is not empty and separates no parts of a path.
pub open spec fn is_extension(text: Seq<char>) -> bool {
    text.len() > 0 && !text.contains('/') && !text.contains('\\')
}

/// Returns a path with its extension set, by `PathBuf::set_extension`. That function sets the
/// extension of the last part, which is the text behind its last dot, unless the dot is its first
/// character; a path without a last part, or whose last part is `..`, has no file name and stays as
/// it is. How other than portable paths are taken apart depends on the system, so nothing is said
/// of them.
#[verifier::external_body]
pub(crate) fn with_extension(path: &str, extension: &str) -> (r: String)
    requires
        is_extension(extension@),
    ensures
        is_portable(path@) ==> r@ == extended(path@, extension@),
{
    let mut r = PathBuf::from(path);
    r.set_extension(extension);
    r.to_string_lossy().into_owned()
}

} // verus!
