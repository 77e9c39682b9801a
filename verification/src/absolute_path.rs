//! The absolute-path resolver: compose a base directory with a possibly
//! relative target path and clean the result, without touching the file
//! system.

use vstd::prelude::*;

use crate::dialect::is_rooted;
use crate::dialect::spec_clean;
use crate::dialect::Dialect;
use crate::path_clean::clean;
use crate::path_clean::is_root;
use crate::path_clean::UnixPath;

verus! {

/// Why `absolute_path` rejected its input.
#[derive(Clone, Copy, Debug, PartialEq, Eq, Structural)]
pub enum PathError {
    /// The supplied base directory is not an absolute path.
    InvalidInput,
}

/// The path that `absolute_path` cleans: the base directory alone when the
/// target path is empty, the target path alone when it is itself absolute,
/// and otherwise the target path appended to the base directory.
pub open spec fn resolved_path(base_dir: Seq<char>, path: Seq<char>) -> Seq<char> {
    if path.len() == 0 {
        base_dir
    } else if is_rooted(Dialect::Unix, path) {
        path
    } else {
        base_dir + seq!['/'] + path
    }
}

/// Normalize a target path to an absolute path relative to a base directory
/// (typically the current working directory) without accessing the file
/// system. The base directory must be absolute; the host dialect of this
/// library treats `/` as the separator.
pub fn absolute_path(base_dir: &str, path: &str) -> (r: Result<String, PathError>)
    ensures
        is_rooted(Dialect::Unix, base_dir@) ==> (r matches Ok(s) && s@ == spec_clean(
            Dialect::Unix,
            resolved_path(base_dir@, path@),
        )),
        !is_rooted(Dialect::Unix, base_dir@) ==> r == Err::<String, PathError>(
            PathError::InvalidInput,
        ),
{
    if !is_root::<UnixPath>(base_dir) {
        return Err(PathError::InvalidInput);
    }
    if path.unicode_len() == 0 {
        Ok(clean(base_dir))
    } else if is_root::<UnixPath>(path) {
        Ok(clean(path))
    } else {
        let mut joined = String::from_str(base_dir);
        joined.append("/");
        joined.append(path);
        proof {
            reveal_strlit("/");
            assert("/"@ =~= seq!['/']);
            assert(joined@ == resolved_path(base_dir@, path@));
        }
        Ok(clean(joined.as_str()))
    }
}

} // verus!
