//! The executability test, decided from an entry's metadata handed in as
//! plain values. The surrounding program queries the filesystem and passes
//! what it saw; a metadata query that failed is passed as `None` and counts
//! as not executable.

use vstd::prelude::*;

verus! {

/// What the executability test reads from a directory entry's metadata:
/// whether the entry is a regular file, whether it is a symbolic link, and
/// its permission bits. When symbolic links are followed, the fields describe
/// the resolved target, so `is_symlink` is false.
#[derive(Clone, Copy, PartialEq, Eq, Structural, Debug)]
pub struct FileMeta {
    pub is_file: bool,
    pub is_symlink: bool,
    pub mode: u32,
}

/// Any of the owner, group or other execute permission bits is set.
pub open spec fn exec_bit_set(mode: u32) -> bool {
    mode & 0o111 != 0
}

/// The entry counts as executable. Following symbolic links, only a regular
/// resolved target with an execute bit counts; not following them, a regular
/// file or a symbolic link with an execute bit in its own mode counts.
pub open spec fn counts_as_executable(follow_symlinks: bool, m: FileMeta) -> bool {
    if follow_symlinks {
        m.is_file && exec_bit_set(m.mode)
    } else {
        (m.is_file || m.is_symlink) && exec_bit_set(m.mode)
    }
}

/// Decides whether a directory entry counts as executable. `meta` is `None`
/// when the metadata could not be read; such an entry never counts.
pub fn is_executable(follow_symlinks: bool, meta: Option<FileMeta>) -> (r: bool)
    ensures
        r == match meta {
            Option::Some(m) => counts_as_executable(follow_symlinks, m),
            Option::None => false,
        },
{
    match meta {
        Option::Some(m) => {
            let typed = if follow_symlinks {
                m.is_file
            } else {
                m.is_file || m.is_symlink
            };
            typed && m.mode & 0o111 != 0
        },
        Option::None => false,
    }
}

} // verus!
