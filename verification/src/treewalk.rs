//! The tree builder's decisions. The recursive directory walk itself is
//! filesystem work and stays with the embedding program; it consults
//! these rules for each entry it meets, collects every produced object
//! into one flat list, and sorts each tree before hashing it.

use vstd::prelude::*;
use vstd::string::StringSliceAdditionalSpecFns;

verus! {

/// The mode a directory entry receives: a subtree, an executable file, or
/// a plain file.
pub open spec fn spec_entry_mode(is_dir: bool, is_executable: bool) -> u32 {
    if is_dir {
        0o040000u32
    } else if is_executable {
        0o100755u32
    } else {
        0o100644u32
    }
}

/// The mode a directory entry receives, from what the filesystem reports:
/// a subtree, an executable file, or a plain file.
pub fn entry_mode(is_dir: bool, is_executable: bool) -> (r: u32)
    ensures
        r == spec_entry_mode(is_dir, is_executable),
{
    if is_dir {
        0o040000
    } else if is_executable {
        0o100755
    } else {
        0o100644
    }
}

/// Whether the walk skips an entry entirely: any entry whose name starts
/// with the hidden-prefix marker, which keeps the repository's own
/// metadata out of its trees.
pub fn skip_entry(name: &str) -> (r: bool)
    ensures
        r == (name.spec_bytes().len() > 0 && name.spec_bytes()[0] == 46),
{
    let b = name.as_bytes();
    b.len() > 0 && *vstd::slice::slice_index_get(b, 0) == 46
}

} // verus!
