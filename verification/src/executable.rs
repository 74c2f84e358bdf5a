//! The parts of finding executables in `PATH` that do not touch the file system.

use vstd::prelude::*;
use crate::text::{split_chars, split_spec, str_chars, string_from_chars, string_views, views};

verus! {

/// The directories listed in a `PATH` value: the pieces between colons, empty ones included.
pub fn path_dirs(path_var: &str) -> (dirs: Vec<String>)
    ensures
        string_views(dirs@) == split_spec(path_var@, ':'),
{
    let chars = str_chars(path_var);
    let pieces = split_chars(chars.as_slice(), ':');
    let mut dirs: Vec<String> = Vec::new();
    let mut i: usize = 0;
    while i < pieces.len()
        invariant
            i <= pieces@.len(),
            string_views(dirs@) == views(pieces@).take(i as int),
        decreases pieces@.len() - i,
    {
        let ghost before = dirs@;
        dirs.push(string_from_chars(pieces[i].as_slice()));
        assert(string_views(dirs@) =~= string_views(before).push(pieces@[i as int]@));
        assert(views(pieces@).take(i + 1) =~= views(pieces@).take(i as int).push(pieces@[i as int]@));
        i = i + 1;
    }
    assert(views(pieces@).take(pieces@.len() as int) == views(pieces@));
    dirs
}

/// Some execute permission bit (owner, group or others) is set in `mode`.
pub open spec fn exec_bits_set(mode: u32) -> bool {
    mode & 0o111u32 != 0
}

/// Whether a file with permission bits `mode` may be executed by someone.
pub fn has_exec_permission(mode: u32) -> (r: bool)
    ensures
        r == exec_bits_set(mode),
{
    mode & 0o111u32 != 0
}

/// Whether a directory entry is listed as an executable: a regular file with some
/// execute permission bit set.
pub fn is_listed_executable(is_file: bool, mode: u32) -> (r: bool)
    ensures
        r == (is_file && exec_bits_set(mode)),
{
    is_file && has_exec_permission(mode)
}

} // verus!
