//! File types and special permission bits.
//!
//! While these constants correspond to `libc::S_` constants, we need these to be fixed for the
//! format itself, so we redefine them here.
//!
//! Additionally this gets rid of a bunch of casts between u32 and u64.
//!
//! You can usually find the values for these in `/usr/include/linux/stat.h`.

use vstd::prelude::*;

verus! {

pub const IFMT: u64 = 0o0170000;

pub const IFSOCK: u64 = 0o0140000;

pub const IFLNK: u64 = 0o0120000;

pub const IFREG: u64 = 0o0100000;

pub const IFBLK: u64 = 0o0060000;

pub const IFDIR: u64 = 0o0040000;

pub const IFCHR: u64 = 0o0020000;

pub const IFIFO: u64 = 0o0010000;

pub const ISUID: u64 = 0o0004000;

pub const ISGID: u64 = 0o0002000;

pub const ISVTX: u64 = 0o0001000;

/// The file type portion of a mode.
pub open spec fn type_bits(mode: u64) -> u64 {
    mode & IFMT
}

/// The permission portion of a mode.
pub open spec fn permission_bits(mode: u64) -> u64 {
    mode & !IFMT
}

/// `mode` with its file type replaced by that of `with`.
pub open spec fn replace_type(mode: u64, with: u64) -> u64 {
    permission_bits(mode) | type_bits(with)
}

/// Replacing the file type of a mode sets the type and keeps the permissions.
pub proof fn law_replace_type(mode: u64, with: u64)
    ensures
        type_bits(replace_type(mode, with)) == type_bits(with),
        permission_bits(replace_type(mode, with)) == permission_bits(mode),
{
    assert((((mode & !0o0170000u64) | (with & 0o0170000u64)) & 0o0170000u64) == (with
        & 0o0170000u64)) by (bit_vector);
    assert((((mode & !0o0170000u64) | (with & 0o0170000u64)) & !0o0170000u64) == (mode
        & !0o0170000u64)) by (bit_vector);
}

/// A file type: one of the values that the type bits of a mode can have.
pub open spec fn is_file_type(t: u64) -> bool {
    ||| t == IFSOCK
    ||| t == IFLNK
    ||| t == IFREG
    ||| t == IFBLK
    ||| t == IFDIR
    ||| t == IFCHR
    ||| t == IFIFO
}

/// Setting a file type makes it the type of the mode and keeps the permissions.
pub proof fn law_set_type(mode: u64, t: u64)
    requires
        is_file_type(t),
    ensures
        type_bits(permission_bits(mode) | t) == t,
        permission_bits(permission_bits(mode) | t) == permission_bits(mode),
{
    assert(t & 0o0170000u64 == t) by (bit_vector)
        requires
            t == 0o0140000u64 || t == 0o0120000u64 || t == 0o0100000u64 || t == 0o0060000u64 || t
                == 0o0040000u64 || t == 0o0020000u64 || t == 0o0010000u64,
    ;
    law_replace_type(mode, t);
}

/// A mode consists of its file type, which takes four bits above the lower twelve, and of all the
/// rest, the permissions. Together they make up the mode.
pub proof fn law_mode_parts(mode: u64)
    ensures
        type_bits(mode) == (mode / 0o10000) % 16 * 0o10000,
        permission_bits(mode) == mode - type_bits(mode),
        type_bits(mode) | permission_bits(mode) == mode,
        type_bits(permission_bits(mode)) == 0,
        permission_bits(type_bits(mode)) == 0,
{
    assert((mode & 0o0170000u64) == (mode / 0o10000u64) % 16u64 * 0o10000u64) by (bit_vector);
    assert((mode & !0o0170000u64) == mode - (mode & 0o0170000u64)) by (bit_vector);
    assert((mode & 0o0170000u64) | (mode & !0o0170000u64) == mode) by (bit_vector);
    assert((mode & !0o0170000u64) & 0o0170000u64 == 0) by (bit_vector);
    assert((mode & 0o0170000u64) & !0o0170000u64 == 0) by (bit_vector);
}

/// The file types and the special permissions have the numbers that they have everywhere.
pub proof fn law_numbers()
    ensures
        IFSOCK == 0o140000,
        IFLNK == 0o120000,
        IFREG == 0o100000,
        IFBLK == 0o060000,
        IFDIR == 0o040000,
        IFCHR == 0o020000,
        IFIFO == 0o010000,
        ISUID == 0o4000,
        ISGID == 0o2000,
        ISVTX == 0o1000,
        IFMT == 0o170000,
{
}

} // verus!
