//! Helpers shared by the reader and the writer.

use vstd::prelude::*;

use crate::errors::Error;

verus! {

// from /usr/include/linux/magic.h
// and from casync util.h
pub const BINFMTFS_MAGIC: i64 = 0x42494e4d;
pub const CGROUP2_SUPER_MAGIC: i64 = 0x63677270;
pub const CGROUP_SUPER_MAGIC: i64 = 0x0027e0eb;
pub const CONFIGFS_MAGIC: i64 = 0x62656570;
pub const DEBUGFS_MAGIC: i64 = 0x64626720;
pub const DEVPTS_SUPER_MAGIC: i64 = 0x00001cd1;
pub const EFIVARFS_MAGIC: i64 = 0xde5e81e4;
pub const FUSE_CTL_SUPER_MAGIC: i64 = 0x65735543;
pub const HUGETLBFS_MAGIC: i64 = 0x958458f6;
pub const MQUEUE_MAGIC: i64 = 0x19800202;
pub const NFSD_MAGIC: i64 = 0x6e667364;
pub const PROC_SUPER_MAGIC: i64 = 0x00009fa0;
pub const PSTOREFS_MAGIC: i64 = 0x6165676C;
pub const RPCAUTH_GSSMAGIC: i64 = 0x67596969;
pub const SECURITYFS_MAGIC: i64 = 0x73636673;
pub const SELINUX_MAGIC: i64 = 0xf97cff8c;
pub const SMACK_MAGIC: i64 = 0x43415d53;
pub const RAMFS_MAGIC: i64 = 0x858458f6;
pub const TMPFS_MAGIC: i64 = 0x01021994;
pub const SYSFS_MAGIC: i64 = 0x62656572;
pub const MSDOS_SUPER_MAGIC: i64 = 0x00004d44;
pub const BTRFS_SUPER_MAGIC: i64 = 0x9123683E;
pub const FUSE_SUPER_MAGIC: i64 = 0x65735546;
pub const EXT4_SUPER_MAGIC: i64 = 0x0000EF53;
pub const XFS_SUPER_MAGIC: i64 = 0x58465342;
pub const ZFS_SUPER_MAGIC: i64 = 0x2FC12FC1;

/// The magic numbers of the file systems that hold no data of their own.
pub open spec fn virtual_file_systems() -> Set<i64> {
    set![
        BINFMTFS_MAGIC,
        CGROUP2_SUPER_MAGIC,
        CGROUP_SUPER_MAGIC,
        CONFIGFS_MAGIC,
        DEBUGFS_MAGIC,
        DEVPTS_SUPER_MAGIC,
        EFIVARFS_MAGIC,
        FUSE_CTL_SUPER_MAGIC,
        HUGETLBFS_MAGIC,
        MQUEUE_MAGIC,
        NFSD_MAGIC,
        PROC_SUPER_MAGIC,
        PSTOREFS_MAGIC,
        RPCAUTH_GSSMAGIC,
        SECURITYFS_MAGIC,
        SELINUX_MAGIC,
        SMACK_MAGIC,
        SYSFS_MAGIC
    ]
}

/// The file systems that hold no data of their own are these: binfmt_misc, cgroup in both versions,
/// configfs, debugfs, devpts, efivarfs, fusectl, hugetlbfs, mqueue, nfsd, proc, pstore, rpc_pipefs,
/// securityfs, selinuxfs, smackfs and sysfs. File systems in memory are not among them.
pub proof fn law_virtual_file_systems(magic: i64)
    ensures
        virtual_file_systems().contains(magic) <==> {
            ||| magic == 0x42494e4d
            ||| magic == 0x63677270
            ||| magic == 0x0027e0eb
            ||| magic == 0x62656570
            ||| magic == 0x64626720
            ||| magic == 0x00001cd1
            ||| magic == 0xde5e81e4
            ||| magic == 0x65735543
            ||| magic == 0x958458f6
            ||| magic == 0x19800202
            ||| magic == 0x6e667364
            ||| magic == 0x00009fa0
            ||| magic == 0x6165676c
            ||| magic == 0x67596969
            ||| magic == 0x73636673
            ||| magic == 0xf97cff8c
            ||| magic == 0x43415d53
            ||| magic == 0x62656572
        },
        !virtual_file_systems().contains(RAMFS_MAGIC),
        !virtual_file_systems().contains(TMPFS_MAGIC),
{
}

/// Check whether a file system magic number belongs to a virtual file system.
pub fn is_virtual_file_system(magic: i64) -> (r: bool)
    ensures
        r == virtual_file_systems().contains(magic),
{
    magic == BINFMTFS_MAGIC || magic == CGROUP2_SUPER_MAGIC || magic == CGROUP_SUPER_MAGIC || magic
        == CONFIGFS_MAGIC || magic == DEBUGFS_MAGIC || magic == DEVPTS_SUPER_MAGIC || magic
        == EFIVARFS_MAGIC || magic == FUSE_CTL_SUPER_MAGIC || magic == HUGETLBFS_MAGIC || magic
        == MQUEUE_MAGIC || magic == NFSD_MAGIC || magic == PROC_SUPER_MAGIC || magic
        == PSTOREFS_MAGIC || magic == RPCAUTH_GSSMAGIC || magic == SECURITYFS_MAGIC || magic
        == SELINUX_MAGIC || magic == SMACK_MAGIC || magic == SYSFS_MAGIC
}

/// `buffer` without its last byte, where that is a zero.
pub open spec fn without_terminator(buffer: Seq<u8>) -> Seq<u8> {
    if buffer.len() > 0 && buffer.last() == 0 {
        buffer.drop_last()
    } else {
        buffer
    }
}

/// A zero at the end is dropped, and nothing else.
pub proof fn law_without_terminator(name: Seq<u8>)
    ensures
        without_terminator(name.push(0)) == name,
        name.len() > 0 && name.last() != 0 ==> without_terminator(name) == name,
        without_terminator(Seq::<u8>::empty()) == Seq::<u8>::empty(),
{
    assert(name.push(0).drop_last() =~= name);
}

/// Helper function to extract file names from binary archive.
pub fn read_os_string(buffer: &[u8]) -> (name: Vec<u8>)
    ensures
        name@ == without_terminator(buffer@),
{
    let len: usize = buffer.len();
    if len > 0 && buffer[len - 1] == 0 {
        copy_range(buffer, 0, len - 1)
    } else {
        copy_range(buffer, 0, len)
    }
}

/// Copy the bytes from `start` up to `end` into a vector.
pub fn copy_range(buffer: &[u8], start: usize, end: usize) -> (out: Vec<u8>)
    requires
        start <= end <= buffer@.len(),
    ensures
        out@ == buffer@.subrange(start as int, end as int),
{
    vstd::slice::slice_to_vec(vstd::slice::slice_subrange(buffer, start, end))
}

/// Copy a vector.
pub fn copy_vec<T: Copy>(v: &Vec<T>) -> (out: Vec<T>)
    ensures
        out@ == v@,
{
    vstd::slice::slice_to_vec(v.as_slice())
}

/// Append `more` to `out`.
pub fn extend(out: &mut Vec<u8>, more: &[u8])
    ensures
        final(out)@ == old(out)@ + more@,
{
    out.extend_from_slice(more);
    proof {
        assert(out@ =~= old(out)@ + more@);
    }
}

/// Check whether two byte strings are the same.
pub fn bytes_eq(a: &[u8], b: &[u8]) -> (r: bool)
    ensures
        r == (a@ == b@),
{
    if a.len() != b.len() {
        return false;
    }
    let mut i: usize = 0;
    while i < a.len()
        invariant
            i <= a@.len(),
            a@.len() == b@.len(),
            forall|j: int| 0 <= j < i ==> a@[j] == b@[j],
        decreases a@.len() - i,
    {
        if a[i] != b[i] {
            return false;
        }
        i = i + 1;
    }
    proof {
        assert(a@ =~= b@);
    }
    true
}

/// A zeroed buffer of the given size.
pub fn vec_new(size: usize) -> (data: Vec<u8>)
    ensures
        data@ == Seq::new(size as nat, |i: int| 0u8),
{
    let data = vec![0u8; size];
    proof {
        assert(data@ =~= Seq::new(size as nat, |i: int| 0u8));
    }
    data
}

pub const MAX_PATH_LEN: u64 = 4096;

// let's play it safe
pub const MAX_FILENAME_LEN: u64 = MAX_PATH_LEN;

// name + attr
pub const MAX_XATTR_LEN: u64 = 65791;

pub const SLASH: u8 = 0x2f;

pub const DOT: u8 = 0x2e;

/// What is wrong with a file name, if anything: a name is a single path component other than `.`
/// and `..`, and at most `MAX_FILENAME_LEN` bytes long.
pub open spec fn filename_error(name: Seq<u8>) -> Option<Error> {
    if name.len() == 0 {
        Some(Error::EmptyName)
    } else if name.contains(SLASH) {
        Some(Error::NameContainsSlash)
    } else if name == seq![DOT] {
        Some(Error::NameIsDot)
    } else if name == seq![DOT, DOT] {
        Some(Error::NameIsDotDot)
    } else if name.len() > MAX_FILENAME_LEN {
        Some(Error::NameTooLong)
    } else {
        None
    }
}

/// Check that a file name can stand in an archive.
pub fn validate_filename(name: &[u8]) -> (r: Result<(), Error>)
    ensures
        r is Ok <==> {
            &&& 0 < name@.len() <= 4096
            &&& forall|i: int| 0 <= i < name@.len() ==> name@[i] != 0x2f
            &&& name@ != seq![0x2eu8]
            &&& name@ != seq![0x2eu8, 0x2eu8]
        },
        match r {
            Ok(()) => filename_error(name@) is None,
            Err(e) => filename_error(name@) == Some(e),
        },
{
    if name.len() == 0 {
        return Err(Error::EmptyName);
    }
    let mut i: usize = 0;
    while i < name.len()
        invariant
            i <= name@.len(),
            name@.len() > 0,
            forall|j: int| 0 <= j < i ==> name@[j] != SLASH,
        decreases name@.len() - i,
    {
        if name[i] == SLASH {
            proof {
                assert(name@[i as int] == SLASH);
            }
            return Err(Error::NameContainsSlash);
        }
        i = i + 1;
    }
    if name.len() == 1 && name[0] == DOT {
        proof {
            assert(name@ =~= seq![DOT]);
        }
        return Err(Error::NameIsDot);
    }
    if name.len() == 2 && name[0] == DOT && name[1] == DOT {
        proof {
            assert(name@ =~= seq![DOT, DOT]);
        }
        return Err(Error::NameIsDotDot);
    }
    if name.len() as u64 > MAX_FILENAME_LEN {
        return Err(Error::NameTooLong);
    }
    Ok(())
}

} // verus!
