//! The part of an entry's metadata that is found in a `stat()` call.

use vstd::prelude::*;

use crate::format::mode::{self, permission_bits, type_bits};
use crate::format::time::{SignedDuration, StatxTimestamp, signed_nanos, NANOS_PER_SEC};
use crate::format::wire::{
    get32, get64, le32, le64, lemma_le32_len, lemma_le64_len, lemma_word32, lemma_word64, put32,
    put64, word32, word64, Wire,
};

verus! {

/// Data typically found in a `stat()` call.
#[derive(Clone, Copy, Debug, PartialEq, Eq, Structural)]
pub struct Entry {
    pub mode: u64,
    pub flags: u64,
    pub uid: u32,
    pub gid: u32,
    pub mtime: StatxTimestamp,
}

impl Entry {
    /// All zero.
    pub open spec fn spec_default() -> Self {
        Entry { mode: 0, flags: 0, uid: 0, gid: 0, mtime: StatxTimestamp { secs: 0, nanos: 0 } }
    }
}

impl std::default::Default for Entry {
    fn default() -> (r: Self)
        ensures
            r == Entry::spec_default(),
    {
        Entry { mode: 0, flags: 0, uid: 0, gid: 0, mtime: StatxTimestamp::zero() }
    }
}

/// Builder pattern methods.
impl Entry {
    pub fn mode(self, mode: u64) -> (r: Self)
        ensures
            r == (Entry { mode, ..self }),
    {
        Entry { mode, ..self }
    }

    pub fn flags(self, flags: u64) -> (r: Self)
        ensures
            r == (Entry { flags, ..self }),
    {
        Entry { flags, ..self }
    }

    pub fn uid(self, uid: u32) -> (r: Self)
        ensures
            r == (Entry { uid, ..self }),
    {
        Entry { uid, ..self }
    }

    pub fn gid(self, gid: u32) -> (r: Self)
        ensures
            r == (Entry { gid, ..self }),
    {
        Entry { gid, ..self }
    }

    pub fn mtime(self, mtime: StatxTimestamp) -> (r: Self)
        ensures
            r == (Entry { mtime, ..self }),
    {
        Entry { mtime, ..self }
    }

    pub fn set_dir(self) -> (r: Self)
        ensures
            r == (Entry { mode: permission_bits(self.mode) | mode::IFDIR, ..self }),
    {
        let mode: u64 = self.mode;
        self.mode((mode & !mode::IFMT) | mode::IFDIR)
    }

    pub fn set_regular_file(self) -> (r: Self)
        ensures
            r == (Entry { mode: permission_bits(self.mode) | mode::IFREG, ..self }),
    {
        let mode: u64 = self.mode;
        self.mode((mode & !mode::IFMT) | mode::IFREG)
    }

    pub fn set_symlink(self) -> (r: Self)
        ensures
            r == (Entry { mode: permission_bits(self.mode) | mode::IFLNK, ..self }),
    {
        let mode: u64 = self.mode;
        self.mode((mode & !mode::IFMT) | mode::IFLNK)
    }

    pub fn set_blockdev(self) -> (r: Self)
        ensures
            r == (Entry { mode: permission_bits(self.mode) | mode::IFBLK, ..self }),
    {
        let mode: u64 = self.mode;
        self.mode((mode & !mode::IFMT) | mode::IFBLK)
    }

    pub fn set_chardev(self) -> (r: Self)
        ensures
            r == (Entry { mode: permission_bits(self.mode) | mode::IFCHR, ..self }),
    {
        let mode: u64 = self.mode;
        self.mode((mode & !mode::IFMT) | mode::IFCHR)
    }

    pub fn set_fifo(self) -> (r: Self)
        ensures
            r == (Entry { mode: permission_bits(self.mode) | mode::IFIFO, ..self }),
    {
        let mode: u64 = self.mode;
        self.mode((mode & !mode::IFMT) | mode::IFIFO)
    }
}

/// Convenience accessor methods.
impl Entry {
    /// Get the mtime as duration since the epoch.
    pub fn mtime_as_duration(&self) -> (r: SignedDuration)
        ensures
            signed_nanos(r) == self.mtime.total_nanos(),
            r is Ok <==> self.mtime.total_nanos() >= 0,
            match r {
                Ok(d) => d.well_formed(),
                Err(d) => d.well_formed(),
            },
    {
        self.mtime.to_duration()
    }

    /// Get the file type portion of the mode bitfield.
    pub fn get_file_bits(&self) -> (r: u64)
        ensures
            r == type_bits(self.mode),
    {
        self.mode & mode::IFMT
    }

    /// Get the permission portion of the mode bitfield.
    pub fn get_permission_bits(&self) -> (r: u64)
        ensures
            r == permission_bits(self.mode),
    {
        self.mode & !mode::IFMT
    }
}

/// Convenience methods.
impl Entry {
    /// Get the file type (`mode & mode::IFMT`).
    pub fn file_type(&self) -> (r: u64)
        ensures
            r == type_bits(self.mode),
    {
        self.mode & mode::IFMT
    }

    /// Get the file mode bits (`mode & !mode::IFMT`).
    pub fn file_mode(&self) -> (r: u64)
        ensures
            r == permission_bits(self.mode),
    {
        self.mode & !mode::IFMT
    }

    /// Check whether this is a directory.
    pub fn is_dir(&self) -> (r: bool)
        ensures
            r == (type_bits(self.mode) == mode::IFDIR),
    {
        (self.mode & mode::IFMT) == mode::IFDIR
    }

    /// Check whether this is a symbolic link.
    pub fn is_symlink(&self) -> (r: bool)
        ensures
            r == (type_bits(self.mode) == mode::IFLNK),
    {
        (self.mode & mode::IFMT) == mode::IFLNK
    }

    /// Check whether this is a device node.
    pub fn is_device(&self) -> (r: bool)
        ensures
            r == (type_bits(self.mode) == mode::IFCHR || type_bits(self.mode) == mode::IFBLK),
    {
        let fmt: u64 = self.mode & mode::IFMT;
        fmt == mode::IFCHR || fmt == mode::IFBLK
    }

    /// Check whether this is a block device node.
    pub fn is_blockdev(&self) -> (r: bool)
        ensures
            r == (type_bits(self.mode) == mode::IFBLK),
    {
        let fmt: u64 = self.mode & mode::IFMT;
        fmt == mode::IFBLK
    }

    /// Check whether this is a character device node.
    pub fn is_chardev(&self) -> (r: bool)
        ensures
            r == (type_bits(self.mode) == mode::IFCHR),
    {
        let fmt: u64 = self.mode & mode::IFMT;
        fmt == mode::IFCHR
    }

    /// Check whether this is a regular file.
    pub fn is_regular_file(&self) -> (r: bool)
        ensures
            r == (type_bits(self.mode) == mode::IFREG),
    {
        (self.mode & mode::IFMT) == mode::IFREG
    }

    /// Check whether this is a named pipe (FIFO).
    pub fn is_fifo(&self) -> (r: bool)
        ensures
            r == (type_bits(self.mode) == mode::IFIFO),
    {
        (self.mode & mode::IFMT) == mode::IFIFO
    }

    /// Check whether this is a named socket.
    pub fn is_socket(&self) -> (r: bool)
        ensures
            r == (type_bits(self.mode) == mode::IFSOCK),
    {
        (self.mode & mode::IFMT) == mode::IFSOCK
    }
}

/// The file types that a file system tells apart.
#[derive(Clone, Copy, Debug, PartialEq, Eq, Structural)]
pub enum FileType {
    Directory,
    Symlink,
    Other,
}

impl FileType {
    /// The type bits of a mode.
    pub open spec fn bits(self) -> u64 {
        match self {
            FileType::Directory => mode::IFDIR,
            FileType::Symlink => mode::IFLNK,
            FileType::Other => mode::IFREG,
        }
    }
}

impl Entry {
    /// Put together what a file system tells of a file. A time of modification before the epoch,
    /// or none at all, becomes the epoch.
    pub fn from_file(
        mode: u32,
        uid: u32,
        gid: u32,
        modified: Option<SignedDuration>,
        file_type: FileType,
    ) -> (r: Self)
        requires
            modified matches Some(Ok(d)) ==> d.well_formed() && d.secs <= i64::MAX,
        ensures
            r.mode == mode as u64 | file_type.bits(),
            r.flags == 0,
            r.uid == uid,
            r.gid == gid,
            r.mtime.nanos < NANOS_PER_SEC,
            r.mtime.total_nanos() == match modified {
                Some(Ok(d)) => d.total_nanos(),
                _ => 0,
            },
    {
        let mtime = match modified {
            Some(Ok(d)) => StatxTimestamp::from_duration_since_epoch(d),
            _ => StatxTimestamp::zero(),
        };
        let mode: u64 = mode as u64;
        let mode: u64 = match file_type {
            FileType::Directory => mode | mode::IFDIR,
            FileType::Symlink => mode | mode::IFLNK,
            FileType::Other => mode | mode::IFREG,
        };
        Entry { mode, flags: 0, uid, gid, mtime }
    }
}

impl Wire for Entry {
    open spec fn wire_size() -> nat {
        40
    }

    open spec fn wire(self) -> Seq<u8> {
        le64(self.mode) + le64(self.flags) + le32(self.uid) + le32(self.gid) + self.mtime.wire()
    }

    open spec fn from_wire(s: Seq<u8>) -> Self {
        Entry {
            mode: word64(s, 0),
            flags: word64(s, 8),
            uid: word32(s, 16),
            gid: word32(s, 20),
            mtime: StatxTimestamp::from_wire(s.subrange(24, 40)),
        }
    }

    proof fn lemma_wire_round_trip(self) {
        broadcast use {lemma_le64_len, lemma_le32_len};

        let s = self.wire();
        self.mtime.lemma_wire_round_trip();
        assert(s.subrange(0, 8) =~= le64(self.mode));
        assert(s.subrange(8, 16) =~= le64(self.flags));
        assert(s.subrange(16, 20) =~= le32(self.uid));
        assert(s.subrange(20, 24) =~= le32(self.gid));
        assert(s.subrange(24, 40) =~= self.mtime.wire());
        lemma_word64(s, 0, self.mode);
        lemma_word64(s, 8, self.flags);
        lemma_word32(s, 16, self.uid);
        lemma_word32(s, 20, self.gid);
    }

    fn size() -> (n: usize) {
        40
    }

    fn to_bytes(&self) -> (b: Vec<u8>) {
        let mut out: Vec<u8> = Vec::new();
        put64(&mut out, self.mode);
        put64(&mut out, self.flags);
        put32(&mut out, self.uid);
        put32(&mut out, self.gid);
        let mut mtime = self.mtime.to_bytes();
        out.append(&mut mtime);
        proof {
            assert(out@ =~= self.wire());
        }
        out
    }

    fn from_bytes(b: &[u8]) -> (v: Self) {
        Entry {
            mode: get64(b, 0),
            flags: get64(b, 8),
            uid: get32(b, 16),
            gid: get32(b, 20),
            mtime: StatxTimestamp::from_bytes(vstd::slice::slice_subrange(b, 24, 40)),
        }
    }
}

/// The first version of [`Entry`], where the time stamp counted nanoseconds since the epoch.
#[allow(non_camel_case_types)]
#[derive(Clone, Copy, Debug, PartialEq, Eq, Structural)]
pub struct Stat_V1 {
    pub mode: u64,
    pub flags: u64,
    pub uid: u32,
    pub gid: u32,
    pub mtime: u64,
}

impl Stat_V1 {
    /// The same data in the current version.
    pub open spec fn upgraded(self) -> Entry {
        Entry {
            mode: self.mode,
            flags: self.flags,
            uid: self.uid,
            gid: self.gid,
            mtime: StatxTimestamp {
                secs: (self.mtime / NANOS_PER_SEC) as i64,
                nanos: (self.mtime % NANOS_PER_SEC) as u32,
            },
        }
    }
}

impl vstd::std_specs::convert::FromSpecImpl<Stat_V1> for Entry {
    open spec fn obeys_from_spec() -> bool {
        true
    }

    open spec fn from_spec(v1: Stat_V1) -> Self {
        v1.upgraded()
    }
}

impl From<Stat_V1> for Entry {
    fn from(v1: Stat_V1) -> (r: Self)
        ensures
            r.mode == v1.mode,
            r.flags == v1.flags,
            r.uid == v1.uid,
            r.gid == v1.gid,
            r.mtime.total_nanos() == v1.mtime,
    {
        Entry {
            mode: v1.mode,
            flags: v1.flags,
            uid: v1.uid,
            gid: v1.gid,
            mtime: StatxTimestamp {
                secs: (v1.mtime / NANOS_PER_SEC) as i64,
                nanos: (v1.mtime % NANOS_PER_SEC) as u32,
            },
        }
    }
}

impl Wire for Stat_V1 {
    open spec fn wire_size() -> nat {
        32
    }

    open spec fn wire(self) -> Seq<u8> {
        le64(self.mode) + le64(self.flags) + le32(self.uid) + le32(self.gid) + le64(self.mtime)
    }

    open spec fn from_wire(s: Seq<u8>) -> Self {
        Stat_V1 {
            mode: word64(s, 0),
            flags: word64(s, 8),
            uid: word32(s, 16),
            gid: word32(s, 20),
            mtime: word64(s, 24),
        }
    }

    proof fn lemma_wire_round_trip(self) {
        broadcast use {lemma_le64_len, lemma_le32_len};

        let s = self.wire();
        assert(s.subrange(0, 8) =~= le64(self.mode));
        assert(s.subrange(8, 16) =~= le64(self.flags));
        assert(s.subrange(16, 20) =~= le32(self.uid));
        assert(s.subrange(20, 24) =~= le32(self.gid));
        assert(s.subrange(24, 32) =~= le64(self.mtime));
        lemma_word64(s, 0, self.mode);
        lemma_word64(s, 8, self.flags);
        lemma_word32(s, 16, self.uid);
        lemma_word32(s, 20, self.gid);
        lemma_word64(s, 24, self.mtime);
    }

    fn size() -> (n: usize) {
        32
    }

    fn to_bytes(&self) -> (b: Vec<u8>) {
        let mut out: Vec<u8> = Vec::new();
        put64(&mut out, self.mode);
        put64(&mut out, self.flags);
        put32(&mut out, self.uid);
        put32(&mut out, self.gid);
        put64(&mut out, self.mtime);
        proof {
            assert(out@ =~= self.wire());
        }
        out
    }

    fn from_bytes(b: &[u8]) -> (v: Self) {
        Stat_V1 {
            mode: get64(b, 0),
            flags: get64(b, 8),
            uid: get32(b, 16),
            gid: get32(b, 20),
            mtime: get64(b, 24),
        }
    }
}

/// Metadata in the first version's layout keeps its point in time.
pub proof fn law_upgraded_time(v1: Stat_V1)
    ensures
        v1.upgraded().mtime.total_nanos() == v1.mtime,
        v1.upgraded().mtime.nanos < NANOS_PER_SEC,
{
}

/// Metadata in the first version's layout keeps its mode, with all of its bits, its flags and its
/// owners: they are those of any metadata in the current layout that starts with the same bytes.
pub proof fn law_upgraded_stat(v1: Stat_V1, stat: Entry)
    ensures
        v1.upgraded().mode == v1.mode,
        v1.upgraded().flags == v1.flags,
        v1.upgraded().uid == v1.uid,
        v1.upgraded().gid == v1.gid,
        v1.upgraded().mtime.secs * 1_000_000_000 + v1.upgraded().mtime.nanos == v1.mtime,
        0 <= v1.upgraded().mtime.nanos < 1_000_000_000,
        v1.wire().take(24) == stat.wire().take(24) ==> {
            &&& v1.upgraded().mode == stat.mode
            &&& v1.upgraded().flags == stat.flags
            &&& v1.upgraded().uid == stat.uid
            &&& v1.upgraded().gid == stat.gid
        },
        <Entry as vstd::std_specs::convert::FromSpec<Stat_V1>>::obeys_from_spec(),
        <Entry as vstd::std_specs::convert::FromSpec<Stat_V1>>::from_spec(v1) == v1.upgraded(),
{
    if v1.wire().take(24) == stat.wire().take(24) {
        broadcast use {lemma_le64_len, lemma_le32_len};

        v1.lemma_wire_round_trip();
        stat.lemma_wire_round_trip();
        let a = v1.wire();
        let b = stat.wire();
        assert(a.subrange(0, 8) =~= a.take(24).subrange(0, 8));
        assert(b.subrange(0, 8) =~= b.take(24).subrange(0, 8));
        assert(a.subrange(8, 16) =~= a.take(24).subrange(8, 16));
        assert(b.subrange(8, 16) =~= b.take(24).subrange(8, 16));
        assert(a.subrange(16, 20) =~= a.take(24).subrange(16, 20));
        assert(b.subrange(16, 20) =~= b.take(24).subrange(16, 20));
        assert(a.subrange(20, 24) =~= a.take(24).subrange(20, 24));
        assert(b.subrange(20, 24) =~= b.take(24).subrange(20, 24));
    }
}

/// A file that is neither a directory nor a symbolic link counts as a regular one.
pub proof fn law_file_type_bits()
    ensures
        FileType::Directory.bits() == 0o040000,
        FileType::Symlink.bits() == 0o120000,
        FileType::Other.bits() == 0o100000,
{
}

} // verus!
