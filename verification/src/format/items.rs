//! Items without further structure.

use vstd::prelude::*;

use crate::format::wire::{get64, le64, lemma_two_words, two_words, word64, Wire};
use crate::util::copy_vec;

verus! {

#[derive(Debug)]
pub struct Filename {
    pub name: Vec<u8>,
}

impl Clone for Filename {
    fn clone(&self) -> (r: Self)
        ensures
            r.name@ == self.name@,
    {
        Filename { name: copy_vec(&self.name) }
    }
}

#[derive(Debug)]
pub struct Symlink {
    pub data: Vec<u8>,
}

impl Clone for Symlink {
    fn clone(&self) -> (r: Self)
        ensures
            r.data@ == self.data@,
    {
        Symlink { data: copy_vec(&self.data) }
    }
}

/// `data` without its last byte, the terminating zero.
pub open spec fn unterminated(data: Seq<u8>) -> Seq<u8> {
    if data.len() > 0 {
        data.drop_last()
    } else {
        data
    }
}

/// The target of a link is the whole of the byte string that a zero was put behind, whatever that
/// is, and no two such byte strings have the same target.
pub proof fn law_link_target(target: Seq<u8>, data: Seq<u8>)
    ensures
        unterminated(target.push(0)) == target,
        data.len() > 0 ==> unterminated(data).push(data.last()) == data,
        unterminated(Seq::<u8>::empty()) == Seq::<u8>::empty(),
{
    assert(target.push(0).drop_last() =~= target);
    if data.len() > 0 {
        assert(data.drop_last().push(data.last()) =~= data);
    }
}

/// Get a byte string without its last byte.
fn strip_terminator(data: &[u8]) -> (r: &[u8])
    ensures
        r@ == unterminated(data@),
        data@.len() > 0 ==> r@.push(data@.last()) == data@,
        data@.len() == 0 ==> r@.len() == 0,
{
    let len: usize = data.len();
    proof {
        law_link_target(Seq::empty(), data@);
    }
    if len > 0 {
        vstd::slice::slice_subrange(data, 0, len - 1)
    } else {
        data
    }
}

impl Symlink {
    /// Get the target, without the terminating zero.
    pub fn as_os_str(&self) -> (r: &[u8])
        ensures
            r@ == unterminated(self.data@),
            self.data@.len() > 0 ==> r@.push(self.data@.last()) == self.data@,
            self.data@.len() == 0 ==> r@.len() == 0,
    {
        strip_terminator(self.data.as_slice())
    }

    /// Get the raw data.
    pub fn as_ref(&self) -> (r: &[u8])
        ensures
            r@ == self.data@,
    {
        self.data.as_slice()
    }
}

#[derive(Debug)]
pub struct Hardlink {
    pub offset: u64,
    pub data: Vec<u8>,
}

impl Clone for Hardlink {
    fn clone(&self) -> (r: Self)
        ensures
            r.offset == self.offset,
            r.data@ == self.data@,
    {
        Hardlink { offset: self.offset, data: copy_vec(&self.data) }
    }
}

impl Hardlink {
    /// Get the target, without the terminating zero.
    pub fn as_os_str(&self) -> (r: &[u8])
        ensures
            r@ == unterminated(self.data@),
            self.data@.len() > 0 ==> r@.push(self.data@.last()) == self.data@,
            self.data@.len() == 0 ==> r@.len() == 0,
    {
        strip_terminator(self.data.as_slice())
    }

    /// Get the raw data of the target.
    pub fn as_ref(&self) -> (r: &[u8])
        ensures
            r@ == self.data@,
    {
        self.data.as_slice()
    }
}

#[derive(Debug, PartialEq, Eq)]
pub struct FCaps {
    pub data: Vec<u8>,
}

impl Clone for FCaps {
    fn clone(&self) -> (r: Self)
        ensures
            r.data@ == self.data@,
    {
        FCaps { data: copy_vec(&self.data) }
    }
}

#[derive(Clone, Copy, Debug, PartialEq, Eq, Structural)]
pub struct QuotaProjectId {
    pub projid: u64,
}

impl Wire for QuotaProjectId {
    open spec fn wire_size() -> nat {
        8
    }

    open spec fn wire(self) -> Seq<u8> {
        le64(self.projid)
    }

    open spec fn from_wire(s: Seq<u8>) -> Self {
        QuotaProjectId { projid: word64(s, 0) }
    }

    proof fn lemma_wire_round_trip(self) {
        self.projid.lemma_wire_round_trip();
    }

    fn size() -> (n: usize) {
        8
    }

    fn to_bytes(&self) -> (b: Vec<u8>) {
        self.projid.to_bytes()
    }

    fn from_bytes(b: &[u8]) -> (v: Self) {
        QuotaProjectId { projid: get64(b, 0) }
    }
}

/// The place of a file's contents in a separate payload stream.
#[derive(Clone, Copy, Debug, PartialEq, Eq, Structural)]
pub struct PayloadRef {
    pub offset: u64,
    pub size: u64,
}

impl PayloadRef {
    /// Get the bytes of this reference.
    pub fn data(&self) -> (r: Vec<u8>)
        ensures
            r@ == self.wire(),
    {
        two_words(self.offset, self.size)
    }
}

impl Wire for PayloadRef {
    open spec fn wire_size() -> nat {
        16
    }

    open spec fn wire(self) -> Seq<u8> {
        le64(self.offset) + le64(self.size)
    }

    open spec fn from_wire(s: Seq<u8>) -> Self {
        PayloadRef { offset: word64(s, 0), size: word64(s, 8) }
    }

    proof fn lemma_wire_round_trip(self) {
        lemma_two_words(self.offset, self.size);
    }

    fn size() -> (n: usize) {
        16
    }

    fn to_bytes(&self) -> (b: Vec<u8>) {
        self.data()
    }

    fn from_bytes(b: &[u8]) -> (v: Self) {
        PayloadRef { offset: get64(b, 0), size: get64(b, 8) }
    }
}

/// The version of the format. The first version does not state its number in the archive.
#[derive(Clone, Copy, Debug, PartialEq, Eq, Structural)]
pub enum FormatVersion {
    /// File contents stand in the archive.
    Version1,

    /// File contents stand in a separate payload stream.
    Version2,
}

impl FormatVersion {
    /// The number that an archive states, if it does.
    pub open spec fn number(self) -> Option<u64> {
        match self {
            FormatVersion::Version1 => None,
            FormatVersion::Version2 => Some(2),
        }
    }

    /// Get the bytes of the version number, if an archive of this version states it.
    pub fn serialize(&self) -> (r: Option<Vec<u8>>)
        ensures
            match r {
                Some(b) => self.number() is Some && b@ == le64(self.number()->0),
                None => self.number() is None,
            },
    {
        match self {
            FormatVersion::Version1 => None,
            FormatVersion::Version2 => {
                let number: u64 = 2;
                Some(number.to_bytes())
            },
        }
    }
}

} // verus!
