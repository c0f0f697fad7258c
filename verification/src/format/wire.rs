//! Fixed-size values as they stand in an archive.
//!
//! All integers are stored in little endian order.

use vstd::bytes::{
    lemma_auto_spec_u32_to_from_le_bytes, lemma_auto_spec_u64_to_from_le_bytes,
    spec_u32_from_le_bytes, spec_u32_to_le_bytes, spec_u64_from_le_bytes, spec_u64_to_le_bytes,
    u32_from_le_bytes, u32_to_le_bytes, u64_from_le_bytes, u64_to_le_bytes,
};
use vstd::prelude::*;
use vstd::slice::slice_subrange;

verus! {

/// The little endian bytes of a 64 bit integer.
pub open spec fn le64(x: u64) -> Seq<u8> {
    spec_u64_to_le_bytes(x)
}

/// The little endian bytes of a 32 bit integer.
pub open spec fn le32(x: u32) -> Seq<u8> {
    spec_u32_to_le_bytes(x)
}

/// The 64 bit integer that stands at `at`.
pub open spec fn word64(s: Seq<u8>, at: int) -> u64 {
    spec_u64_from_le_bytes(s.subrange(at, at + 8))
}

/// The 32 bit integer that stands at `at`.
pub open spec fn word32(s: Seq<u8>, at: int) -> u32 {
    spec_u32_from_le_bytes(s.subrange(at, at + 4))
}

/// The bytes of a 64 bit integer, wherever they stand, read as that integer.
pub proof fn lemma_word64(s: Seq<u8>, at: int, x: u64)
    requires
        0 <= at,
        at + 8 <= s.len(),
        s.subrange(at, at + 8) == le64(x),
    ensures
        word64(s, at) == x,
{
    lemma_auto_spec_u64_to_from_le_bytes();
    assert(le64(x).len() == 8);
}

/// The bytes of a 32 bit integer, wherever they stand, read as that integer.
pub proof fn lemma_word32(s: Seq<u8>, at: int, x: u32)
    requires
        0 <= at,
        at + 4 <= s.len(),
        s.subrange(at, at + 4) == le32(x),
    ensures
        word32(s, at) == x,
{
    lemma_auto_spec_u32_to_from_le_bytes();
    assert(le32(x).len() == 4);
}

pub broadcast proof fn lemma_le64_len(x: u64)
    ensures
        (#[trigger] le64(x)).len() == 8,
{
    lemma_auto_spec_u64_to_from_le_bytes();
}

pub broadcast proof fn lemma_le32_len(x: u32)
    ensures
        (#[trigger] le32(x)).len() == 4,
{
    lemma_auto_spec_u32_to_from_le_bytes();
}

/// Read a 64 bit integer.
pub fn get64(b: &[u8], at: usize) -> (x: u64)
    requires
        at + 8 <= b@.len(),
    ensures
        x == word64(b@, at as int),
{
    let _len: usize = b.len();
    u64_from_le_bytes(slice_subrange(b, at, at + 8))
}

/// Read a 32 bit integer.
pub fn get32(b: &[u8], at: usize) -> (x: u32)
    requires
        at + 4 <= b@.len(),
    ensures
        x == word32(b@, at as int),
{
    let _len: usize = b.len();
    u32_from_le_bytes(slice_subrange(b, at, at + 4))
}

/// Append a 64 bit integer.
pub fn put64(out: &mut Vec<u8>, x: u64)
    ensures
        final(out)@ == old(out)@ + le64(x),
{
    let mut bytes = u64_to_le_bytes(x);
    out.append(&mut bytes);
}

/// Append a 32 bit integer.
pub fn put32(out: &mut Vec<u8>, x: u32)
    ensures
        final(out)@ == old(out)@ + le32(x),
{
    let mut bytes = u32_to_le_bytes(x);
    out.append(&mut bytes);
}

/// A value of fixed size in an archive.
pub trait Wire: Sized {
    /// The number of bytes of every value.
    spec fn wire_size() -> nat;

    /// The bytes of this value.
    spec fn wire(self) -> Seq<u8>;

    /// The value that `s` stands for.
    spec fn from_wire(s: Seq<u8>) -> Self;

    /// Reading gives back what was written.
    proof fn lemma_wire_round_trip(self)
        ensures
            self.wire().len() == Self::wire_size(),
            Self::from_wire(self.wire()) == self,
    ;

    /// Get the number of bytes of every value.
    fn size() -> (n: usize)
        ensures
            n == Self::wire_size(),
    ;

    /// Get the bytes of this value.
    fn to_bytes(&self) -> (b: Vec<u8>)
        ensures
            b@ == self.wire(),
    ;

    /// Read a value.
    fn from_bytes(b: &[u8]) -> (v: Self)
        requires
            b@.len() == Self::wire_size(),
        ensures
            v == Self::from_wire(b@),
    ;
}

impl Wire for u64 {
    open spec fn wire_size() -> nat {
        8
    }

    open spec fn wire(self) -> Seq<u8> {
        le64(self)
    }

    open spec fn from_wire(s: Seq<u8>) -> Self {
        word64(s, 0)
    }

    proof fn lemma_wire_round_trip(self) {
        lemma_le64_len(self);
        assert(self.wire() == le64(self));
        assert(le64(self).subrange(0, 8) =~= le64(self));
        lemma_word64(le64(self), 0, self);
        assert(Self::wire_size() == 8);
        assert(Self::from_wire(self.wire()) == word64(self.wire(), 0));
        assert(self.wire().len() == Self::wire_size());
        assert(Self::from_wire(self.wire()) == self);
    }

    fn size() -> (n: usize) {
        8
    }

    fn to_bytes(&self) -> (b: Vec<u8>) {
        u64_to_le_bytes(*self)
    }

    fn from_bytes(b: &[u8]) -> (v: Self) {
        get64(b, 0)
    }
}

/// Two integers side by side read back as they were written.
pub proof fn lemma_two_words(a: u64, b: u64)
    ensures
        (le64(a) + le64(b)).len() == 16,
        word64(le64(a) + le64(b), 0) == a,
        word64(le64(a) + le64(b), 8) == b,
{
    broadcast use lemma_le64_len;

    let s = le64(a) + le64(b);
    assert(s.subrange(0, 8) =~= le64(a));
    assert(s.subrange(8, 16) =~= le64(b));
    lemma_word64(s, 0, a);
    lemma_word64(s, 8, b);
}

/// Get the bytes of two integers.
pub fn two_words(a: u64, b: u64) -> (out: Vec<u8>)
    ensures
        out@ == le64(a) + le64(b),
{
    let mut out = u64_to_le_bytes(a);
    put64(&mut out, b);
    out
}

} // verus!
