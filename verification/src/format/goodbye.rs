//! The items of a goodbye table.

use std::hash::Hasher;

use vstd::prelude::*;

use crate::format::wire::{
    get64, le64, lemma_le64_len, lemma_word64, put64, two_words, word64, Wire,
};
use crate::format::{PXAR_HASH_KEY_1, PXAR_HASH_KEY_2};

verus! {

/// The number of bytes of a [`GoodbyeItem`].
pub const GOODBYE_ITEM_SIZE: u64 = 24;

#[derive(Clone, Copy, Debug, PartialEq, Eq, Structural)]
pub struct GoodbyeItem {
    /// SipHash24 of the directory item name. The last GOODBYE item uses the special hash value
    /// `PXAR_GOODBYE_TAIL_MARKER`.
    pub hash: u64,

    /// The offset from the start of the GOODBYE object to the start of the matching directory item
    /// (point to a FILENAME). The last GOODBYE item points to the start of the matching ENTRY
    /// object.
    pub offset: u64,

    /// The overall size of the directory item. This includes the FILENAME header. In other words,
    /// `goodbye_start - offset + size` points to the end of the directory.
    ///
    /// The last GOODBYE item repeats the size of the GOODBYE item.
    pub size: u64,
}

impl GoodbyeItem {
    pub fn new(name: &[u8], offset: u64, size: u64) -> (r: Self)
        ensures
            r.hash == filename_hash(name@),
            r.offset == offset,
            r.size == size,
    {
        let hash: u64 = hash_filename(name);
        GoodbyeItem { hash, offset, size }
    }
}

/// What SipHash-2-4 gives for `data` under the key made of `key0` and `key1`.
pub uninterp spec fn sip_hash_2_4(key0: u64, key1: u64, data: Seq<u8>) -> u64;

/// Calls `siphasher::sip::SipHasher24`: a hasher made with `new_with_keys`, one `write` of the
/// whole of `data`, then `finish`. The result is taken to be a function of the keys and the
/// bytes alone, which is given the name `sip_hash_2_4`; nothing else is claimed of it.
#[verifier::external_body]
fn sip_hash(key0: u64, key1: u64, data: &[u8]) -> (r: u64)
    ensures
        r == sip_hash_2_4(key0, key1, data@),
{
    let mut hasher = siphasher::sip::SipHasher24::new_with_keys(key0, key1);
    hasher.write(data);
    hasher.finish()
}

/// The hash by which a file name is found in a goodbye table.
pub open spec fn filename_hash(name: Seq<u8>) -> u64 {
    sip_hash_2_4(PXAR_HASH_KEY_1, PXAR_HASH_KEY_2, name)
}

/// Hash a file name.
pub fn hash_filename(name: &[u8]) -> (r: u64)
    ensures
        r == filename_hash(name@),
{
    sip_hash(PXAR_HASH_KEY_1, PXAR_HASH_KEY_2, name)
}

impl Wire for GoodbyeItem {
    open spec fn wire_size() -> nat {
        24
    }

    open spec fn wire(self) -> Seq<u8> {
        le64(self.hash) + le64(self.offset) + le64(self.size)
    }

    open spec fn from_wire(s: Seq<u8>) -> Self {
        GoodbyeItem { hash: word64(s, 0), offset: word64(s, 8), size: word64(s, 16) }
    }

    proof fn lemma_wire_round_trip(self) {
        broadcast use lemma_le64_len;

        let s = self.wire();
        assert(s.subrange(0, 8) =~= le64(self.hash));
        assert(s.subrange(8, 16) =~= le64(self.offset));
        assert(s.subrange(16, 24) =~= le64(self.size));
        lemma_word64(s, 0, self.hash);
        lemma_word64(s, 8, self.offset);
        lemma_word64(s, 16, self.size);
    }

    fn size() -> (n: usize) {
        24
    }

    fn to_bytes(&self) -> (b: Vec<u8>) {
        let mut out = two_words(self.hash, self.offset);
        put64(&mut out, self.size);
        out
    }

    fn from_bytes(b: &[u8]) -> (v: Self) {
        GoodbyeItem { hash: get64(b, 0), offset: get64(b, 8), size: get64(b, 16) }
    }
}

/// Names are hashed with the key of the format.
pub proof fn law_filename_hash(name: Seq<u8>)
    ensures
        filename_hash(name) == sip_hash_2_4(0x83ac3f1cfbb450db, 0xaa4f1b6879369fbd, name),
{
}

} // verus!
