//! ACL related data

use std::cmp::Ordering;

use vstd::prelude::*;

use crate::format::wire::{
    get64, le64, lemma_le64_len, lemma_two_words, lemma_word64, put64, two_words, word64, Wire,
};

verus! {

pub const READ: u64 = 4;

pub const WRITE: u64 = 2;

pub const EXECUTE: u64 = 1;

pub const NO_MASK: u64 = 0xffff_ffff_ffff_ffff;

/// ACL permission bits.
///
/// While this is normally just a bitfield, the `NO_MASK` special value makes this a value of 2
/// possible "types", so we don't use `bitflags!` for this.
#[derive(Clone, Copy, Debug, PartialEq, Eq, PartialOrd, Ord, Structural)]
pub struct Permissions(pub u64);

impl Permissions {
    /// The value for "there is no mask".
    pub fn no_mask() -> (r: Self)
        ensures
            r.0 == NO_MASK,
    {
        Permissions(NO_MASK)
    }
}

/// A user entry. Entries are ordered by uid, then by permissions.
#[derive(Clone, Copy, Debug, PartialEq, Eq, Ord, Structural)]
pub struct User {
    pub uid: u64,
    pub permissions: Permissions,
}

impl User {
    pub fn new(uid: u64, permissions: u64) -> (r: Self)
        ensures
            r.uid == uid,
            r.permissions.0 == permissions,
    {
        User { uid, permissions: Permissions(permissions) }
    }
}

/// A group entry. Entries are ordered by gid, then by permissions.
#[derive(Clone, Copy, Debug, PartialEq, Eq, Ord, Structural)]
pub struct Group {
    pub gid: u64,
    pub permissions: Permissions,
}

impl Group {
    pub fn new(gid: u64, permissions: u64) -> (r: Self)
        ensures
            r.gid == gid,
            r.permissions.0 == permissions,
    {
        Group { gid, permissions: Permissions(permissions) }
    }
}

/// Entries are ordered by their id, and those with the same id by their permissions.
pub open spec fn entry_order(
    id: u64,
    permissions: Permissions,
    other_id: u64,
    other_permissions: Permissions,
) -> Ordering {
    if id < other_id {
        Ordering::Less
    } else if id > other_id {
        Ordering::Greater
    } else if permissions.0 < other_permissions.0 {
        Ordering::Less
    } else if permissions.0 > other_permissions.0 {
        Ordering::Greater
    } else {
        Ordering::Equal
    }
}

/// Compare two entries.
fn order_entries(
    id: u64,
    permissions: Permissions,
    other_id: u64,
    other_permissions: Permissions,
) -> (r: Ordering)
    ensures
        r == entry_order(id, permissions, other_id, other_permissions),
{
    if id < other_id {
        Ordering::Less
    } else if id > other_id {
        Ordering::Greater
    } else if permissions.0 < other_permissions.0 {
        Ordering::Less
    } else if permissions.0 > other_permissions.0 {
        Ordering::Greater
    } else {
        Ordering::Equal
    }
}

impl PartialOrd for User {
    fn partial_cmp(&self, other: &User) -> (r: Option<Ordering>) {
        Some(order_entries(self.uid, self.permissions, other.uid, other.permissions))
    }
}

impl vstd::std_specs::cmp::PartialOrdSpecImpl for User {
    open spec fn obeys_partial_cmp_spec() -> bool {
        true
    }

    open spec fn partial_cmp_spec(&self, other: &User) -> Option<Ordering> {
        Some(entry_order(self.uid, self.permissions, other.uid, other.permissions))
    }
}

impl PartialOrd for Group {
    fn partial_cmp(&self, other: &Group) -> (r: Option<Ordering>) {
        Some(order_entries(self.gid, self.permissions, other.gid, other.permissions))
    }
}

impl vstd::std_specs::cmp::PartialOrdSpecImpl for Group {
    open spec fn obeys_partial_cmp_spec() -> bool {
        true
    }

    open spec fn partial_cmp_spec(&self, other: &Group) -> Option<Ordering> {
        Some(entry_order(self.gid, self.permissions, other.gid, other.permissions))
    }
}

#[derive(Clone, Copy, Debug, PartialEq, Eq, Structural)]
pub struct GroupObject {
    pub permissions: Permissions,
}

#[derive(Clone, Copy, Debug, PartialEq, Eq, Structural)]
pub struct Default {
    pub user_obj_permissions: Permissions,
    pub group_obj_permissions: Permissions,
    pub other_permissions: Permissions,
    pub mask_permissions: Permissions,
}

impl Wire for User {
    open spec fn wire_size() -> nat {
        16
    }

    open spec fn wire(self) -> Seq<u8> {
        le64(self.uid) + le64(self.permissions.0)
    }

    open spec fn from_wire(s: Seq<u8>) -> Self {
        User { uid: word64(s, 0), permissions: Permissions(word64(s, 8)) }
    }

    proof fn lemma_wire_round_trip(self) {
        lemma_two_words(self.uid, self.permissions.0);
    }

    fn size() -> (n: usize) {
        16
    }

    fn to_bytes(&self) -> (b: Vec<u8>) {
        two_words(self.uid, self.permissions.0)
    }

    fn from_bytes(b: &[u8]) -> (v: Self) {
        User { uid: get64(b, 0), permissions: Permissions(get64(b, 8)) }
    }
}

impl Wire for Group {
    open spec fn wire_size() -> nat {
        16
    }

    open spec fn wire(self) -> Seq<u8> {
        le64(self.gid) + le64(self.permissions.0)
    }

    open spec fn from_wire(s: Seq<u8>) -> Self {
        Group { gid: word64(s, 0), permissions: Permissions(word64(s, 8)) }
    }

    proof fn lemma_wire_round_trip(self) {
        lemma_two_words(self.gid, self.permissions.0);
    }

    fn size() -> (n: usize) {
        16
    }

    fn to_bytes(&self) -> (b: Vec<u8>) {
        two_words(self.gid, self.permissions.0)
    }

    fn from_bytes(b: &[u8]) -> (v: Self) {
        Group { gid: get64(b, 0), permissions: Permissions(get64(b, 8)) }
    }
}

impl Wire for GroupObject {
    open spec fn wire_size() -> nat {
        8
    }

    open spec fn wire(self) -> Seq<u8> {
        le64(self.permissions.0)
    }

    open spec fn from_wire(s: Seq<u8>) -> Self {
        GroupObject { permissions: Permissions(word64(s, 0)) }
    }

    proof fn lemma_wire_round_trip(self) {
        self.permissions.0.lemma_wire_round_trip();
    }

    fn size() -> (n: usize) {
        8
    }

    fn to_bytes(&self) -> (b: Vec<u8>) {
        self.permissions.0.to_bytes()
    }

    fn from_bytes(b: &[u8]) -> (v: Self) {
        GroupObject { permissions: Permissions(get64(b, 0)) }
    }
}

impl Wire for Default {
    open spec fn wire_size() -> nat {
        32
    }

    open spec fn wire(self) -> Seq<u8> {
        le64(self.user_obj_permissions.0) + le64(self.group_obj_permissions.0) + le64(
            self.other_permissions.0,
        ) + le64(self.mask_permissions.0)
    }

    open spec fn from_wire(s: Seq<u8>) -> Self {
        Default {
            user_obj_permissions: Permissions(word64(s, 0)),
            group_obj_permissions: Permissions(word64(s, 8)),
            other_permissions: Permissions(word64(s, 16)),
            mask_permissions: Permissions(word64(s, 24)),
        }
    }

    proof fn lemma_wire_round_trip(self) {
        broadcast use lemma_le64_len;

        let s = self.wire();
        assert(s.subrange(0, 8) =~= le64(self.user_obj_permissions.0));
        assert(s.subrange(8, 16) =~= le64(self.group_obj_permissions.0));
        assert(s.subrange(16, 24) =~= le64(self.other_permissions.0));
        assert(s.subrange(24, 32) =~= le64(self.mask_permissions.0));
        lemma_word64(s, 0, self.user_obj_permissions.0);
        lemma_word64(s, 8, self.group_obj_permissions.0);
        lemma_word64(s, 16, self.other_permissions.0);
        lemma_word64(s, 24, self.mask_permissions.0);
    }

    fn size() -> (n: usize) {
        32
    }

    fn to_bytes(&self) -> (b: Vec<u8>) {
        let mut out = two_words(self.user_obj_permissions.0, self.group_obj_permissions.0);
        put64(&mut out, self.other_permissions.0);
        put64(&mut out, self.mask_permissions.0);
        out
    }

    fn from_bytes(b: &[u8]) -> (v: Self) {
        Default {
            user_obj_permissions: Permissions(get64(b, 0)),
            group_obj_permissions: Permissions(get64(b, 8)),
            other_permissions: Permissions(get64(b, 16)),
            mask_permissions: Permissions(get64(b, 24)),
        }
    }
}

/// An entry comes before another one if its id is lower, or if the ids are the same and its
/// permissions are lower, and only then. Only the same entries are equal.
pub proof fn law_entry_order(id: u64, permissions: u64, other_id: u64, other_permissions: u64)
    ensures
        entry_order(id, Permissions(permissions), other_id, Permissions(other_permissions))
            == Ordering::Less <==> id < other_id || id == other_id && permissions
            < other_permissions,
        entry_order(id, Permissions(permissions), other_id, Permissions(other_permissions))
            == Ordering::Greater <==> id > other_id || id == other_id && permissions
            > other_permissions,
        entry_order(id, Permissions(permissions), other_id, Permissions(other_permissions))
            == Ordering::Equal <==> id == other_id && permissions == other_permissions,
        READ == 4,
        WRITE == 2,
        EXECUTE == 1,
        NO_MASK == u64::MAX,
{
}

} // verus!
