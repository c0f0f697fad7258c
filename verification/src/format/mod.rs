//! *pxar* binary format definition
//!
//! Please note the all values are stored in little endian ordering.
//!
//! The Archive contains a list of items. Each item starts with a `Header`, followed by the
//! item data.

use vstd::prelude::*;

use crate::errors::Error;
use crate::format::wire::{get64, le64, lemma_two_words, two_words, word64, Wire};
use crate::path::{
    components, components_of, component_views, law_components, Component, ComponentView,
};
use crate::util::{MAX_FILENAME_LEN, MAX_PATH_LEN, MAX_XATTR_LEN};

pub mod acl;
pub mod device;
pub mod goodbye;
pub mod items;
pub mod mode;
pub mod stat;
pub mod text;
pub mod time;
pub mod wire;
pub mod xattr;

pub use crate::format::device::Device;
pub use crate::format::goodbye::{hash_filename, GoodbyeItem};
pub use crate::format::items::{
    FCaps, Filename, FormatVersion, Hardlink, PayloadRef, QuotaProjectId, Symlink,
};
pub use crate::format::stat::{Entry, FileType, Stat_V1};
pub use crate::format::time::{Duration, SignedDuration, StatxTimestamp};
pub use crate::format::xattr::XAttr;

verus! {

// generated with:
// $ echo -n 'PROXMOX ARCHIVE FORMAT' | sha1sum | sed -re 's/^(.{16})(.{16}).*$/0x\1, 0x\2/'
pub const PXAR_HASH_KEY_1: u64 = 0x83ac3f1cfbb450db;

pub const PXAR_HASH_KEY_2: u64 = 0xaa4f1b6879369fbd;

/// Marks the format version of an archive, from the second version on
pub const PXAR_FORMAT_VERSION: u64 = 0x730f6c75df16a40d;

/// Marks the beginning of an entry
pub const PXAR_ENTRY: u64 = 0xd5956474e588acef;

/// Marks the beginning of an entry with a time stamp in nanoseconds
pub const PXAR_ENTRY_V1: u64 = 0x11da850a1c1cceff;

/// Marks data that precedes the first entry, from the second version on
pub const PXAR_PRELUDE: u64 = 0xe309d79d9f7b771b;

pub const PXAR_FILENAME: u64 = 0x16701121063917b3;

pub const PXAR_SYMLINK: u64 = 0x27f971e7dbf5dc5f;

pub const PXAR_DEVICE: u64 = 0x9fc9e906586d5ce9;

pub const PXAR_XATTR: u64 = 0x0dab0229b57dcd03;

pub const PXAR_ACL_USER: u64 = 0x2ce8540a457d55b8;

pub const PXAR_ACL_GROUP: u64 = 0x136e3eceb04c03ab;

pub const PXAR_ACL_GROUP_OBJ: u64 = 0x10868031e9582876;

pub const PXAR_ACL_DEFAULT: u64 = 0xbbbb13415a6896f5;

pub const PXAR_ACL_DEFAULT_USER: u64 = 0xc89357b40532cd1f;

pub const PXAR_ACL_DEFAULT_GROUP: u64 = 0xf90a8a5816038ffe;

pub const PXAR_FCAPS: u64 = 0x2da9dd9db5f7fb67;

pub const PXAR_QUOTA_PROJID: u64 = 0xe07540e82f7d1cbb;

/// Marks item as hardlink
pub const PXAR_HARDLINK: u64 = 0x51269c8422bd7275;

/// Marks the beginnig of the payload (actual content) of regular files
pub const PXAR_PAYLOAD: u64 = 0x28147a1b0b7c1a25;

/// Marks a reference into the separate payload stream
pub const PXAR_PAYLOAD_REF: u64 = 0x419d3d6bc4ba977e;

/// Marks item as entry of goodbye table
pub const PXAR_GOODBYE: u64 = 0x2fec4fa642d5731d;

/// The end marker used in the GOODBYE object
pub const PXAR_GOODBYE_TAIL_MARKER: u64 = 0xef5eed5b753e1555;

/// Marks the start of a separate payload stream
pub const PXAR_PAYLOAD_START_MARKER: u64 = 0x834c68c2194a4ed2;

/// Marks the end of a separate payload stream
pub const PXAR_PAYLOAD_TAIL_MARKER: u64 = 0x6c72b78b984c81b5;

/// The number of bytes of a [`Header`].
pub const HEADER_SIZE: u64 = 16;

#[derive(Clone, Copy, Debug, PartialEq, Eq, Structural)]
pub struct Header {
    /// The item type (see `PXAR_` constants).
    pub htype: u64,
    /// The size of the item, including the size of `Header`.
    pub full_size: u64,
}

/// The largest content that an item of the given type can have.
pub open spec fn max_content_size_of(htype: u64) -> u64 {
    if htype == PXAR_FILENAME {
        // + null-termination
        (MAX_FILENAME_LEN + 1) as u64
    } else if htype == PXAR_SYMLINK {
        // + null-termination
        (MAX_PATH_LEN + 1) as u64
    } else if htype == PXAR_HARDLINK {
        // + null-termination + offset
        (MAX_PATH_LEN + 1 + 8) as u64
    } else if htype == PXAR_XATTR || htype == PXAR_FCAPS {
        MAX_XATTR_LEN
    } else if htype == PXAR_DEVICE || htype == PXAR_ACL_USER || htype == PXAR_ACL_DEFAULT_USER
        || htype == PXAR_ACL_GROUP || htype == PXAR_ACL_DEFAULT_GROUP {
        16
    } else if htype == PXAR_ACL_DEFAULT || htype == PXAR_ENTRY_V1 {
        32
    } else if htype == PXAR_ACL_GROUP_OBJ || htype == PXAR_QUOTA_PROJID {
        8
    } else if htype == PXAR_ENTRY {
        40
    } else {
        (u64::MAX - HEADER_SIZE) as u64
    }
}

/// What is wrong with the size in a header, if anything.
pub open spec fn header_error(header: Header) -> Option<Error> {
    if header.full_size < HEADER_SIZE {
        Some(Error::HeaderTooSmall { htype: header.htype, full_size: header.full_size })
    } else if header.full_size - HEADER_SIZE > max_content_size_of(header.htype) {
        Some(
            Error::ContentTooLarge {
                htype: header.htype,
                size: (header.full_size - HEADER_SIZE) as u64,
                max: max_content_size_of(header.htype),
            },
        )
    } else {
        None
    }
}

/// The name of an item type.
pub open spec fn item_type_name(htype: u64) -> Seq<char> {
    if htype == PXAR_FILENAME {
        "FILENAME"@
    } else if htype == PXAR_SYMLINK {
        "SYMLINK"@
    } else if htype == PXAR_HARDLINK {
        "HARDLINK"@
    } else if htype == PXAR_DEVICE {
        "DEVICE"@
    } else if htype == PXAR_XATTR {
        "XATTR"@
    } else if htype == PXAR_FCAPS {
        "FCAPS"@
    } else if htype == PXAR_ACL_USER {
        "ACL_USER"@
    } else if htype == PXAR_ACL_DEFAULT_USER {
        "ACL_DEFAULT_USER"@
    } else if htype == PXAR_ACL_GROUP {
        "ACL_GROUP"@
    } else if htype == PXAR_ACL_DEFAULT_GROUP {
        "ACL_DEFAULT_GROUP"@
    } else if htype == PXAR_ACL_DEFAULT {
        "ACL_DEFAULT"@
    } else if htype == PXAR_ACL_GROUP_OBJ {
        "ACL_GROUP_OBJ"@
    } else if htype == PXAR_QUOTA_PROJID {
        "QUOTA_PROJID"@
    } else if htype == PXAR_ENTRY || htype == PXAR_ENTRY_V1 {
        "ENTRY"@
    } else if htype == PXAR_PAYLOAD {
        "PAYLOAD"@
    } else if htype == PXAR_GOODBYE {
        "GOODBYE"@
    } else {
        "UNKNOWN"@
    }
}

impl Header {
    pub fn with_full_size(htype: u64, full_size: u64) -> (r: Self)
        ensures
            r.htype == htype,
            r.full_size == full_size,
    {
        Header { htype, full_size }
    }

    pub fn with_content_size(htype: u64, content_size: u64) -> (r: Self)
        requires
            content_size + HEADER_SIZE <= u64::MAX,
        ensures
            r.htype == htype,
            r.full_size == content_size + HEADER_SIZE,
    {
        Self::with_full_size(htype, content_size + HEADER_SIZE)
    }

    pub fn full_size(&self) -> (r: u64)
        ensures
            r == self.full_size,
    {
        self.full_size
    }

    pub fn content_size(&self) -> (r: u64)
        requires
            self.full_size >= HEADER_SIZE,
        ensures
            r == self.full_size - HEADER_SIZE,
    {
        self.full_size - HEADER_SIZE
    }

    pub fn max_content_size(&self) -> (r: u64)
        ensures
            r == max_content_size_of(self.htype),
    {
        let htype: u64 = self.htype;
        if htype == PXAR_FILENAME {
            // + null-termination
            MAX_FILENAME_LEN + 1
        } else if htype == PXAR_SYMLINK {
            // + null-termination
            MAX_PATH_LEN + 1
        } else if htype == PXAR_HARDLINK {
            // + null-termination + offset
            MAX_PATH_LEN + 1 + 8
        } else if htype == PXAR_DEVICE {
            Device::size() as u64
        } else if htype == PXAR_XATTR || htype == PXAR_FCAPS {
            MAX_XATTR_LEN
        } else if htype == PXAR_ACL_USER || htype == PXAR_ACL_DEFAULT_USER {
            acl::User::size() as u64
        } else if htype == PXAR_ACL_GROUP || htype == PXAR_ACL_DEFAULT_GROUP {
            acl::Group::size() as u64
        } else if htype == PXAR_ACL_DEFAULT {
            acl::Default::size() as u64
        } else if htype == PXAR_ACL_GROUP_OBJ {
            acl::GroupObject::size() as u64
        } else if htype == PXAR_QUOTA_PROJID {
            QuotaProjectId::size() as u64
        } else if htype == PXAR_ENTRY {
            Entry::size() as u64
        } else if htype == PXAR_ENTRY_V1 {
            Stat_V1::size() as u64
        } else {
            u64::MAX - HEADER_SIZE
        }
    }

    pub fn check_header_size(&self) -> (r: Result<(), Error>)
        ensures
            match r {
                Ok(()) => header_error(*self) is None,
                Err(e) => header_error(*self) == Some(e),
            },
    {
        if self.full_size() < HEADER_SIZE {
            return Err(
                Error::HeaderTooSmall { htype: self.htype, full_size: self.full_size() },
            );
        }
        let size: u64 = self.content_size();
        let max: u64 = self.max_content_size();
        if size > max {
            return Err(Error::ContentTooLarge { htype: self.htype, size, max });
        }
        Ok(())
    }

    /// Get the name of the item type.
    pub fn readable(&self) -> (r: &'static str)
        ensures
            r@ == item_type_name(self.htype),
    {
        let htype: u64 = self.htype;
        if htype == PXAR_FILENAME {
            "FILENAME"
        } else if htype == PXAR_SYMLINK {
            "SYMLINK"
        } else if htype == PXAR_HARDLINK {
            "HARDLINK"
        } else if htype == PXAR_DEVICE {
            "DEVICE"
        } else if htype == PXAR_XATTR {
            "XATTR"
        } else if htype == PXAR_FCAPS {
            "FCAPS"
        } else if htype == PXAR_ACL_USER {
            "ACL_USER"
        } else if htype == PXAR_ACL_DEFAULT_USER {
            "ACL_DEFAULT_USER"
        } else if htype == PXAR_ACL_GROUP {
            "ACL_GROUP"
        } else if htype == PXAR_ACL_DEFAULT_GROUP {
            "ACL_DEFAULT_GROUP"
        } else if htype == PXAR_ACL_DEFAULT {
            "ACL_DEFAULT"
        } else if htype == PXAR_ACL_GROUP_OBJ {
            "ACL_GROUP_OBJ"
        } else if htype == PXAR_QUOTA_PROJID {
            "QUOTA_PROJID"
        } else if htype == PXAR_ENTRY || htype == PXAR_ENTRY_V1 {
            "ENTRY"
        } else if htype == PXAR_PAYLOAD {
            "PAYLOAD"
        } else if htype == PXAR_GOODBYE {
            "GOODBYE"
        } else {
            "UNKNOWN"
        }
    }
}

impl Wire for Header {
    open spec fn wire_size() -> nat {
        16
    }

    open spec fn wire(self) -> Seq<u8> {
        le64(self.htype) + le64(self.full_size)
    }

    open spec fn from_wire(s: Seq<u8>) -> Self {
        Header { htype: word64(s, 0), full_size: word64(s, 8) }
    }

    proof fn lemma_wire_round_trip(self) {
        lemma_two_words(self.htype, self.full_size);
    }

    fn size() -> (n: usize) {
        16
    }

    fn to_bytes(&self) -> (b: Vec<u8>) {
        two_words(self.htype, self.full_size)
    }

    fn from_bytes(b: &[u8]) -> (v: Self) {
        Header { htype: get64(b, 0), full_size: get64(b, 8) }
    }
}

/// A path that is nothing but a name.
pub open spec fn is_legal_component(path: Seq<u8>) -> bool {
    components_of(path).len() == 1 && components_of(path)[0] is Normal
}

/// Check whether a path is a single name.
pub fn path_is_legal_component(path: &[u8]) -> (r: bool)
    ensures
        r == is_legal_component(path@),
{
    let parts = components(path);
    proof {
        assert(component_views(parts@).len() == parts@.len());
    }
    if parts.len() != 1 {
        return false;
    }
    proof {
        assert(component_views(parts@)[0] == parts@[0]@);
    }
    match parts[0] {
        Component::Normal(_) => true,
        _ => false,
    }
}

/// Check that a path is a single name.
pub fn check_file_name(path: &[u8]) -> (r: Result<(), Error>)
    ensures
        match r {
            Ok(()) => is_legal_component(path@),
            Err(e) => e == Error::InvalidFileName && !is_legal_component(path@),
        },
{
    if !path_is_legal_component(path) {
        Err(Error::InvalidFileName)
    } else {
        Ok(())
    }
}

/// A byte string without slashes is a single name unless it is empty, `.` or `..`. A slash at the end
/// makes no difference, but one between two names does.
pub proof fn law_legal_component(path: Seq<u8>, name: Seq<u8>)
    requires
        !name.contains(0x2f),
        name.len() > 0,
        name != seq![0x2eu8],
        name != seq![0x2eu8, 0x2eu8],
    ensures
        is_legal_component(name),
        path.len() > 0 ==> is_legal_component(path + seq![0x2fu8]) == is_legal_component(path),
        is_legal_component(path) ==> !is_legal_component(path + seq![0x2fu8] + name),
        !is_legal_component(seq![0x2fu8] + name),
        !is_legal_component(Seq::<u8>::empty()),
        !is_legal_component(seq![0x2eu8]),
        !is_legal_component(seq![0x2eu8, 0x2eu8]),
{
    let empty = Seq::<u8>::empty();
    law_components(path, name);
    law_components(path, empty);
    law_components(path, seq![0x2eu8]);
    law_components(path, seq![0x2eu8, 0x2eu8]);
    assert(path + seq![0x2fu8] + empty =~= path + seq![0x2fu8]);
    assert(components_of(path) + Seq::<ComponentView>::empty() =~= components_of(path));
}

} // verus!
