//! The entries of an archive.

use vstd::prelude::*;

use crate::format::items::unterminated;
use crate::format::{Device, Hardlink, Symlink};
use crate::metadata::{Metadata, MetadataView};
use crate::path::{self, file_name_of};
use crate::util::copy_vec;

verus! {

/// Pxar archive entry kind.
///
/// Identifies whether the entry is a file, symlink, directory, etc.
#[derive(Debug)]
pub enum EntryKind {
    /// Symbolic links.
    Symlink(Symlink),

    /// Hard links, relative to the root of the current archive.
    Hardlink(Hardlink),

    /// Device node.
    Device(Device),

    /// Named unix socket.
    Socket,

    /// Named pipe.
    Fifo,

    /// Regular file.
    File { size: u64, offset: Option<u64> },

    /// Directory entry. When iterating through an archive, the contents follow next.
    Directory,

    /// End of a directory. This is for internal use to remember the goodbye-table of a directory
    /// entry. Will not occur during normal iteration.
    GoodbyeTable,
}

/// The contents of an [`EntryKind`].
#[verifier::ext_equal]
pub enum KindView {
    Symlink(Seq<u8>),
    Hardlink { offset: u64, data: Seq<u8> },
    Device(Device),
    Socket,
    Fifo,
    File { size: u64, position: Option<u64> },
    Directory,
    GoodbyeTable,
}

impl View for EntryKind {
    type V = KindView;

    open spec fn view(&self) -> KindView {
        match *self {
            EntryKind::Symlink(link) => KindView::Symlink(link.data@),
            EntryKind::Hardlink(link) => KindView::Hardlink {
                offset: link.offset,
                data: link.data@,
            },
            EntryKind::Device(device) => KindView::Device(device),
            EntryKind::Socket => KindView::Socket,
            EntryKind::Fifo => KindView::Fifo,
            EntryKind::File { size, offset } => KindView::File { size, position: offset },
            EntryKind::Directory => KindView::Directory,
            EntryKind::GoodbyeTable => KindView::GoodbyeTable,
        }
    }
}

impl Clone for EntryKind {
    fn clone(&self) -> (r: Self)
        ensures
            r@ == self@,
    {
        match self {
            EntryKind::Symlink(link) => EntryKind::Symlink(link.clone()),
            EntryKind::Hardlink(link) => EntryKind::Hardlink(link.clone()),
            EntryKind::Device(device) => EntryKind::Device(*device),
            EntryKind::Socket => EntryKind::Socket,
            EntryKind::Fifo => EntryKind::Fifo,
            EntryKind::File { size, offset } => EntryKind::File { size: *size, offset: *offset },
            EntryKind::Directory => EntryKind::Directory,
            EntryKind::GoodbyeTable => EntryKind::GoodbyeTable,
        }
    }
}

/// A pxar archive entry. This contains the current path, file metadata and entry type specific
/// information.
#[derive(Debug)]
pub struct Entry {
    pub path: Vec<u8>,
    pub metadata: Metadata,
    pub kind: EntryKind,
}

/// The contents of an [`Entry`].
#[verifier::ext_equal]
pub struct EntryView {
    pub path: Seq<u8>,
    pub metadata: MetadataView,
    pub kind: KindView,
}

impl EntryView {
    /// Everything but the path cleared.
    pub open spec fn cleared(self) -> Self {
        EntryView {
            path: self.path,
            metadata: MetadataView::empty(),
            kind: KindView::GoodbyeTable,
        }
    }
}

impl View for Entry {
    type V = EntryView;

    open spec fn view(&self) -> EntryView {
        EntryView { path: self.path@, metadata: self.metadata@, kind: self.kind@ }
    }
}

impl Clone for Entry {
    fn clone(&self) -> (r: Self)
        ensures
            r@ == self@,
    {
        Entry {
            path: copy_vec(&self.path),
            metadata: self.metadata.clone(),
            kind: self.kind.clone(),
        }
    }
}

/// General accessors.
impl Entry {
    /// Clear everything except for the path.
    pub(crate) fn clear_data(&mut self)
        ensures
            final(self)@ == old(self)@.cleared(),
    {
        self.metadata = Metadata::default();
        self.kind = EntryKind::GoodbyeTable;
    }

    pub(crate) fn internal_default() -> (r: Self)
        ensures
            r@ == (EntryView {
                path: Seq::empty(),
                metadata: MetadataView::empty(),
                kind: KindView::GoodbyeTable,
            }),
    {
        Entry {
            path: Vec::new(),
            metadata: Metadata::default(),
            kind: EntryKind::GoodbyeTable,
        }
    }

    /// Take everything out except for the path, which is copied.
    pub(crate) fn take(&mut self) -> (r: Self)
        ensures
            r@ == old(self)@,
            final(self)@ == old(self)@.cleared(),
    {
        let mut this = Self::internal_default();
        std::mem::swap(&mut this, self);
        self.path = copy_vec(&this.path);
        this
    }

    /// Get the full path of this file within the current pxar directory structure.
    pub fn path(&self) -> (r: &[u8])
        ensures
            r@ == self@.path,
    {
        self.path.as_slice()
    }

    /// Convenience method to get just the file name portion of the current path.
    pub fn file_name(&self) -> (r: &[u8])
        ensures
            r@ == (match file_name_of(self@.path) {
                Some(name) => name,
                None => Seq::empty(),
            }),
    {
        match path::file_name(self.path.as_slice()) {
            Some(name) => name,
            None => {
                let r = vstd::slice::slice_subrange(self.path.as_slice(), 0, 0);
                proof {
                    assert(r@ =~= Seq::<u8>::empty());
                }
                r
            },
        }
    }

    /// Get the file metadata.
    pub fn metadata(&self) -> (r: &Metadata)
        ensures
            *r == self.metadata,
    {
        &self.metadata
    }

    /// Take out the metadata.
    pub fn into_metadata(self) -> (r: Metadata)
        ensures
            r == self.metadata,
    {
        self.metadata
    }

    /// Get the entry-type specific information.
    pub fn kind(&self) -> (r: &EntryKind)
        ensures
            *r == self.kind,
    {
        &self.kind
    }

    /// Get the value of the symbolic link if it is one.
    pub fn get_symlink(&self) -> (r: Option<&[u8]>)
        ensures
            match r {
                Some(target) => {
                    &&& self@.kind matches KindView::Symlink(data)
                    &&& target@ == unterminated(data)
                    &&& data.len() > 0 ==> target@.push(data.last()) == data
                    &&& data.len() == 0 ==> target@.len() == 0
                },
                None => self@.kind !is Symlink,
            },
    {
        match &self.kind {
            EntryKind::Symlink(link) => Some(link.as_os_str()),
            _ => None,
        }
    }

    /// Get the value of the hard link if it is one.
    pub fn get_hardlink(&self) -> (r: Option<&[u8]>)
        ensures
            match r {
                Some(target) => {
                    &&& self@.kind matches KindView::Hardlink { data, .. }
                    &&& target@ == unterminated(data)
                    &&& data.len() > 0 ==> target@.push(data.last()) == data
                    &&& data.len() == 0 ==> target@.len() == 0
                },
                None => self@.kind !is Hardlink,
            },
    {
        match &self.kind {
            EntryKind::Hardlink(link) => Some(link.as_os_str()),
            _ => None,
        }
    }

    /// Get the value of the device node if it is one.
    pub fn get_device(&self) -> (r: Option<Device>)
        ensures
            match r {
                Some(device) => self@.kind == KindView::Device(device),
                None => self@.kind !is Device,
            },
    {
        match &self.kind {
            EntryKind::Device(device) => Some(*device),
            _ => None,
        }
    }
}

/// Convenience helpers.
impl Entry {
    /// Check whether this is a directory.
    pub fn is_dir(&self) -> (r: bool)
        ensures
            r == (self@.kind is Directory),
    {
        match self.kind {
            EntryKind::Directory => true,
            _ => false,
        }
    }

    /// Check whether this is a symbolic link.
    pub fn is_symlink(&self) -> (r: bool)
        ensures
            r == (self@.kind is Symlink),
    {
        match self.kind {
            EntryKind::Symlink(_) => true,
            _ => false,
        }
    }

    /// Check whether this is a hard link.
    pub fn is_hardlink(&self) -> (r: bool)
        ensures
            r == (self@.kind is Hardlink),
    {
        match self.kind {
            EntryKind::Hardlink(_) => true,
            _ => false,
        }
    }

    /// Check whether this is a device node.
    pub fn is_device(&self) -> (r: bool)
        ensures
            r == (self@.kind is Device),
    {
        match self.kind {
            EntryKind::Device(_) => true,
            _ => false,
        }
    }

    /// Check whether this is a regular file.
    pub fn is_regular_file(&self) -> (r: bool)
        ensures
            r == (self@.kind is File),
    {
        match self.kind {
            EntryKind::File { .. } => true,
            _ => false,
        }
    }

    /// Get the file size if this is a regular file, or `None`.
    pub fn file_size(&self) -> (r: Option<u64>)
        ensures
            match r {
                Some(s) => self@.kind matches KindView::File { size, .. } && size == s,
                None => self@.kind !is File,
            },
    {
        match self.kind {
            EntryKind::File { size, .. } => Some(size),
            _ => None,
        }
    }
}

} // verus!
