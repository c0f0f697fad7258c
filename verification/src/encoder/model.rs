//! What encoding an archive means: a machine over the bytes that have been written.

use vstd::prelude::*;

use crate::encoder::write::{
    header_of, lemma_put_items_concat, starts_with, Cursor, ItemView,
};
use crate::errors::Error;
use crate::format::goodbye::filename_hash;
use crate::format::mode;
use crate::format::wire::{le64, Wire};
use crate::format::xattr::XAttrView;
use crate::format::{
    Device, FormatVersion, GoodbyeItem, PayloadRef, HEADER_SIZE, PXAR_ACL_DEFAULT,
    PXAR_ACL_DEFAULT_GROUP, PXAR_ACL_DEFAULT_USER, PXAR_ACL_GROUP, PXAR_ACL_GROUP_OBJ,
    PXAR_ACL_USER, PXAR_DEVICE, PXAR_ENTRY, PXAR_FCAPS, PXAR_FILENAME, PXAR_FORMAT_VERSION,
    PXAR_GOODBYE, PXAR_HARDLINK, PXAR_PAYLOAD, PXAR_PAYLOAD_REF, PXAR_PAYLOAD_START_MARKER,
    PXAR_PAYLOAD_TAIL_MARKER, PXAR_PRELUDE, PXAR_QUOTA_PROJID, PXAR_SYMLINK, PXAR_XATTR,
};
use crate::goodbye_table::{goodbye_content, goodbye_size_of};
use crate::metadata::{AclView, MetadataView};
use crate::util::filename_error;

verus! {

/// Error conditions caused by wrong usage of this crate.
#[derive(Clone, Copy, Debug, PartialEq, Eq, Structural)]
pub enum EncodeError {
    /// The user dropped a `File` without finishing writing all of its contents.
    ///
    /// Completely writing the contents is required because the payload length is written out first
    /// and decoding requires the the encoded length and the following data to match.
    IncompleteFile,

    /// The user dropped a directory without finalizing it.
    ///
    /// Finalizing is required to build the goodbye table at the end of a directory.
    IncompleteDirectory,
}

impl EncodeError {
    /// The error that is reported for it.
    pub open spec fn error(self) -> Error {
        match self {
            EncodeError::IncompleteFile => Error::IncompleteFile,
            EncodeError::IncompleteDirectory => Error::IncompleteDirectory,
        }
    }
}

/// A file whose contents are being written.
#[derive(Clone, Copy, Debug, PartialEq, Eq, Structural)]
pub struct OpenFile {
    /// This file's `GoodbyeItem`.
    pub goodbye_item: GoodbyeItem,

    /// While writing data to this file, this is how much space we still have left, this must reach
    /// exactly zero.
    pub remaining_size: u64,
}

/// The state of a directory that is being written.
#[verifier::ext_equal]
pub struct StateView {
    /// Goodbye items for this directory, excluding the tail.
    pub items: Seq<GoodbyeItem>,
    /// User caused error conditions.
    pub encode_error: Option<EncodeError>,
    /// Offset of this directory's ENTRY.
    pub entry_offset: u64,
    /// Offset to this directory's first FILENAME.
    pub files_offset: u64,
    /// If this is a subdirectory, this points to the this directory's FILENAME.
    pub file_offset: Option<u64>,
    /// If this is a subdirectory, this contains this directory's hash for the goodbye item.
    pub file_hash: u64,
    /// We need to keep track how much we have written to get offsets.
    pub write_position: u64,
    /// Track the bytes written to the payload writer
    pub payload_write_position: u64,
}

impl StateView {
    /// The state before anything has been written.
    pub open spec fn initial() -> Self {
        StateView {
            items: Seq::empty(),
            encode_error: None,
            entry_offset: 0,
            files_offset: 0,
            file_offset: None,
            file_hash: 0,
            write_position: 0,
            payload_write_position: 0,
        }
    }

    /// One error is enough.
    pub open spec fn with_error(self, error: Option<EncodeError>) -> Self {
        if self.encode_error is None {
            StateView { encode_error: error, ..self }
        } else {
            self
        }
    }

    /// No offset lies beyond the position.
    pub open spec fn well_formed(self) -> bool {
        &&& self.entry_offset <= self.write_position
        &&& forall|i: int| 0 <= i < self.items.len() ==> self.items[i].offset <= self.write_position
        &&& self.file_offset matches Some(at) ==> at <= self.write_position
    }
}

/// The state of an encoder and what it has written.
#[verifier::ext_equal]
pub struct EncoderView {
    /// What has been written to the archive.
    pub archive: Seq<u8>,
    /// What has been written to the separate payload stream, if there is one.
    pub payload: Option<Seq<u8>>,
    /// The directories that have not been finished, from the root down.
    pub states: Seq<StateView>,
    /// The file whose contents are being written, or were written last.
    pub open: Option<OpenFile>,
    pub finished: bool,
    pub version: FormatVersion,
}

/// The item with the name of a file.
pub open spec fn filename_item(name: Seq<u8>) -> ItemView {
    ItemView { htype: PXAR_FILENAME, content: name.push(0) }
}

/// The items of extended attributes.
pub open spec fn xattr_items(xattrs: Seq<XAttrView>) -> Seq<ItemView> {
    xattrs.map_values(|x: XAttrView| ItemView { htype: PXAR_XATTR, content: x.data() })
}

/// The items of a list of fixed-size values.
pub open spec fn struct_items<E: Wire>(htype: u64, values: Seq<E>) -> Seq<ItemView> {
    values.map_values(|v: E| ItemView { htype, content: v.wire() })
}

/// An item that may be missing.
pub open spec fn optional_item(htype: u64, content: Option<Seq<u8>>) -> Seq<ItemView> {
    match content {
        Some(content) => seq![ItemView { htype, content }],
        None => Seq::empty(),
    }
}

/// The bytes of an optional value.
pub open spec fn optional_wire<T: Wire>(value: Option<T>) -> Option<Seq<u8>> {
    match value {
        Some(v) => Some(v.wire()),
        None => None,
    }
}

/// The items of an ACL.
pub open spec fn acl_items(acl: AclView) -> Seq<ItemView> {
    struct_items(PXAR_ACL_USER, acl.users) + struct_items(PXAR_ACL_GROUP, acl.groups) + optional_item(
        PXAR_ACL_GROUP_OBJ,
        optional_wire(acl.group_obj),
    ) + optional_item(PXAR_ACL_DEFAULT, optional_wire(acl.default)) + struct_items(
        PXAR_ACL_DEFAULT_USER,
        acl.default_users,
    ) + struct_items(PXAR_ACL_DEFAULT_GROUP, acl.default_groups)
}

/// The items of metadata after the stat data.
pub open spec fn attribute_items(metadata: MetadataView) -> Seq<ItemView> {
    xattr_items(metadata.xattrs) + acl_items(metadata.acl) + optional_item(
        PXAR_FCAPS,
        metadata.fcaps,
    ) + optional_item(PXAR_QUOTA_PROJID, optional_wire(metadata.quota_project_id))
}

/// The item with the stat data.
pub open spec fn stat_item(metadata: MetadataView) -> ItemView {
    ItemView { htype: PXAR_ENTRY, content: metadata.stat.wire() }
}

/// The items of metadata.
pub open spec fn metadata_items(metadata: MetadataView) -> Seq<ItemView> {
    seq![stat_item(metadata)] + attribute_items(metadata)
}

/// The content of a symbolic link's item.
pub open spec fn symlink_item(target: Seq<u8>) -> ItemView {
    ItemView { htype: PXAR_SYMLINK, content: target.push(0) }
}

/// The content of a hard link's item. The target is found by its distance.
pub open spec fn hardlink_item(distance: u64, target: Seq<u8>) -> ItemView {
    ItemView { htype: PXAR_HARDLINK, content: le64(distance) + target.push(0) }
}

/// The content of a device node's item.
pub open spec fn device_item(device: Device) -> ItemView {
    ItemView { htype: PXAR_DEVICE, content: device.wire() }
}

/// The item that refers to contents in the payload stream.
pub open spec fn payload_ref_item(offset: u64, size: u64) -> ItemView {
    ItemView { htype: PXAR_PAYLOAD_REF, content: (PayloadRef { offset, size }).wire() }
}

/// The items in front of the root directory.
pub open spec fn preamble_items(version: FormatVersion, prelude: Option<Seq<u8>>) -> Seq<ItemView> {
    optional_item(PXAR_FORMAT_VERSION, optional_wire(version.number())) + optional_item(
        PXAR_PRELUDE,
        prelude,
    )
}

impl EncoderView {
    /// The innermost directory.
    pub open spec fn last(self) -> StateView
        recommends
            self.states.len() > 0,
    {
        self.states.last()
    }

    pub open spec fn with_last(self, state: StateView) -> Self {
        EncoderView { states: self.states.drop_last().push(state), ..self }
    }

    /// Where the archive stands.
    pub open spec fn cursor(self) -> Cursor {
        Cursor { bytes: self.archive, position: self.last().write_position }
    }

    pub open spec fn at(self, c: Cursor) -> Self {
        EncoderView { archive: c.bytes, ..self }.with_last(
            StateView { write_position: c.position, ..self.last() },
        )
    }

    /// Where the payload stream stands.
    pub open spec fn payload_cursor(self) -> Cursor {
        Cursor { bytes: self.payload->0, position: self.last().payload_write_position }
    }

    pub open spec fn at_payload(self, c: Cursor) -> Self {
        EncoderView { payload: Some(c.bytes), ..self }.with_last(
            StateView { payload_write_position: c.position, ..self.last() },
        )
    }

    /// What holds of every encoder.
    pub open spec fn well_formed(self) -> bool {
        &&& forall|k: int| 0 <= k < self.states.len() ==> (#[trigger] self.states[k]).well_formed()
        &&& forall|k: int|
            0 < k < self.states.len() ==> (#[trigger] self.states[k]).file_offset is Some
        &&& forall|j: int, k: int|
            0 <= j <= k < self.states.len() ==> (#[trigger] self.states[j]).write_position <= (
            #[trigger] self.states[k]).write_position
        &&& self.open matches Some(file) ==> {
            &&& self.states.len() > 0
            &&& file.goodbye_item.offset <= self.last().write_position
        }
    }

    /// The directories are the same and list the same files: nothing but positions has changed.
    pub open spec fn same_directories(self, before: Self) -> bool {
        &&& self.states.len() == before.states.len()
        &&& self.states.drop_last() == before.states.drop_last()
        &&& before.states.len() > 0 ==> self.last() == (StateView {
            write_position: self.last().write_position,
            payload_write_position: self.last().payload_write_position,
            ..before.last()
        })
    }

    /// What had been written before is still there.
    pub open spec fn extends(self, before: Self) -> bool {
        &&& starts_with(self.archive, before.archive)
        &&& match before.payload {
            Some(p) => self.payload is Some && starts_with(self.payload->0, p),
            None => self.payload is None,
        }
    }

    /// Take leave of the file that was written last. It is listed in its directory, and an error
    /// is noted where it is not complete.
    pub open spec fn settled(self) -> Self {
        match self.open {
            Some(file) => {
                let state = if file.remaining_size != 0 {
                    self.last().with_error(Some(EncodeError::IncompleteFile))
                } else {
                    self.last()
                };
                EncoderView { open: None, ..self }.with_last(
                    StateView { items: state.items.push(file.goodbye_item), ..state },
                )
            },
            None => self,
        }
    }

    /// Why nothing can be added, if so.
    pub open spec fn check_error(self) -> Option<Error> {
        if self.finished {
            Some(Error::EncoderFinished)
        } else if self.states.len() == 0 {
            Some(Error::StateUnderflow)
        } else {
            match self.last().encode_error {
                Some(e) => Some(e.error()),
                None => None,
            }
        }
    }

    /// Why nothing with this name is added, where nothing is written on that account.
    pub open spec fn refusal(self, name: Seq<u8>) -> Option<Error> {
        let this = self.settled();
        match this.check_error() {
            Some(e) => Some(e),
            None => match this.put_filename(name) {
                Err(e) => Some(e),
                Ok(_) => None,
            },
        }
    }

    /// Write items to the archive.
    pub open spec fn put_items(self, items: Seq<ItemView>) -> Result<Self, Error> {
        if self.states.len() == 0 {
            Err(Error::StateUnderflow)
        } else {
            match self.cursor().put_items(items) {
                Ok(c) => Ok(self.at(c)),
                Err(e) => Err(e),
            }
        }
    }

    /// What is left when one of some items is refused: those in front of it are in the archive.
    pub open spec fn items_refused(self, items: Seq<ItemView>) -> Self {
        if self.states.len() == 0 {
            self
        } else {
            self.at(self.cursor().put_until_refused(items))
        }
    }

    /// Write one item to the archive.
    pub open spec fn put_item(self, item: ItemView) -> Result<Self, Error> {
        if self.states.len() == 0 {
            Err(Error::StateUnderflow)
        } else {
            match self.cursor().put_item(item) {
                Ok(c) => Ok(self.at(c)),
                Err(e) => Err(e),
            }
        }
    }

    /// Write a file name.
    pub open spec fn put_filename(self, name: Seq<u8>) -> Result<Self, Error> {
        match filename_error(name) {
            Some(e) => Err(e),
            None => self.put_item(filename_item(name)),
        }
    }

    /// Write a file name and metadata.
    pub open spec fn start_file(self, metadata: Option<MetadataView>, name: Seq<u8>) -> Result<
        Self,
        Error,
    > {
        match self.put_filename(name) {
            Ok(d) => match metadata {
                Some(metadata) => d.put_items(metadata_items(metadata)),
                None => Ok(d),
            },
            Err(e) => Err(e),
        }
    }

    /// What is left when a file name or metadata are refused.
    pub open spec fn start_refused(self, metadata: Option<MetadataView>, name: Seq<u8>) -> Self {
        match (self.put_filename(name), metadata) {
            (Ok(d), Some(metadata)) => d.items_refused(metadata_items(metadata)),
            _ => self,
        }
    }

    /// What is left when what stands in front of the contents of a file is refused.
    pub open spec fn payload_refused(self, size: u64) -> Self {
        let header = header_of(PXAR_PAYLOAD, size as nat).wire();
        match self.payload {
            Some(_) => match self.payload_cursor().put(header) {
                Ok(c) => if size + HEADER_SIZE > u64::MAX {
                    self
                } else {
                    self.at_payload(c)
                },
                Err(_) => self,
            },
            None => self,
        }
    }

    /// Write what stands in front of the contents of a file.
    pub open spec fn start_payload(self, size: u64) -> Result<Self, Error> {
        if size + HEADER_SIZE > u64::MAX {
            Err(Error::OutOfRange)
        } else {
            let header = header_of(PXAR_PAYLOAD, size as nat).wire();
            match self.payload {
                None => match self.cursor().put(header) {
                    Ok(c) => Ok(self.at(c)),
                    Err(e) => Err(e),
                },
                // payload references must point to the position prior to the payload header,
                // separating payload entries in the payload stream
                Some(_) => match self.payload_cursor().put(header) {
                    Ok(c) => self.at_payload(c).put_item(
                        payload_ref_item(self.last().payload_write_position, size),
                    ),
                    Err(e) => Err(e),
                },
            }
        }
    }

    /// The position of the stream that the contents of files go to.
    pub open spec fn contents_position(self) -> u64 {
        if self.payload is Some {
            self.last().payload_write_position
        } else {
            self.last().write_position
        }
    }

    /// Expect the contents of a file. Its size and its end have to stay within 64 bits.
    pub open spec fn open_file(self, start: u64, name: Seq<u8>, size: u64) -> Result<Self, Error> {
        if self.contents_position() + size > u64::MAX || self.last().write_position - start + size
            > u64::MAX {
            Err(Error::OutOfRange)
        } else {
            Ok(
                EncoderView {
                    open: Some(
                        OpenFile {
                            goodbye_item: GoodbyeItem {
                                hash: filename_hash(name),
                                offset: start,
                                size: (size + self.last().write_position - start) as u64,
                            },
                            remaining_size: size,
                        },
                    ),
                    ..self
                },
            )
        }
    }

    /// Add a file whose contents are still to be written.
    pub open spec fn create_file(
        self,
        metadata: MetadataView,
        name: Seq<u8>,
        size: u64,
    ) -> Result<Self, Error> {
        let this = self.settled();
        match this.check_error() {
            Some(e) => Err(e),
            None => match this.start_file(Some(metadata), name) {
                Err(e) => Err(e),
                Ok(d) => match d.start_payload(size) {
                    Err(e) => Err(e),
                    Ok(d) => d.open_file(this.last().write_position, name, size),
                },
            },
        }
    }

    /// What is left when a file is refused: the items in front of what was not accepted are there,
    /// but the file is not listed.
    pub open spec fn file_refused(self, metadata: MetadataView, name: Seq<u8>, size: u64) -> Self {
        let this = self.settled();
        match this.check_error() {
            Some(_) => this,
            None => match this.start_file(Some(metadata), name) {
                Err(_) => this.start_refused(Some(metadata), name),
                Ok(d) => match d.start_payload(size) {
                    Err(_) => d.payload_refused(size),
                    Ok(d) => d,
                },
            },
        }
    }

    /// Why the contents of the open file do not go on with `data`, where nothing is written on that
    /// account: there is no room left in the file, or its end would not stay within 64 bits.
    pub open spec fn contents_refusal(self, data: Seq<u8>) -> Option<Error> {
        if data.len() > self.open->0.remaining_size {
            Some(Error::FileOverrun)
        } else if self.contents_position() + data.len() > u64::MAX {
            Some(Error::OutOfRange)
        } else {
            None
        }
    }

    /// The contents of the open file go on with `data`.
    pub open spec fn with_contents(self, data: Seq<u8>) -> Self {
        let this = EncoderView {
            open: Some(
                OpenFile {
                    remaining_size: (self.open->0.remaining_size - data.len()) as u64,
                    ..self.open->0
                },
            ),
            ..self
        };
        match self.payload {
            None => this.at(
                Cursor {
                    bytes: self.archive + data,
                    position: (self.last().write_position + data.len()) as u64,
                },
            ),
            Some(payload) => this.at_payload(
                Cursor {
                    bytes: payload + data,
                    position: (self.last().payload_write_position + data.len()) as u64,
                },
            ),
        }
    }

    /// Add a file with contents. More contents than announced are refused.
    pub open spec fn add_file(
        self,
        metadata: MetadataView,
        name: Seq<u8>,
        size: u64,
        contents: Seq<u8>,
    ) -> Result<Self, Error> {
        match self.create_file(metadata, name, size) {
            Err(e) => Err(e),
            Ok(d) => if contents.len() > size {
                Err(Error::FileOverrun)
            } else {
                Ok(d.with_contents(contents))
            },
        }
    }

    /// Add something whose items are written all at once.
    pub open spec fn add_entry(
        self,
        metadata: Option<MetadataView>,
        name: Seq<u8>,
        item: Option<ItemView>,
    ) -> Result<Self, Error> {
        let this = self.settled();
        match this.check_error() {
            Some(e) => Err(e),
            None => match this.start_file(metadata, name) {
                Err(e) => Err(e),
                Ok(d) => match (match item {
                    Some(item) => d.put_item(item),
                    None => Ok(d),
                }) {
                    Err(e) => Err(e),
                    Ok(d) => Ok(d.listed(this.last().write_position, name)),
                },
            },
        }
    }

    /// What is left when something whose items are written all at once is refused: the items in
    /// front of the refused one are there, but nothing is listed.
    pub open spec fn entry_refused(self, metadata: Option<MetadataView>, name: Seq<u8>) -> Self {
        let this = self.settled();
        match this.check_error() {
            Some(_) => this,
            None => match this.start_file(metadata, name) {
                Err(_) => this.start_refused(metadata, name),
                Ok(d) => d,
            },
        }
    }

    /// List what was written from `start` on in the directory.
    pub open spec fn listed(self, start: u64, name: Seq<u8>) -> Self {
        self.with_last(
            StateView {
                items: self.last().items.push(
                    GoodbyeItem {
                        hash: filename_hash(name),
                        offset: start,
                        size: (self.last().write_position - start) as u64,
                    },
                ),
                ..self.last()
            },
        )
    }

    /// Add a reference to contents in the payload stream.
    pub open spec fn add_payload_ref(
        self,
        metadata: MetadataView,
        name: Seq<u8>,
        size: u64,
        offset: u64,
    ) -> Result<Self, Error> {
        let this = self.settled();
        if self.version == FormatVersion::Version1 {
            Err(Error::PayloadRefUnsupported)
        } else if self.payload is None {
            Err(Error::NoPayloadOutput)
        } else if this.states.len() == 0 {
            Err(Error::StateUnderflow)
        } else if offset < this.last().payload_write_position {
            Err(
                Error::PayloadOffsetTooSmall {
                    offset,
                    position: this.last().payload_write_position,
                },
            )
        } else {
            this.add_entry(Some(metadata), name, Some(payload_ref_item(offset, size)))
        }
    }

    /// Why a reference to contents is not added, where nothing is written on that account.
    pub open spec fn payload_ref_refusal(self, name: Seq<u8>, offset: u64) -> Option<Error> {
        let this = self.settled();
        if self.version == FormatVersion::Version1 {
            Some(Error::PayloadRefUnsupported)
        } else if self.payload is None {
            Some(Error::NoPayloadOutput)
        } else if this.states.len() == 0 {
            Some(Error::StateUnderflow)
        } else if offset < this.last().payload_write_position {
            Some(
                Error::PayloadOffsetTooSmall {
                    offset,
                    position: this.last().payload_write_position,
                },
            )
        } else {
            self.refusal(name)
        }
    }

    /// Move on in the payload stream.
    pub open spec fn advance(self, size: u64) -> Result<Self, Error> {
        let this = self.settled();
        if this.states.len() == 0 {
            Err(Error::StateUnderflow)
        } else if this.last().payload_write_position + size > u64::MAX {
            Err(Error::OutOfRange)
        } else {
            Ok(
                this.with_last(
                    StateView {
                        payload_write_position: (this.last().payload_write_position + size) as u64,
                        ..this.last()
                    },
                ),
            )
        }
    }

    /// Add a hard link to something at `target_offset`.
    pub open spec fn add_hardlink(self, name: Seq<u8>, target: Seq<u8>, target_offset: u64) -> Result<
        Self,
        Error,
    > {
        let this = self.settled();
        if this.states.len() == 0 {
            Err(Error::StateUnderflow)
        } else if this.last().write_position <= target_offset {
            Err(Error::InvalidHardlinkOffset)
        } else {
            this.add_entry(
                None,
                name,
                Some(
                    hardlink_item((this.last().write_position - target_offset) as u64, target),
                ),
            )
        }
    }

    /// Why a hard link is not added, where nothing is written on that account.
    pub open spec fn hardlink_refusal(self, name: Seq<u8>, target_offset: u64) -> Option<Error> {
        let this = self.settled();
        if this.states.len() == 0 {
            Some(Error::StateUnderflow)
        } else if this.last().write_position <= target_offset {
            Some(Error::InvalidHardlinkOffset)
        } else {
            self.refusal(name)
        }
    }

    /// Add a device node.
    pub open spec fn add_device(self, metadata: MetadataView, name: Seq<u8>, device: Device) -> Result<
        Self,
        Error,
    > {
        if metadata.file_type() != mode::IFCHR && metadata.file_type() != mode::IFBLK {
            Err(Error::NotADevice)
        } else {
            self.add_entry(Some(metadata), name, Some(device_item(device)))
        }
    }

    /// Why a device node is not added, where nothing is written on that account.
    pub open spec fn device_refusal(self, metadata: MetadataView, name: Seq<u8>) -> Option<Error> {
        if metadata.file_type() != mode::IFCHR && metadata.file_type() != mode::IFBLK {
            Some(Error::NotADevice)
        } else {
            self.refusal(name)
        }
    }

    /// Add a named pipe.
    pub open spec fn add_fifo(self, metadata: MetadataView, name: Seq<u8>) -> Result<Self, Error> {
        if metadata.file_type() != mode::IFIFO {
            Err(Error::NotAFifo)
        } else {
            self.add_entry(Some(metadata), name, None)
        }
    }

    /// Why a named pipe is not added, where nothing is written on that account.
    pub open spec fn fifo_refusal(self, metadata: MetadataView, name: Seq<u8>) -> Option<Error> {
        if metadata.file_type() != mode::IFIFO {
            Some(Error::NotAFifo)
        } else {
            self.refusal(name)
        }
    }

    /// Add a socket.
    pub open spec fn add_socket(self, metadata: MetadataView, name: Seq<u8>) -> Result<Self, Error> {
        if metadata.file_type() != mode::IFSOCK {
            Err(Error::NotASocket)
        } else {
            self.add_entry(Some(metadata), name, None)
        }
    }

    /// Why a socket is not added, where nothing is written on that account.
    pub open spec fn socket_refusal(self, metadata: MetadataView, name: Seq<u8>) -> Option<Error> {
        if metadata.file_type() != mode::IFSOCK {
            Some(Error::NotASocket)
        } else {
            self.refusal(name)
        }
    }

    /// State the version, at the very beginning.
    pub open spec fn put_version(self) -> Result<Self, Error> {
        match self.version.number() {
            Some(number) => if self.last().write_position != 0 {
                Err(Error::VersionMisplaced)
            } else {
                self.put_item(ItemView { htype: PXAR_FORMAT_VERSION, content: number.wire() })
            },
            None => Ok(self),
        }
    }

    /// Write the prelude, right after the version.
    pub open spec fn put_prelude(self, prelude: Seq<u8>) -> Result<Self, Error> {
        if self.version == FormatVersion::Version1 {
            Err(Error::PreludeUnsupported)
        } else if self.last().write_position != 8 + HEADER_SIZE {
            Err(Error::PreludeMisplaced { position: self.last().write_position })
        } else {
            self.put_item(ItemView { htype: PXAR_PRELUDE, content: prelude })
        }
    }

    /// Enter a new directory.
    pub open spec fn create_directory(self, name: Seq<u8>, metadata: MetadataView) -> Result<
        Self,
        Error,
    > {
        let this = self.settled();
        match this.check_error() {
            Some(e) => Err(e),
            None => if metadata.file_type() != mode::IFDIR {
                Err(Error::NotADirectory)
            } else {
                match this.put_filename(name) {
                    Err(e) => Err(e),
                    Ok(named) => match named.put_items(metadata_items(metadata)) {
                        Err(e) => Err(e),
                        Ok(d) => Ok(
                            EncoderView {
                                states: d.states.push(
                                    StateView {
                                        items: Seq::empty(),
                                        encode_error: None,
                                        entry_offset: named.last().write_position,
                                        files_offset: d.last().write_position,
                                        file_offset: Some(this.last().write_position),
                                        file_hash: filename_hash(name),
                                        write_position: d.last().write_position,
                                        payload_write_position: d.last().payload_write_position,
                                    },
                                ),
                                ..d
                            },
                        ),
                    },
                }
            },
        }
    }

    /// Why a directory is not entered, where nothing is written on that account.
    pub open spec fn directory_refusal(self, name: Seq<u8>, metadata: MetadataView) -> Option<
        Error,
    > {
        match self.settled().check_error() {
            Some(e) => Some(e),
            None => if metadata.file_type() != mode::IFDIR {
                Some(Error::NotADirectory)
            } else {
                self.refusal(name)
            },
        }
    }

    /// The goodbye item of the innermost directory.
    pub open spec fn goodbye_item(self) -> ItemView {
        ItemView {
            htype: PXAR_GOODBYE,
            content: goodbye_content(
                self.last().items,
                self.last().write_position,
                self.last().entry_offset,
            ),
        }
    }

    /// Why the innermost directory is not finished, where it is not even left.
    pub open spec fn finish_refusal(self) -> Option<Error> {
        let this = self.settled();
        if this.states.len() == 0 {
            Some(Error::StateUnderflow)
        } else if goodbye_size_of(this.last().items.len()) > u64::MAX {
            Some(Error::OutOfRange)
        } else {
            None
        }
    }

    /// Finish the innermost directory.
    pub open spec fn finish(self) -> Result<Self, Error> {
        let this = self.settled();
        if this.states.len() == 0 {
            Err(Error::StateUnderflow)
        } else if goodbye_size_of(this.last().items.len()) > u64::MAX {
            Err(Error::OutOfRange)
        } else {
            match this.put_item(this.goodbye_item()) {
                Err(e) => Err(e),
                Ok(d) => {
                    let child = d.last();
                    let rest = EncoderView { states: d.states.drop_last(), ..d };
                    if rest.states.len() == 0 {
                        match child.encode_error {
                            Some(e) => Err(e.error()),
                            None => Ok(rest),
                        }
                    } else {
                        Ok(
                            rest.with_last(
                                StateView {
                                    write_position: child.write_position,
                                    payload_write_position: child.payload_write_position,
                                    items: rest.last().items.push(
                                        GoodbyeItem {
                                            hash: child.file_hash,
                                            offset: child.file_offset->0,
                                            size: (child.write_position - child.file_offset->0)
                                                as u64,
                                        },
                                    ),
                                    ..rest.last()
                                }.with_error(child.encode_error),
                            ),
                        )
                    }
                },
            }
        }
    }
}

/// Start an archive: what is written in front of the contents of the root directory.
pub open spec fn new_encoder(
    archive: Seq<u8>,
    payload: Option<Seq<u8>>,
    metadata: MetadataView,
    prelude: Option<Seq<u8>>,
) -> Result<EncoderView, Error> {
    let version = if payload is Some {
        FormatVersion::Version2
    } else {
        FormatVersion::Version1
    };
    if metadata.file_type() != mode::IFDIR {
        Err(Error::NotADirectory)
    } else if payload is None && prelude is Some {
        Err(Error::PreludeUnsupported)
    } else {
        let start = EncoderView {
            archive,
            payload,
            states: seq![StateView::initial()],
            open: None,
            finished: false,
            version,
        };
        let marked = match payload {
            Some(p) => start.at_payload(
                Cursor {
                    bytes: p + header_of(PXAR_PAYLOAD_START_MARKER, 0).wire(),
                    position: HEADER_SIZE,
                },
            ),
            None => start,
        };
        match marked.put_items(preamble_items(version, prelude)) {
            Err(e) => Err(e),
            Ok(d) => match d.put_items(metadata_items(metadata)) {
                Err(e) => Err(e),
                Ok(d) => Ok(
                    d.with_last(StateView { files_offset: d.last().write_position, ..d.last() }),
                ),
            },
        }
    }
}

/// What is written to the payload stream when an encoder is closed.
pub open spec fn payload_tail() -> Seq<u8> {
    header_of(PXAR_PAYLOAD_TAIL_MARKER, 0).wire()
}

/// Nothing to write is nothing to do.
pub proof fn lemma_put_nothing(d: EncoderView)
    requires
        d.states.len() > 0,
    ensures
        d.put_items(Seq::empty()) == Ok::<EncoderView, Error>(d),
        d.items_refused(Seq::empty()) == d,
{
    lemma_at(d, d.cursor(), d.cursor());
}

proof fn lemma_at(d: EncoderView, a: Cursor, b: Cursor)
    requires
        d.states.len() > 0,
    ensures
        d.at(d.cursor()) == d,
        d.at(a).states.len() == d.states.len(),
        d.at(a).cursor() == a,
        d.at(a).at(b) == d.at(b),
{
    assert(d.at(d.cursor()) =~= d);
    assert(d.at(a).at(b) =~= d.at(b));
}

/// Items are written one after the other.
pub proof fn lemma_put_first(d: EncoderView, items: Seq<ItemView>)
    requires
        items.len() > 0,
    ensures
        d.put_items(items) == (match d.put_item(items[0]) {
            Ok(e) => e.put_items(items.skip(1)),
            Err(e) => Err(e),
        }),
        d.items_refused(items) == (match d.put_item(items[0]) {
            Ok(e) => e.items_refused(items.skip(1)),
            Err(_) => d,
        }),
{
    if d.states.len() > 0 {
        lemma_at(d, d.cursor(), d.cursor());
        if let Ok(c) = d.cursor().put_item(items[0]) {
            lemma_at(d, c, c.put_until_refused(items.skip(1)));
            lemma_at(d, c, c);
            if let Ok(f) = c.put_items(items.skip(1)) {
                lemma_at(d, c, f);
            }
        }
    }
}

/// Items can be written in parts.
pub proof fn lemma_put_parts(d: EncoderView, a: Seq<ItemView>, b: Seq<ItemView>)
    ensures
        d.put_items(a + b) == (match d.put_items(a) {
            Ok(e) => e.put_items(b),
            Err(e) => Err(e),
        }),
        d.items_refused(a + b) == (match d.put_items(a) {
            Ok(e) => e.items_refused(b),
            Err(_) => d.items_refused(a),
        }),
{
    if d.states.len() > 0 {
        lemma_put_items_concat(d.cursor(), a, b);
        if let Ok(c) = d.cursor().put_items(a) {
            lemma_at(d, c, c.put_until_refused(b));
            lemma_at(d, c, c);
            if let Ok(f) = c.put_items(b) {
                lemma_at(d, c, f);
            }
        }
    }
}

/// File contents can be written in parts.
pub proof fn lemma_with_contents(d: EncoderView, a: Seq<u8>, b: Seq<u8>)
    requires
        d.well_formed(),
        d.open is Some,
        a.len() + b.len() <= d.open->0.remaining_size,
        d.contents_position() + a.len() + b.len() <= u64::MAX,
    ensures
        d.with_contents(Seq::empty()) == d,
        d.with_contents(a).with_contents(b) == d.with_contents(a + b),
        d.with_contents(a).well_formed(),
        d.with_contents(a).open is Some,
        d.with_contents(a).open->0.remaining_size == d.open->0.remaining_size - a.len(),
        d.with_contents(a).contents_position() == d.contents_position() + a.len(),
{
    assert(d.archive + Seq::<u8>::empty() =~= d.archive);
    if let Some(p) = d.payload {
        assert(p + Seq::<u8>::empty() =~= p);
        assert(p + a + b =~= p + (a + b));
    }
    assert(d.with_contents(Seq::empty()) =~= d);
    assert(d.archive + a + b =~= d.archive + (a + b));
    assert(d.with_contents(a).with_contents(b) =~= d.with_contents(a + b));
    lemma_well_formed_contents(d, a);
}

proof fn lemma_well_formed_contents(d: EncoderView, a: Seq<u8>)
    requires
        d.well_formed(),
        d.open is Some,
        a.len() <= d.open->0.remaining_size,
        d.contents_position() + a.len() <= u64::MAX,
    ensures
        d.with_contents(a).well_formed(),
{
    let e = d.with_contents(a);
    let n = d.states.len() as int;
    assert(e.states.len() == n);
    assert forall|k: int| 0 <= k < n - 1 implies #[trigger] e.states[k] == d.states[k] by {}
    assert(e.states[n - 1] == e.last());
    assert(d.states[n - 1] == d.last());
}

} // verus!
