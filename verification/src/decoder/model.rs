//! What decoding an archive means: a machine over the bytes that are left to be read.

use vstd::prelude::*;

use crate::decoder::read::{lemma_follows, InputView};
use crate::entry::{EntryView, KindView};
use crate::errors::{Error, ItemName};
use crate::format::acl;
use crate::format::mode;
use crate::format::wire::Wire;
use crate::format::xattr::xattr_of;
use crate::format::{
    header_error, Device, Entry as Stat, Header, QuotaProjectId, Stat_V1, HEADER_SIZE,
    PXAR_ACL_DEFAULT, PXAR_ACL_DEFAULT_GROUP, PXAR_ACL_DEFAULT_USER, PXAR_ACL_GROUP,
    PXAR_ACL_GROUP_OBJ, PXAR_ACL_USER, PXAR_DEVICE, PXAR_ENTRY, PXAR_ENTRY_V1, PXAR_FCAPS,
    PXAR_FILENAME, PXAR_GOODBYE, PXAR_HARDLINK, PXAR_PAYLOAD, PXAR_QUOTA_PROJID, PXAR_SYMLINK,
    PXAR_XATTR,
};
use crate::metadata::{AclView, MetadataView};
use crate::path::joined;
use crate::util::filename_error;

verus! {

/// Where a decoder stands.
#[derive(Clone, Copy, Debug, PartialEq, Eq, Structural)]
pub enum State {
    Begin,
    Default,
    InPayload { offset: u64 },
    /// file entries with no data (fifo, socket)
    InSpecialFile,
    InGoodbyeTable,
    InDirectory,
    Eof,
}

/// Control flow while parsing items.
///
/// When parsing an entry, we usually go through all of its attribute items. Once we reach the end
/// of the entry we stop.
/// Note that if we're in a directory, we stopped at the beginning of its contents.
#[derive(Clone, Copy, Debug, PartialEq, Eq, Structural)]
pub enum ItemResult {
    /// We parsed an "attribute" item and should continue parsing.
    Attribute,

    /// We finished an entry (`SYMLINK`, `HARDLINK`, ...) or just entered the contents of a
    /// directory (`FILENAME`, `GOODBYE`).
    ///
    /// We stop moving forward at this point.
    Entry,
}

/// The state of a decoder and what its input still holds.
#[verifier::ext_equal]
pub struct DecoderView {
    pub input: InputView,
    /// The header of the current item.
    pub header: Header,
    /// The entry that is being put together.
    pub entry: EntryView,
    /// The lengths of the paths of the directories that we are in.
    pub path_lengths: Seq<nat>,
    pub state: State,
    pub with_goodbye_tables: bool,
    pub eof_after_entry: bool,
}

/// What one step of a decoder comes to.
#[verifier::ext_equal]
pub enum StepView {
    /// There is something to report: an entry, or the end of the archive.
    Report(Option<EntryView>),

    /// There is nothing to report yet.
    Continue,
}

impl DecoderView {
    /// This is a decoder with the settings of `earlier` that has read some more of the same input.
    pub open spec fn follows(self, earlier: Self) -> bool {
        &&& self.input.follows(earlier.input)
        &&& self.with_goodbye_tables == earlier.with_goodbye_tables
        &&& self.eof_after_entry == earlier.eof_after_entry
    }
}

pub broadcast proof fn lemma_decoder_follows(a: DecoderView, b: DecoderView, c: DecoderView)
    requires
        #[trigger] b.follows(a),
        #[trigger] c.follows(b),
    ensures
        c.follows(a),
{
    broadcast use lemma_follows;

}

/// A header before any has been read.
pub open spec fn no_header() -> Header {
    Header { htype: 0, full_size: 0 }
}

/// The decoder at the start of an archive.
pub open spec fn initial_decoder(
    input: InputView,
    path: Seq<u8>,
    eof_after_entry: bool,
) -> DecoderView {
    DecoderView {
        input,
        header: no_header(),
        entry: EntryView {
            path,
            metadata: MetadataView::empty(),
            kind: KindView::GoodbyeTable,
        },
        path_lengths: Seq::empty(),
        state: State::Begin,
        with_goodbye_tables: false,
        eof_after_entry,
    }
}

/// The kind of an entry that ends without an item that tells.
pub open spec fn kind_of_type(file_type: u64) -> KindView {
    if file_type == mode::IFIFO {
        KindView::Fifo
    } else if file_type == mode::IFSOCK {
        KindView::Socket
    } else {
        KindView::Directory
    }
}

impl DecoderView {
    /// Where the header of the current item is still needed, it is one to go on with.
    pub open spec fn well_formed(self) -> bool {
        match self.state {
            State::InPayload { offset } => HEADER_SIZE + offset <= self.header.full_size,
            State::InGoodbyeTable | State::InDirectory | State::InSpecialFile => header_error(
                self.header,
            ) is None,
            _ => true,
        }
    }

    /// The number of content bytes of the current item.
    pub open spec fn content_size(self) -> nat {
        (self.header.full_size - HEADER_SIZE) as nat
    }

    pub open spec fn with_metadata(self, metadata: MetadataView) -> Self {
        DecoderView { entry: EntryView { metadata, ..self.entry }, ..self }
    }

    pub open spec fn with_acl(self, acl: AclView) -> Self {
        self.with_metadata(MetadataView { acl, ..self.entry.metadata })
    }

    pub open spec fn with_kind(self, kind: KindView) -> Self {
        DecoderView { entry: EntryView { kind, ..self.entry }, ..self }
    }

    pub open spec fn with_state(self, state: State) -> Self {
        DecoderView { state, ..self }
    }

    /// Read the content of the current item.
    pub open spec fn take_content(self) -> Result<(Seq<u8>, Self), Error> {
        match self.input.take_exact(self.content_size()) {
            Ok((data, input)) => Ok((data, DecoderView { input, ..self })),
            Err(e) => Err(e),
        }
    }

    /// Skip the content of the current item from `offset` on.
    pub open spec fn skip_content(self, offset: u64) -> Result<Self, Error> {
        match self.input.take_exact((self.content_size() - offset) as nat) {
            Ok((_, input)) => Ok(DecoderView { input, ..self }),
            Err(e) => Err(e),
        }
    }

    /// Read the content of the current item, which must be of a given size.
    pub open spec fn take_simple(self, what: ItemName, size: nat) -> Result<(Seq<u8>, Self), Error> {
        if self.content_size() != size {
            Err(
                Error::BadSize {
                    what,
                    size: self.content_size() as u64,
                    expected: size as u64,
                },
            )
        } else {
            self.take_content()
        }
    }

    /// Why the current item is not of a given size, if so.
    pub open spec fn size_error(self, what: ItemName, size: nat) -> Option<Error> {
        if self.content_size() != size {
            Some(
                Error::BadSize {
                    what,
                    size: self.content_size() as u64,
                    expected: size as u64,
                },
            )
        } else {
            None
        }
    }

    /// Why the current item is refused, where none of its content is read on that account.
    pub open spec fn item_refusal(self) -> Option<Error> {
        let htype = self.header.htype;
        let metadata = self.entry.metadata;
        if htype == PXAR_ACL_USER || htype == PXAR_ACL_DEFAULT_USER {
            self.size_error(ItemName::AclUser, acl::User::wire_size())
        } else if htype == PXAR_ACL_GROUP || htype == PXAR_ACL_DEFAULT_GROUP {
            self.size_error(ItemName::AclGroup, acl::Group::wire_size())
        } else if htype == PXAR_ACL_GROUP_OBJ {
            if metadata.acl.group_obj is Some {
                Some(Error::MultipleAclGroupObjects)
            } else {
                self.size_error(ItemName::AclGroupObject, acl::GroupObject::wire_size())
            }
        } else if htype == PXAR_ACL_DEFAULT {
            if metadata.acl.default is Some {
                Some(Error::MultipleAclDefaults)
            } else {
                self.size_error(ItemName::AclDefault, acl::Default::wire_size())
            }
        } else if htype == PXAR_FCAPS {
            if metadata.fcaps is Some {
                Some(Error::MultipleFCaps)
            } else {
                None
            }
        } else if htype == PXAR_QUOTA_PROJID {
            if metadata.quota_project_id is Some {
                Some(Error::MultipleQuotaProjectIds)
            } else {
                self.size_error(ItemName::QuotaProjectId, QuotaProjectId::wire_size())
            }
        } else if htype == PXAR_DEVICE {
            self.size_error(ItemName::Device, Device::wire_size())
        } else if htype == PXAR_HARDLINK {
            Some(Error::UnexpectedHardlink)
        } else if htype == PXAR_XATTR || htype == PXAR_SYMLINK || htype == PXAR_PAYLOAD || htype
            == PXAR_FILENAME || htype == PXAR_GOODBYE {
            None
        } else {
            Some(Error::UnexpectedEntryType { htype })
        }
    }

    /// Read an extended attribute.
    pub open spec fn xattr_item(self) -> Result<Self, Error> {
        match self.take_content() {
            Ok((data, d)) => match xattr_of(data) {
                Some(x) => Ok(
                    d.with_metadata(
                        MetadataView {
                            xattrs: d.entry.metadata.xattrs.push(x),
                            ..d.entry.metadata
                        },
                    ),
                ),
                None => Err(Error::MissingXAttrSeparator),
            },
            Err(e) => Err(e),
        }
    }

    /// Read an ACL item.
    pub open spec fn acl_item(self) -> Result<Self, Error> {
        let htype = self.header.htype;
        let acl = self.entry.metadata.acl;
        if htype == PXAR_ACL_USER || htype == PXAR_ACL_DEFAULT_USER {
            match self.take_simple(ItemName::AclUser, acl::User::wire_size()) {
                Ok((data, d)) => {
                    let user = acl::User::from_wire(data);
                    if htype == PXAR_ACL_USER {
                        Ok(d.with_acl(AclView { users: acl.users.push(user), ..acl }))
                    } else {
                        Ok(
                            d.with_acl(
                                AclView { default_users: acl.default_users.push(user), ..acl },
                            ),
                        )
                    }
                },
                Err(e) => Err(e),
            }
        } else if htype == PXAR_ACL_GROUP || htype == PXAR_ACL_DEFAULT_GROUP {
            match self.take_simple(ItemName::AclGroup, acl::Group::wire_size()) {
                Ok((data, d)) => {
                    let group = acl::Group::from_wire(data);
                    if htype == PXAR_ACL_GROUP {
                        Ok(d.with_acl(AclView { groups: acl.groups.push(group), ..acl }))
                    } else {
                        Ok(
                            d.with_acl(
                                AclView { default_groups: acl.default_groups.push(group), ..acl },
                            ),
                        )
                    }
                },
                Err(e) => Err(e),
            }
        } else if htype == PXAR_ACL_GROUP_OBJ {
            if acl.group_obj is Some {
                Err(Error::MultipleAclGroupObjects)
            } else {
                match self.take_simple(ItemName::AclGroupObject, acl::GroupObject::wire_size()) {
                    Ok((data, d)) => Ok(
                        d.with_acl(
                            AclView { group_obj: Some(acl::GroupObject::from_wire(data)), ..acl },
                        ),
                    ),
                    Err(e) => Err(e),
                }
            }
        } else {
            if acl.default is Some {
                Err(Error::MultipleAclDefaults)
            } else {
                match self.take_simple(ItemName::AclDefault, acl::Default::wire_size()) {
                    Ok((data, d)) => Ok(
                        d.with_acl(AclView { default: Some(acl::Default::from_wire(data)), ..acl }),
                    ),
                    Err(e) => Err(e),
                }
            }
        }
    }

    /// Read file capabilities.
    pub open spec fn fcaps_item(self) -> Result<Self, Error> {
        if self.entry.metadata.fcaps is Some {
            Err(Error::MultipleFCaps)
        } else {
            match self.take_content() {
                Ok((data, d)) => Ok(
                    d.with_metadata(MetadataView { fcaps: Some(data), ..d.entry.metadata }),
                ),
                Err(e) => Err(e),
            }
        }
    }

    /// Read a quota project id.
    pub open spec fn quota_item(self) -> Result<Self, Error> {
        if self.entry.metadata.quota_project_id is Some {
            Err(Error::MultipleQuotaProjectIds)
        } else {
            match self.take_simple(ItemName::QuotaProjectId, QuotaProjectId::wire_size()) {
                Ok((data, d)) => Ok(
                    d.with_metadata(
                        MetadataView {
                            quota_project_id: Some(QuotaProjectId::from_wire(data)),
                            ..d.entry.metadata
                        },
                    ),
                ),
                Err(e) => Err(e),
            }
        }
    }

    /// Read an attribute: an item that adds to the metadata of the entry.
    pub open spec fn attribute_item(self) -> Result<Self, Error> {
        let htype = self.header.htype;
        if htype == PXAR_XATTR {
            self.xattr_item()
        } else if htype == PXAR_FCAPS {
            self.fcaps_item()
        } else if htype == PXAR_QUOTA_PROJID {
            self.quota_item()
        } else {
            self.acl_item()
        }
    }

    /// Read the item that makes an entry a symbolic link.
    pub open spec fn symlink_item(self) -> Result<Self, Error> {
        match self.take_content() {
            Ok((data, d)) => Ok(d.with_kind(KindView::Symlink(data))),
            Err(e) => Err(e),
        }
    }

    /// Read the item that makes an entry a device node.
    pub open spec fn device_item(self) -> Result<Self, Error> {
        match self.take_simple(ItemName::Device, Device::wire_size()) {
            Ok((data, d)) => Ok(d.with_kind(KindView::Device(Device::from_wire(data)))),
            Err(e) => Err(e),
        }
    }

    /// Stop in front of the contents of a regular file.
    pub open spec fn payload_item(self) -> Self {
        self.with_kind(
            KindView::File {
                size: self.content_size() as u64,
                position: match self.input.offset {
                    Some(at) => Some(at as u64),
                    None => None,
                },
            },
        ).with_state(State::InPayload { offset: 0 })
    }

    /// Stop in front of the next file name or the end of the directory: the entry had no item that
    /// tells its kind.
    pub open spec fn boundary_item(self) -> Self {
        let kind = kind_of_type(self.entry.metadata.file_type());
        self.with_kind(kind).with_state(
            if kind is Directory {
                State::InDirectory
            } else {
                State::InSpecialFile
            },
        )
    }

    /// Read the current item, whose header is already loaded.
    pub open spec fn current_item(self) -> Result<(Self, ItemResult), Error> {
        let htype = self.header.htype;
        if is_attribute(htype) {
            match self.attribute_item() {
                Ok(d) => Ok((d, ItemResult::Attribute)),
                Err(e) => Err(e),
            }
        } else if htype == PXAR_SYMLINK {
            match self.symlink_item() {
                Ok(d) => Ok((d, ItemResult::Entry)),
                Err(e) => Err(e),
            }
        } else if htype == PXAR_HARDLINK {
            Err(Error::UnexpectedHardlink)
        } else if htype == PXAR_DEVICE {
            match self.device_item() {
                Ok(d) => Ok((d, ItemResult::Entry)),
                Err(e) => Err(e),
            }
        } else if htype == PXAR_PAYLOAD {
            Ok((self.payload_item(), ItemResult::Entry))
        } else if htype == PXAR_FILENAME || htype == PXAR_GOODBYE {
            Ok((self.boundary_item(), ItemResult::Entry))
        } else {
            Err(Error::UnexpectedEntryType { htype })
        }
    }

    /// Read the next header, unless the input ends here.
    pub open spec fn next_header_or_eof(self) -> Result<Option<Self>, Error> {
        match self.input.take_exact_or_eof(Header::wire_size()) {
            Ok(Some((data, input))) => {
                let header = Header::from_wire(data);
                match header_error(header) {
                    None => Ok(Some(DecoderView { input, header, ..self })),
                    Some(e) => Err(e),
                }
            },
            Ok(None) => Ok(None),
            Err(e) => Err(e),
        }
    }

    /// Read the next item, unless the input ends here.
    pub open spec fn next_item_or_eof(self) -> Result<Option<(Self, ItemResult)>, Error> {
        match self.next_header_or_eof() {
            Ok(Some(d)) => match d.current_item() {
                Ok(r) => Ok(Some(r)),
                Err(e) => Err(e),
            },
            Ok(None) => Ok(None),
            Err(e) => Err(e),
        }
    }

    /// Read the next item.
    pub open spec fn next_item(self) -> Result<(Self, ItemResult), Error> {
        match self.next_item_or_eof() {
            Ok(Some(r)) => Ok(r),
            Ok(None) => Err(Error::UnexpectedEof),
            Err(e) => Err(e),
        }
    }

    /// Read items up to and including the one that ends the entry.
    pub open spec fn rest_of_entry(self) -> Result<Self, Error>
        decreases self.input.unread.len(),
    {
        proof {
            lemma_next_item(self);
        }
        match self.next_item_or_eof() {
            Ok(Some((d, ItemResult::Entry))) => Ok(d),
            Ok(Some((d, ItemResult::Attribute))) => d.rest_of_entry(),
            Ok(None) => if self.eof_after_entry {
                // Single FIFOs and sockets (as received from the Accessor) won't reach a
                // FILENAME/GOODBYE entry:
                Ok(self.with_kind(kind_of_type(self.entry.metadata.file_type())))
            } else {
                Err(Error::EofInEntry)
            },
            Err(e) => Err(e),
        }
    }

    /// The outcome of `rest_of_entry`, for proofs that have no need to look inside.
    #[verifier::opaque]
    pub open spec fn finish_entry(self) -> Result<Self, Error> {
        self.rest_of_entry()
    }

    /// Read the body of a hardlink, whose header is already loaded.
    pub open spec fn hardlink_item(self) -> Result<Self, Error> {
        if self.content_size() <= 8 {
            Err(Error::HardlinkTooSmall)
        } else {
            match self.take_content() {
                Ok((data, d)) => Ok(
                    d.with_kind(
                        KindView::Hardlink {
                            offset: u64::from_wire(data.take(8)),
                            data: data.skip(8),
                        },
                    ),
                ),
                Err(e) => Err(e),
            }
        }
    }

    /// Read the stat data of an entry, which come in one of two versions.
    pub open spec fn stat_item(self, htype: u64) -> Result<Self, Error> {
        let size = if htype == PXAR_ENTRY {
            Stat::wire_size()
        } else {
            Stat_V1::wire_size()
        };
        match self.input.take_exact(size) {
            Ok((data, input)) => {
                let stat = if htype == PXAR_ENTRY {
                    Stat::from_wire(data)
                } else {
                    Stat_V1::from_wire(data).upgraded()
                };
                Ok(
                    DecoderView { input, header: no_header(), ..self }.with_metadata(
                        MetadataView::from_stat(stat),
                    ),
                )
            },
            Err(e) => Err(e),
        }
    }

    /// Hand out the entry that has been put together. A directory is entered.
    pub open spec fn handed_out(self) -> (Self, EntryView) {
        let path_lengths = if self.entry.kind is Directory {
            self.path_lengths.push(self.entry.path.len())
        } else {
            self.path_lengths
        };
        (DecoderView { path_lengths, entry: self.entry.cleared(), ..self }, self.entry)
    }

    /// Forget the last entry, but for its path, and expect another one.
    pub open spec fn restarted(self) -> Self {
        DecoderView { state: State::Default, entry: self.entry.cleared(), ..self }
    }

    /// Read an entry, unless the input ends here.
    pub open spec fn next_entry_or_eof(self) -> Result<Option<(Self, EntryView)>, Error> {
        match self.restarted().next_header_or_eof() {
            Err(e) => Err(e),
            Ok(None) => Ok(None),
            Ok(Some(d)) => if d.header.htype == PXAR_HARDLINK {
                // The only "dangling" header without an 'Entry' in front of it because it does
                // not carry its own metadata.
                match d.hardlink_item() {
                    Ok(d) => Ok(Some(d.handed_out())),
                    Err(e) => Err(e),
                }
            } else if d.header.htype == PXAR_ENTRY || d.header.htype
                == PXAR_ENTRY_V1 {
                match d.stat_item(d.header.htype) {
                    Ok(d) => match d.rest_of_entry() {
                        Ok(d) => Ok(Some(d.handed_out())),
                        Err(e) => Err(e),
                    },
                    Err(e) => Err(e),
                }
            } else {
                Err(Error::ExpectedEntry { htype: d.header.htype })
            },
        }
    }

    /// Read an entry.
    pub open spec fn next_entry(self) -> Result<(Self, EntryView), Error> {
        match self.next_entry_or_eof() {
            Ok(Some(r)) => Ok(r),
            Ok(None) => Err(Error::UnexpectedEof),
            Err(e) => Err(e),
        }
    }

    /// The path of the directory that we are in, followed by `name`.
    pub open spec fn path_in_directory(self, name: Seq<u8>) -> Seq<u8>
        recommends
            self.path_lengths.len() > 0,
    {
        let len = self.path_lengths.last();
        joined(
            if len < self.entry.path.len() {
                self.entry.path.take(len as int)
            } else {
                self.entry.path
            },
            name,
        )
    }

    /// Read a file name, whose header is already loaded, and the entry that follows.
    pub open spec fn file_entry(self) -> Result<(Self, EntryView), Error> {
        match self.take_content() {
            Err(e) => Err(e),
            Ok((data, d)) => if data.len() == 0 || data.last() != 0 {
                // filenames are zero terminated!
                Err(Error::MissingTerminatingZero)
            } else {
                match filename_error(data.drop_last()) {
                    Some(e) => Err(e),
                    None => if d.path_lengths.len() == 0 {
                        Err(Error::PathUnderrun)
                    } else {
                        let path = d.path_in_directory(data.drop_last());
                        DecoderView { entry: EntryView { path, ..d.entry }, ..d }.next_entry()
                    },
                }
            },
        }
    }

    /// Act on the item that ended an entry or that starts the next one.
    pub open spec fn at_boundary(self) -> Result<(Self, StepView), Error> {
        if self.header.htype == PXAR_FILENAME {
            match self.file_entry() {
                Ok((d, entry)) => Ok((d, StepView::Report(Some(entry)))),
                Err(e) => Err(e),
            }
        } else if self.header.htype == PXAR_GOODBYE {
            let d = self.with_state(State::InGoodbyeTable);
            if self.with_goodbye_tables {
                Ok(
                    (
                        DecoderView { entry: d.entry.cleared(), ..d },
                        StepView::Report(
                            Some(
                                EntryView {
                                    path: Seq::empty(),
                                    metadata: MetadataView::empty(),
                                    kind: KindView::GoodbyeTable,
                                },
                            ),
                        ),
                    ),
                )
            } else {
                Ok((d, StepView::Continue))
            }
        } else {
            Err(Error::ExpectedFilenameOrGoodbye { htype: self.header.htype })
        }
    }

    /// Leave a directory, after its goodbye table.
    pub open spec fn leave_directory(self) -> Result<(Self, StepView), Error> {
        if self.path_lengths.len() == 0 {
            Err(Error::EofInGoodbyeTable)
        } else {
            let d = DecoderView { path_lengths: self.path_lengths.drop_last(), ..self };
            if d.path_lengths.len() == 0 {
                // we are at the end of the archive now
                Ok((d.with_state(State::Eof), StepView::Report(None)))
            } else {
                // We left the directory, now keep going in our parent.
                Ok((d.with_state(State::Default), StepView::Continue))
            }
        }
    }

    /// One step.
    pub open spec fn step(self) -> Result<(Self, StepView), Error> {
        match self.state {
            State::Eof => Ok((self, StepView::Report(None))),
            State::Begin => match self.next_entry() {
                Ok((d, entry)) => Ok((d, StepView::Report(Some(entry)))),
                Err(e) => Err(e),
            },
            State::Default => match self.next_item() {
                // we completely finished an entry, so now we're going "up" in the directory
                // hierarchy and parse the next PXAR_FILENAME or the PXAR_GOODBYE:
                Ok((d, _)) => d.at_boundary(),
                Err(e) => Err(e),
            },
            State::InPayload { offset } => match self.skip_content(offset) {
                // We need to skip the current payload first.
                Ok(d) => match d.next_item() {
                    Ok((d, _)) => d.at_boundary(),
                    Err(e) => Err(e),
                },
                Err(e) => Err(e),
            },
            State::InGoodbyeTable => match self.skip_content(0) {
                Ok(d) => d.leave_directory(),
                Err(e) => Err(e),
            },
            State::InSpecialFile => DecoderView {
                entry: self.entry.cleared(),
                ..self
            }.with_kind(KindView::Directory).with_state(State::InDirectory).at_boundary(),
            // We're at the next FILENAME or GOODBYE item.
            State::InDirectory => self.at_boundary(),
        }
    }

    /// What is reported next is known without reading any more.
    pub open spec fn needs_no_input(self) -> bool {
        match self.state {
            State::Eof => true,
            State::InDirectory | State::InSpecialFile => {
                &&& self.header.htype != PXAR_FILENAME
                &&& self.header.htype == PXAR_GOODBYE ==> self.with_goodbye_tables
            },
            _ => false,
        }
    }

    /// Where a step begins to read.
    pub open spec fn started(self) -> Self {
        match self.state {
            State::Begin => self.restarted(),
            State::InSpecialFile => DecoderView {
                entry: self.entry.cleared(),
                ..self
            }.with_kind(KindView::Directory).with_state(State::InDirectory),
            _ => self,
        }
    }

    /// The input is read up to some bytes further on, or to its end.
    pub open spec fn passed(self, n: nat) -> Self {
        DecoderView { input: self.input.passed(n), ..self }
    }

    /// What is left when no good header follows: what was read of it has taken the place of the
    /// bytes of the last one.
    pub open spec fn header_refused(self) -> Self {
        let got = if self.input.unread.len() < HEADER_SIZE {
            self.input.unread
        } else {
            self.input.unread.take(HEADER_SIZE as int)
        };
        DecoderView {
            header: Header::from_wire(got + self.header.wire().skip(got.len() as int)),
            ..self.passed(HEADER_SIZE as nat)
        }
    }

    /// What is left when the current item is refused, before or after its content has been read.
    pub open spec fn item_refused(self) -> Self {
        if self.item_refusal() is Some {
            self
        } else {
            self.passed(self.content_size())
        }
    }

    /// What is left when the next item is refused.
    pub open spec fn next_item_refused(self) -> Self {
        match self.next_header_or_eof() {
            Ok(Some(d)) => d.item_refused(),
            Ok(None) => self,
            Err(_) => self.header_refused(),
        }
    }

    /// What is left when one of the items of an entry is refused, or the entry does not end.
    pub open spec fn rest_refused(self) -> Self
        decreases self.input.unread.len(),
    {
        proof {
            lemma_next_item(self);
        }
        match self.next_item_or_eof() {
            Ok(Some((d, ItemResult::Attribute))) => d.rest_refused(),
            _ => self.next_item_refused(),
        }
    }

    /// What is left when a hardlink is refused.
    pub open spec fn hardlink_refused(self) -> Self {
        if self.content_size() <= 8 {
            self
        } else {
            self.passed(self.content_size())
        }
    }

    /// What is left when an entry is refused. Its own header is kept only with a hardlink.
    pub open spec fn entry_refused(self) -> Self {
        let this = self.restarted();
        match this.next_header_or_eof() {
            Ok(None) => this,
            Err(_) => this.passed(HEADER_SIZE as nat),
            Ok(Some(d)) => if d.header.htype == PXAR_HARDLINK {
                d.hardlink_refused()
            } else if d.header.htype == PXAR_ENTRY || d.header.htype == PXAR_ENTRY_V1 {
                match d.stat_item(d.header.htype) {
                    Ok(s) => s.rest_refused(),
                    Err(_) => this.passed(this.input.unread.len()),
                }
            } else {
                this.passed(HEADER_SIZE as nat)
            },
        }
    }

    /// What is left when a file name, or the entry that follows, is refused.
    pub open spec fn file_refused(self) -> Self {
        match self.take_content() {
            Err(_) => self.passed(self.content_size()),
            Ok((data, d)) => if data.len() == 0 || data.last() != 0 || filename_error(
                data.drop_last(),
            ) is Some || d.path_lengths.len() == 0 {
                d
            } else {
                let path = d.path_in_directory(data.drop_last());
                DecoderView { entry: EntryView { path, ..d.entry }, ..d }.entry_refused()
            },
        }
    }

    /// What is left when the item that ended an entry, or that starts the next one, is refused.
    pub open spec fn boundary_refused(self) -> Self {
        if self.header.htype == PXAR_FILENAME {
            self.file_refused()
        } else {
            self
        }
    }

    /// What is left when the items that should come next are refused.
    pub open spec fn next_boundary_refused(self) -> Self {
        match self.next_item() {
            Ok((d, _)) => d.boundary_refused(),
            Err(_) => self.next_item_refused(),
        }
    }

    /// What is left when a step is refused.
    pub open spec fn step_refused(self) -> Self {
        match self.state {
            State::Eof => self,
            State::Begin => self.entry_refused(),
            State::Default => self.next_boundary_refused(),
            State::InPayload { offset } => match self.skip_content(offset) {
                Ok(d) => d.next_boundary_refused(),
                Err(_) => self.passed((self.content_size() - offset) as nat),
            },
            State::InGoodbyeTable => self.passed(self.content_size()),
            State::InSpecialFile | State::InDirectory => self.started().boundary_refused(),
        }
    }

    /// What is left when the archive is refused in place of the next entry.
    pub open spec fn refused(self) -> Self {
        self.waiting().step_refused()
    }

    /// Bounds the number of steps without a report.
    pub open spec fn measure(self) -> nat {
        2 * self.path_lengths.len() + if self.state is InGoodbyeTable {
            0nat
        } else {
            1nat
        }
    }

    /// The next entry, recursing into directories, or `None` at the end of the archive.
    pub open spec fn next(self) -> Result<(Self, Option<EntryView>), Error>
        decreases self.measure(),
    {
        proof {
            lemma_step_measure(self);
        }
        match self.step() {
            Ok((d, StepView::Report(r))) => Ok((d, r)),
            Ok((d, StepView::Continue)) => d.next(),
            Err(e) => Err(e),
        }
    }

    /// The decoder in front of the step that reports something or fails.
    pub open spec fn waiting(self) -> Self
        decreases self.measure(),
    {
        proof {
            lemma_step_measure(self);
        }
        match self.step() {
            Ok((d, StepView::Continue)) => d.waiting(),
            _ => self,
        }
    }
}

/// The items that add to the metadata of an entry.
pub open spec fn is_attribute(htype: u64) -> bool {
    ||| htype == PXAR_XATTR
    ||| htype == PXAR_ACL_USER
    ||| htype == PXAR_ACL_GROUP
    ||| htype == PXAR_ACL_GROUP_OBJ
    ||| htype == PXAR_ACL_DEFAULT
    ||| htype == PXAR_ACL_DEFAULT_USER
    ||| htype == PXAR_ACL_DEFAULT_GROUP
    ||| htype == PXAR_FCAPS
    ||| htype == PXAR_QUOTA_PROJID
}

/// Reading an item consumes input and changes nothing but the entry, the header and the state.
pub proof fn lemma_next_item(d: DecoderView)
    ensures
        d.next_item_or_eof() matches Ok(Some((e, _))) ==> {
            &&& e.input.unread.len() < d.input.unread.len()
            &&& e.path_lengths == d.path_lengths
            &&& e.entry.path == d.entry.path
            &&& e.eof_after_entry == d.eof_after_entry
            &&& e.with_goodbye_tables == d.with_goodbye_tables
        },
{
}

/// A step without a report brings the decoder closer to the end.
pub proof fn lemma_step_measure(d: DecoderView)
    ensures
        d.step() matches Ok((e, StepView::Continue)) ==> e.measure() < d.measure(),
{
    lemma_next_item(d);
    if let State::InPayload { offset } = d.state {
        if let Ok(s) = d.skip_content(offset) {
            lemma_next_item(s.with_state(State::Default));
        }
    }
}

} // verus!
