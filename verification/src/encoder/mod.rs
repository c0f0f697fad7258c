//! The `pxar` encoder state machine.

use vstd::prelude::*;

use crate::decoder::read::{seq_read, SeqRead};
use crate::encoder::model::{
    acl_items, attribute_items, filename_item, lemma_put_first, lemma_put_nothing, lemma_put_parts,
    lemma_with_contents, metadata_items, new_encoder, optional_item, optional_wire, payload_tail,
    preamble_items, struct_items, symlink_item, xattr_items, EncoderView, OpenFile, StateView,
};
use crate::encoder::state::{state_views, EncoderState};
use crate::encoder::write::{
    cursor, flush, header_of, lemma_put_items, lemma_starts_with, seq_write, seq_write_all,
    seq_write_pxar_entry, seq_write_struct, Cursor, ItemView,
};
use crate::errors::Error;
use crate::format::acl;
use crate::format::goodbye::GOODBYE_ITEM_SIZE;
use crate::format::mode;
use crate::format::wire::{le64, Wire};
use crate::format::{
    hash_filename, Device, FCaps, FormatVersion, GoodbyeItem, Header, PayloadRef, QuotaProjectId,
    XAttr, HEADER_SIZE, PXAR_ACL_DEFAULT, PXAR_ACL_DEFAULT_GROUP, PXAR_ACL_DEFAULT_USER,
    PXAR_ACL_GROUP, PXAR_ACL_GROUP_OBJ, PXAR_ACL_USER, PXAR_DEVICE, PXAR_ENTRY, PXAR_FCAPS,
    PXAR_FILENAME, PXAR_FORMAT_VERSION, PXAR_GOODBYE, PXAR_HARDLINK, PXAR_PAYLOAD, PXAR_PAYLOAD_REF,
    PXAR_PAYLOAD_START_MARKER, PXAR_PAYLOAD_TAIL_MARKER, PXAR_PRELUDE, PXAR_QUOTA_PROJID,
    PXAR_SYMLINK, PXAR_XATTR,
};
use crate::goodbye_table::{make_goodbye_content};
use crate::metadata::{xattr_views, Acl, Metadata, MetadataView};
use crate::util;
use crate::variant::PxarVariant;

pub mod model;
pub mod state;
pub mod sync;
pub mod write;

pub use crate::encoder::model::EncodeError;
pub use crate::encoder::sync::Encoder;
pub use crate::encoder::write::SeqWrite;

verus! {

broadcast use lemma_starts_with;

/// The size of the buffer through which file contents are copied.
const COPY_BUFFER_SIZE: usize = 1024 * 1024;

/// File reference used to create hard links.
#[derive(Clone, Copy, Debug, PartialEq, Eq, PartialOrd, Ord, Structural)]
pub struct LinkOffset(pub u64);

impl LinkOffset {
    /// Get the raw byte offset of this link.
    pub fn raw(self) -> (r: u64)
        ensures
            r == self.0,
    {
        self.0
    }
}

/// File reference used to create payload references.
#[derive(Clone, Copy, Debug, PartialEq, Eq, PartialOrd, Ord, Structural)]
pub struct PayloadOffset(pub u64);

impl std::default::Default for PayloadOffset {
    fn default() -> (r: Self)
        ensures
            r.0 == 0,
    {
        PayloadOffset(0)
    }
}

impl PayloadOffset {
    /// Get the raw byte offset of this link.
    pub fn raw(self) -> (r: u64)
        ensures
            r == self.0,
    {
        self.0
    }

    /// Return a new PayloadOffset, positively shifted by offset
    pub fn add(&self, offset: u64) -> (r: Self)
        requires
            self.0 + offset <= u64::MAX,
        ensures
            r.0 == self.0 + offset,
    {
        PayloadOffset(self.0 + offset)
    }
}

/// The encoder state machine implementation for a directory.
pub struct EncoderImpl<T: SeqWrite> {
    pub output: PxarVariant<T, T>,
    /// EncoderState stack storing the state for each directory level
    pub state: Vec<EncoderState>,
    /// The file whose contents are being written. It is listed in its directory, and found
    /// incomplete where it is, when the encoder is next used.
    pub open: Option<OpenFile>,
    pub finished: bool,
    /// Since only the "current" entry can be actively writing files, we share the file copy
    /// buffer.
    pub file_copy_buffer: Vec<u8>,
    /// Pxar format version to encode
    pub version: FormatVersion,
}

impl<T: SeqWrite> EncoderImpl<T> {
    pub open spec fn view(&self) -> EncoderView {
        EncoderView {
            archive: self.output.archive_stream().written(),
            payload: match self.output.payload_stream() {
                Some(p) => Some(p.written()),
                None => None,
            },
            states: state_views(self.state@),
            open: self.open,
            finished: self.finished,
            version: self.version,
        }
    }

    /// Writing to the outputs never fails.
    pub open spec fn infallible(&self) -> bool {
        self.output.archive_stream().infallible() && match self.output.payload_stream() {
            Some(p) => p.infallible(),
            None => true,
        }
    }

    pub open spec fn well_formed(&self) -> bool {
        self@.well_formed()
    }

    fn check(&self) -> (r: Result<(), Error>)
        ensures
            match r {
                Ok(()) => self@.check_error() is None,
                Err(e) => self@.check_error() == Some(e),
            },
    {
        if self.finished {
            return Err(Error::EncoderFinished);
        }
        let state = match self.state() {
            Ok(state) => state,
            Err(e) => {
                return Err(e);
            },
        };
        match state.encode_error {
            Some(EncodeError::IncompleteFile) => Err(Error::IncompleteFile),
            Some(EncodeError::IncompleteDirectory) => Err(Error::IncompleteDirectory),
            None => Ok(()),
        }
    }

    fn state(&self) -> (r: Result<&EncoderState, Error>)
        ensures
            match r {
                Ok(state) => self@.states.len() > 0 && state@ == self@.last(),
                Err(e) => e == Error::StateUnderflow && self@.states.len() == 0,
            },
    {
        let len: usize = self.state.len();
        if len == 0 {
            return Err(Error::StateUnderflow);
        }
        Ok(&self.state[len - 1])
    }

    /// Take leave of the file that was written last.
    fn settle(&mut self)
        requires
            old(self).well_formed(),
        ensures
            final(self).well_formed(),
            final(self).output == old(self).output,
            final(self)@ == old(self)@.settled(),
            final(self)@.open is None,
            final(self)@.states.len() == old(self)@.states.len(),
    {
        match self.open {
            Some(file) => {
                let ghost before = self@;
                self.open = None;
                match self.state.pop() {
                    Some(mut state) => {
                        if file.remaining_size != 0 {
                            state.add_error(EncodeError::IncompleteFile);
                        }
                        state.items.push(file.goodbye_item);
                        self.state.push(state);
                        proof {
                            assert(self@.states =~= before.states.drop_last().push(state@));
                            assert(self@.states.drop_last() =~= before.states.drop_last());
                            assert(self@ =~= before.settled());
                            assert(self@.well_formed());
                        }
                    },
                    None => {},
                }
            },
            None => {},
        }
    }

    /// Write an item to the archive.
    fn put_item(&mut self, htype: u64, data: &[u8]) -> (r: Result<(), Error>)
        requires
            old(self).well_formed(),
            old(self).open is None,
        ensures
            final(self).well_formed(),
            final(self).open is None,
            final(self).infallible() == old(self).infallible(),
            final(self)@.states.len() == old(self)@.states.len(),
            final(self)@.same_directories(old(self)@),
            !(r matches Err(Error::Io(_))) ==> final(self)@.extends(old(self)@),
            old(self)@.put_item((ItemView { htype, content: data@ })) matches Err(e) ==> r == Err::<
                (),
                Error,
            >(e) && final(self)@ == old(self)@,
            match r {
                Ok(()) => old(self)@.put_item((ItemView { htype, content: data@ })) == Ok::<
                    _,
                    Error,
                >(final(self)@),
                Err(Error::Io(_)) => !old(self).infallible(),
                Err(e) => old(self)@.put_item((ItemView { htype, content: data@ })) == Err::<
                    EncoderView,
                    Error,
                >(e),
            },
    {
        let ghost before = self@;
        let mut state = match self.state.pop() {
            Some(state) => state,
            None => {
                return Err(Error::StateUnderflow);
            },
        };
        let r = seq_write_pxar_entry(
            self.output.archive_mut(),
            htype,
            data,
            &mut state.write_position,
        );
        self.state.push(state);
        proof {
            assert(self@.states =~= before.states.drop_last().push(state@));
            assert(self@.states.drop_last() =~= before.states.drop_last());
            if let Ok(()) = r {
                assert(self@ =~= before.at(
                    Cursor { bytes: self@.archive, position: state.write_position },
                ));
            }
            assert(self@.well_formed());
        }
        r
    }

    /// Write a list of fixed-size values, one item each.
    fn write_structs<E: Wire>(&mut self, htype: u64, values: &Vec<E>) -> (r: Result<(), Error>)
        requires
            old(self).well_formed(),
            old(self).open is None,
            old(self)@.states.len() > 0,
        ensures
            final(self).well_formed(),
            final(self).open is None,
            final(self).infallible() == old(self).infallible(),
            final(self)@.states.len() == old(self)@.states.len(),
            final(self)@.same_directories(old(self)@),
            !(r matches Err(Error::Io(_))) ==> final(self)@.extends(old(self)@),
            r matches Err(e) ==> !(e is Io) ==> final(self)@ == old(self)@.items_refused(
                struct_items(htype, values@),
            ),
            match r {
                Ok(()) => old(self)@.put_items(struct_items(htype, values@)) == Ok::<_, Error>(
                    final(self)@,
                ),
                Err(Error::Io(_)) => !old(self).infallible(),
                Err(e) => old(self)@.put_items(struct_items(htype, values@)) == Err::<
                    EncoderView,
                    Error,
                >(e),
            },
    {
        let mut i: usize = 0;
        proof {
            assert(values@.skip(0) =~= values@);
        }
        while i < values.len()
            invariant
                i <= values@.len(),
                self.well_formed(),
                self.open is None,
                self.infallible() == old(self).infallible(),
                self@.states.len() == old(self)@.states.len(),
                self@.same_directories(old(self)@),
                self@.extends(old(self)@),
                self@.states.len() > 0,
                old(self)@.put_items(struct_items(htype, values@)) == self@.put_items(
                    struct_items(htype, values@.skip(i as int)),
                ),
                old(self)@.items_refused(struct_items(htype, values@)) == self@.items_refused(
                    struct_items(htype, values@.skip(i as int)),
                ),
            decreases values@.len() - i,
        {
            let bytes = values[i].to_bytes();
            proof {
                let rest = struct_items(htype, values@.skip(i as int));
                lemma_put_first(self@, rest);
                assert(rest[0] == (ItemView { htype, content: bytes@ }));
                assert(rest.skip(1) =~= struct_items(htype, values@.skip(i + 1)));
            }
            match self.put_item(htype, bytes.as_slice()) {
                Ok(()) => {},
                Err(e) => {
                    return Err(e);
                },
            }
            i = i + 1;
        }
        proof {
            assert(struct_items(htype, values@.skip(i as int)) =~= Seq::<ItemView>::empty());
            lemma_put_nothing(self@);
        }
        Ok(())
    }

    /// Write a fixed-size value, if there is one.
    fn write_optional<E: Wire>(&mut self, htype: u64, value: &Option<E>) -> (r: Result<(), Error>)
        requires
            old(self).well_formed(),
            old(self).open is None,
            old(self)@.states.len() > 0,
        ensures
            final(self).well_formed(),
            final(self).open is None,
            final(self).infallible() == old(self).infallible(),
            final(self)@.states.len() == old(self)@.states.len(),
            final(self)@.same_directories(old(self)@),
            !(r matches Err(Error::Io(_))) ==> final(self)@.extends(old(self)@),
            r matches Err(e) ==> !(e is Io) ==> final(self)@ == old(self)@.items_refused(
                optional_item(htype, optional_wire(*value)),
            ),
            match r {
                Ok(()) => old(self)@.put_items(optional_item(htype, optional_wire(*value))) == Ok::<
                    _,
                    Error,
                >(final(self)@),
                Err(Error::Io(_)) => !old(self).infallible(),
                Err(e) => old(self)@.put_items(optional_item(htype, optional_wire(*value)))
                    == Err::<EncoderView, Error>(e),
            },
    {
        match value {
            Some(value) => {
                let bytes = value.to_bytes();
                proof {
                    let one = seq![ItemView { htype, content: bytes@ }];
                    lemma_put_first(self@, one);
                    assert(one.skip(1) =~= Seq::<ItemView>::empty());
                }
                match self.put_item(htype, bytes.as_slice()) {
                    Ok(()) => {
                        proof {
                            lemma_put_nothing(self@);
                        }
                        Ok(())
                    },
                    Err(e) => Err(e),
                }
            },
            None => {
                proof {
                    lemma_put_nothing(self@);
                }
                Ok(())
            },
        }
    }

    fn write_xattr(&mut self, xattr: &XAttr) -> (r: Result<(), Error>)
        requires
            old(self).well_formed(),
            old(self).open is None,
        ensures
            final(self).well_formed(),
            final(self).open is None,
            final(self).infallible() == old(self).infallible(),
            final(self)@.states.len() == old(self)@.states.len(),
            final(self)@.same_directories(old(self)@),
            !(r matches Err(Error::Io(_))) ==> final(self)@.extends(old(self)@),
            r matches Err(e) ==> !(e is Io) ==> final(self)@ == old(self)@,
            match r {
                Ok(()) => old(self)@.put_item(
                    (ItemView { htype: PXAR_XATTR, content: xattr@.data() }),
                ) == Ok::<_, Error>(final(self)@),
                Err(Error::Io(_)) => !old(self).infallible(),
                Err(e) => old(self)@.put_item(
                    (ItemView { htype: PXAR_XATTR, content: xattr@.data() }),
                ) == Err::<EncoderView, Error>(e),
            },
    {
        self.put_item(PXAR_XATTR, xattr.data())
    }

    fn write_xattrs(&mut self, xattrs: &Vec<XAttr>) -> (r: Result<(), Error>)
        requires
            old(self).well_formed(),
            old(self).open is None,
            old(self)@.states.len() > 0,
        ensures
            final(self).well_formed(),
            final(self).open is None,
            final(self).infallible() == old(self).infallible(),
            final(self)@.states.len() == old(self)@.states.len(),
            final(self)@.same_directories(old(self)@),
            !(r matches Err(Error::Io(_))) ==> final(self)@.extends(old(self)@),
            r matches Err(e) ==> !(e is Io) ==> final(self)@ == old(self)@.items_refused(
                xattr_items(xattr_views(xattrs@)),
            ),
            match r {
                Ok(()) => old(self)@.put_items(xattr_items(xattr_views(xattrs@))) == Ok::<
                    _,
                    Error,
                >(final(self)@),
                Err(Error::Io(_)) => !old(self).infallible(),
                Err(e) => old(self)@.put_items(xattr_items(xattr_views(xattrs@))) == Err::<
                    EncoderView,
                    Error,
                >(e),
            },
    {
        let mut i: usize = 0;
        let ghost views = xattr_views(xattrs@);
        proof {
            assert(views.skip(0) =~= views);
        }
        while i < xattrs.len()
            invariant
                i <= xattrs@.len(),
                views == xattr_views(xattrs@),
                self.well_formed(),
                self.open is None,
                self.infallible() == old(self).infallible(),
                self@.states.len() == old(self)@.states.len(),
                self@.same_directories(old(self)@),
                self@.extends(old(self)@),
                self@.states.len() > 0,
                old(self)@.put_items(xattr_items(views)) == self@.put_items(
                    xattr_items(views.skip(i as int)),
                ),
                old(self)@.items_refused(xattr_items(views)) == self@.items_refused(
                    xattr_items(views.skip(i as int)),
                ),
            decreases xattrs@.len() - i,
        {
            proof {
                let rest = xattr_items(views.skip(i as int));
                lemma_put_first(self@, rest);
                assert(rest[0] == (ItemView {
                    htype: PXAR_XATTR,
                    content: xattrs@[i as int]@.data(),
                }));
                assert(rest.skip(1) =~= xattr_items(views.skip(i + 1)));
            }
            match self.write_xattr(&xattrs[i]) {
                Ok(()) => {},
                Err(e) => {
                    return Err(e);
                },
            }
            i = i + 1;
        }
        proof {
            assert(xattr_items(views.skip(i as int)) =~= Seq::<ItemView>::empty());
            lemma_put_nothing(self@);
        }
        Ok(())
    }

    fn write_acls(&mut self, acl: &Acl) -> (r: Result<(), Error>)
        requires
            old(self).well_formed(),
            old(self).open is None,
            old(self)@.states.len() > 0,
        ensures
            final(self).well_formed(),
            final(self).open is None,
            final(self).infallible() == old(self).infallible(),
            final(self)@.states.len() == old(self)@.states.len(),
            final(self)@.same_directories(old(self)@),
            !(r matches Err(Error::Io(_))) ==> final(self)@.extends(old(self)@),
            r matches Err(e) ==> !(e is Io) ==> final(self)@ == old(self)@.items_refused(
                acl_items(acl@),
            ),
            match r {
                Ok(()) => old(self)@.put_items(acl_items(acl@)) == Ok::<_, Error>(final(self)@),
                Err(Error::Io(_)) => !old(self).infallible(),
                Err(e) => old(self)@.put_items(acl_items(acl@)) == Err::<EncoderView, Error>(e),
            },
    {
        let ghost users = struct_items(PXAR_ACL_USER, acl.users@);
        let ghost groups = struct_items(PXAR_ACL_GROUP, acl.groups@);
        let ghost group_obj = optional_item(PXAR_ACL_GROUP_OBJ, optional_wire(acl.group_obj));
        let ghost default = optional_item(PXAR_ACL_DEFAULT, optional_wire(acl.default));
        let ghost default_users = struct_items(PXAR_ACL_DEFAULT_USER, acl.default_users@);
        let ghost default_groups = struct_items(PXAR_ACL_DEFAULT_GROUP, acl.default_groups@);
        proof {
            lemma_put_parts(
                self@,
                users + groups + group_obj + default + default_users,
                default_groups,
            );
            lemma_put_parts(self@, users + groups + group_obj + default, default_users);
            lemma_put_parts(self@, users + groups + group_obj, default);
            lemma_put_parts(self@, users + groups, group_obj);
            lemma_put_parts(self@, users, groups);
        }
        match self.write_structs(PXAR_ACL_USER, &acl.users) {
            Ok(()) => {},
            Err(e) => {
                return Err(e);
            },
        }
        match self.write_structs(PXAR_ACL_GROUP, &acl.groups) {
            Ok(()) => {},
            Err(e) => {
                return Err(e);
            },
        }
        match self.write_optional(PXAR_ACL_GROUP_OBJ, &acl.group_obj) {
            Ok(()) => {},
            Err(e) => {
                return Err(e);
            },
        }
        match self.write_optional(PXAR_ACL_DEFAULT, &acl.default) {
            Ok(()) => {},
            Err(e) => {
                return Err(e);
            },
        }
        match self.write_structs(PXAR_ACL_DEFAULT_USER, &acl.default_users) {
            Ok(()) => {},
            Err(e) => {
                return Err(e);
            },
        }
        self.write_structs(PXAR_ACL_DEFAULT_GROUP, &acl.default_groups)
    }

    fn write_file_capabilities(&mut self, fcaps: &Option<FCaps>) -> (r: Result<(), Error>)
        requires
            old(self).well_formed(),
            old(self).open is None,
            old(self)@.states.len() > 0,
        ensures
            final(self).well_formed(),
            final(self).open is None,
            final(self).infallible() == old(self).infallible(),
            final(self)@.states.len() == old(self)@.states.len(),
            final(self)@.same_directories(old(self)@),
            !(r matches Err(Error::Io(_))) ==> final(self)@.extends(old(self)@),
            r matches Err(e) ==> !(e is Io) ==> final(self)@ == old(self)@.items_refused(
                optional_item(PXAR_FCAPS, crate::metadata::fcaps_view(*fcaps)),
            ),
            match r {
                Ok(()) => old(self)@.put_items(
                    optional_item(PXAR_FCAPS, crate::metadata::fcaps_view(*fcaps)),
                ) == Ok::<_, Error>(final(self)@),
                Err(Error::Io(_)) => !old(self).infallible(),
                Err(e) => old(self)@.put_items(
                    optional_item(PXAR_FCAPS, crate::metadata::fcaps_view(*fcaps)),
                ) == Err::<EncoderView, Error>(e),
            },
    {
        match fcaps {
            Some(fcaps) => {
                proof {
                    let one = seq![ItemView { htype: PXAR_FCAPS, content: fcaps.data@ }];
                    lemma_put_first(self@, one);
                    assert(one.skip(1) =~= Seq::<ItemView>::empty());
                }
                match self.put_item(PXAR_FCAPS, fcaps.data.as_slice()) {
                    Ok(()) => {
                        proof {
                            lemma_put_nothing(self@);
                        }
                        Ok(())
                    },
                    Err(e) => Err(e),
                }
            },
            None => {
                proof {
                    lemma_put_nothing(self@);
                }
                Ok(())
            },
        }
    }

    fn write_quota_project_id(&mut self, quota_project_id: &Option<QuotaProjectId>) -> (r: Result<
        (),
        Error,
    >)
        requires
            old(self).well_formed(),
            old(self).open is None,
            old(self)@.states.len() > 0,
        ensures
            final(self).well_formed(),
            final(self).open is None,
            final(self).infallible() == old(self).infallible(),
            final(self)@.states.len() == old(self)@.states.len(),
            final(self)@.same_directories(old(self)@),
            !(r matches Err(Error::Io(_))) ==> final(self)@.extends(old(self)@),
            r matches Err(e) ==> !(e is Io) ==> final(self)@ == old(self)@.items_refused(
                optional_item(PXAR_QUOTA_PROJID, optional_wire(*quota_project_id)),
            ),
            match r {
                Ok(()) => old(self)@.put_items(
                    optional_item(PXAR_QUOTA_PROJID, optional_wire(*quota_project_id)),
                ) == Ok::<_, Error>(final(self)@),
                Err(Error::Io(_)) => !old(self).infallible(),
                Err(e) => old(self)@.put_items(
                    optional_item(PXAR_QUOTA_PROJID, optional_wire(*quota_project_id)),
                ) == Err::<EncoderView, Error>(e),
            },
    {
        self.write_optional(PXAR_QUOTA_PROJID, quota_project_id)
    }

    fn encode_metadata(&mut self, metadata: &Metadata) -> (r: Result<(), Error>)
        requires
            old(self).well_formed(),
            old(self).open is None,
        ensures
            final(self).well_formed(),
            final(self).open is None,
            final(self).infallible() == old(self).infallible(),
            final(self)@.states.len() == old(self)@.states.len(),
            final(self)@.same_directories(old(self)@),
            !(r matches Err(Error::Io(_))) ==> final(self)@.extends(old(self)@),
            r matches Err(e) ==> !(e is Io) ==> final(self)@ == old(self)@.items_refused(
                metadata_items(metadata@),
            ),
            match r {
                Ok(()) => old(self)@.put_items(metadata_items(metadata@)) == Ok::<_, Error>(
                    final(self)@,
                ),
                Err(Error::Io(_)) => !old(self).infallible(),
                Err(e) => old(self)@.put_items(metadata_items(metadata@)) == Err::<
                    EncoderView,
                    Error,
                >(e),
            },
    {
        let ghost view = metadata@;
        let ghost xattrs = xattr_items(view.xattrs);
        let ghost acls = acl_items(view.acl);
        let ghost fcaps = optional_item(PXAR_FCAPS, view.fcaps);
        let ghost quota = optional_item(PXAR_QUOTA_PROJID, optional_wire(view.quota_project_id));
        proof {
            lemma_put_first(self@, metadata_items(view));
            assert(metadata_items(view).skip(1) =~= attribute_items(view));
        }
        let stat = metadata.stat.to_bytes();
        match self.put_item(PXAR_ENTRY, stat.as_slice()) {
            Ok(()) => {},
            Err(e) => {
                return Err(e);
            },
        }
        proof {
            lemma_put_parts(self@, xattrs + acls + fcaps, quota);
            lemma_put_parts(self@, xattrs + acls, fcaps);
            lemma_put_parts(self@, xattrs, acls);
        }
        match self.write_xattrs(&metadata.xattrs) {
            Ok(()) => {},
            Err(e) => {
                return Err(e);
            },
        }
        match self.write_acls(&metadata.acl) {
            Ok(()) => {},
            Err(e) => {
                return Err(e);
            },
        }
        match self.write_file_capabilities(&metadata.fcaps) {
            Ok(()) => {},
            Err(e) => {
                return Err(e);
            },
        }
        self.write_quota_project_id(&metadata.quota_project_id)
    }

    fn encode_filename(&mut self, file_name: &[u8]) -> (r: Result<(), Error>)
        requires
            old(self).well_formed(),
            old(self).open is None,
        ensures
            final(self).well_formed(),
            final(self).open is None,
            final(self).infallible() == old(self).infallible(),
            final(self)@.states.len() == old(self)@.states.len(),
            final(self)@.same_directories(old(self)@),
            !(r matches Err(Error::Io(_))) ==> final(self)@.extends(old(self)@),
            old(self)@.put_filename(file_name@) matches Err(e) ==> r == Err::<(), Error>(e)
                && final(self)@ == old(self)@,
            match r {
                Ok(()) => old(self)@.put_filename(file_name@) == Ok::<_, Error>(final(self)@),
                Err(Error::Io(_)) => !old(self).infallible(),
                Err(e) => old(self)@.put_filename(file_name@) == Err::<EncoderView, Error>(e),
            },
    {
        match util::validate_filename(file_name) {
            Ok(()) => {},
            Err(e) => {
                return Err(e);
            },
        }
        let mut content: Vec<u8> = Vec::new();
        util::extend(&mut content, file_name);
        content.push(0);
        proof {
            assert(content@ =~= file_name@.push(0));
        }
        self.put_item(PXAR_FILENAME, content.as_slice())
    }

    fn start_file_do(&mut self, metadata: Option<&Metadata>, file_name: &[u8]) -> (r: Result<
        (),
        Error,
    >)
        requires
            old(self).well_formed(),
            old(self).open is None,
        ensures
            final(self).well_formed(),
            final(self).open is None,
            final(self).infallible() == old(self).infallible(),
            final(self)@.states.len() == old(self)@.states.len(),
            final(self)@.same_directories(old(self)@),
            !(r matches Err(Error::Io(_))) ==> final(self)@.extends(old(self)@),
            r matches Err(e) ==> !(e is Io) ==> final(self)@ == old(self)@.start_refused(
                metadata_view(metadata),
                file_name@,
            ),
            old(self)@.put_filename(file_name@) matches Err(e) ==> r == Err::<(), Error>(e)
                && final(self)@ == old(self)@,
            match r {
                Ok(()) => old(self)@.start_file(metadata_view(metadata), file_name@) == Ok::<
                    _,
                    Error,
                >(final(self)@),
                Err(Error::Io(_)) => !old(self).infallible(),
                Err(e) => old(self)@.start_file(metadata_view(metadata), file_name@) == Err::<
                    EncoderView,
                    Error,
                >(e),
            },
    {
        match self.encode_filename(file_name) {
            Ok(()) => {},
            Err(e) => {
                return Err(e);
            },
        }
        match metadata {
            Some(metadata) => self.encode_metadata(metadata),
            None => Ok(()),
        }
    }

    fn encode_format_version(&mut self) -> (r: Result<(), Error>)
        requires
            old(self).well_formed(),
            old(self).open is None,
            old(self)@.states.len() > 0,
        ensures
            final(self).well_formed(),
            final(self).open is None,
            final(self).infallible() == old(self).infallible(),
            final(self)@.states.len() == old(self)@.states.len(),
            final(self)@.same_directories(old(self)@),
            !(r matches Err(Error::Io(_))) ==> final(self)@.extends(old(self)@),
            match r {
                Ok(()) => old(self)@.put_version() == Ok::<_, Error>(final(self)@),
                Err(Error::Io(_)) => !old(self).infallible(),
                Err(e) => old(self)@.put_version() == Err::<EncoderView, Error>(e),
            },
    {
        match self.version.serialize() {
            Some(version_bytes) => {
                let position: u64 = match self.state() {
                    Ok(state) => state.position(),
                    Err(e) => {
                        return Err(e);
                    },
                };
                if position != 0 {
                    return Err(Error::VersionMisplaced);
                }
                self.put_item(PXAR_FORMAT_VERSION, version_bytes.as_slice())
            },
            None => Ok(()),
        }
    }

    fn encode_prelude(&mut self, prelude: &[u8]) -> (r: Result<(), Error>)
        requires
            old(self).well_formed(),
            old(self).open is None,
            old(self)@.states.len() > 0,
        ensures
            final(self).well_formed(),
            final(self).open is None,
            final(self).infallible() == old(self).infallible(),
            final(self)@.states.len() == old(self)@.states.len(),
            final(self)@.same_directories(old(self)@),
            !(r matches Err(Error::Io(_))) ==> final(self)@.extends(old(self)@),
            match r {
                Ok(()) => old(self)@.put_prelude(prelude@) == Ok::<_, Error>(final(self)@),
                Err(Error::Io(_)) => !old(self).infallible(),
                Err(e) => old(self)@.put_prelude(prelude@) == Err::<EncoderView, Error>(e),
            },
    {
        if self.version == FormatVersion::Version1 {
            return Err(Error::PreludeUnsupported);
        }
        let position: u64 = match self.state() {
            Ok(state) => state.position(),
            Err(e) => {
                return Err(e);
            },
        };
        if position != 8 + HEADER_SIZE {
            return Err(Error::PreludeMisplaced { position });
        }
        self.put_item(PXAR_PRELUDE, prelude)
    }

    /// Write what stands in front of the contents of a file.
    fn start_payload(&mut self, file_size: u64) -> (r: Result<(), Error>)
        requires
            old(self).well_formed(),
            old(self).open is None,
            old(self)@.states.len() > 0,
        ensures
            final(self).well_formed(),
            final(self).open is None,
            final(self).infallible() == old(self).infallible(),
            final(self)@.states.len() == old(self)@.states.len(),
            final(self)@.same_directories(old(self)@),
            !(r matches Err(Error::Io(_))) ==> final(self)@.extends(old(self)@),
            r matches Err(e) ==> !(e is Io) ==> final(self)@ == old(self)@.payload_refused(
                file_size,
            ),
            match r {
                Ok(()) => old(self)@.start_payload(file_size) == Ok::<_, Error>(final(self)@),
                Err(Error::Io(_)) => !old(self).infallible(),
                Err(e) => old(self)@.start_payload(file_size) == Err::<EncoderView, Error>(e),
            },
    {
        if file_size > u64::MAX - HEADER_SIZE {
            return Err(Error::OutOfRange);
        }
        let header = Header::with_content_size(PXAR_PAYLOAD, file_size);
        match header.check_header_size() {
            Ok(()) => {},
            Err(e) => {
                return Err(e);
            },
        }
        let ghost before = self@;
        let mut state = match self.state.pop() {
            Some(state) => state,
            None => {
                return Err(Error::StateUnderflow);
            },
        };
        match self.output.payload_mut() {
            Some(payload_output) => {
                // payload references must point to the position prior to the payload header,
                // separating payload entries in the payload stream
                let offset: u64 = state.payload_position();
                let r = seq_write_struct(
                    payload_output,
                    &header,
                    &mut state.payload_write_position,
                );
                self.state.push(state);
                proof {
                    assert(self@.states =~= before.states.drop_last().push(state@));
                    assert(self@.states.drop_last() =~= before.states.drop_last());
                    if let Ok(()) = r {
                        assert(self@ =~= before.at_payload(
                            Cursor {
                                bytes: self@.payload->0,
                                position: state.payload_write_position,
                            },
                        ));
                    }
                    assert(self@.well_formed());
                }
                match r {
                    Ok(()) => {},
                    Err(e) => {
                        return Err(e);
                    },
                }
                let payload_ref = PayloadRef { offset, size: file_size };
                let data = payload_ref.data();
                self.put_item(PXAR_PAYLOAD_REF, data.as_slice())
            },
            None => {
                let r = seq_write_struct(
                    self.output.archive_mut(),
                    &header,
                    &mut state.write_position,
                );
                self.state.push(state);
                proof {
                    assert(self@.states =~= before.states.drop_last().push(state@));
                    assert(self@.states.drop_last() =~= before.states.drop_last());
                    if let Ok(()) = r {
                        assert(self@ =~= before.at(
                            Cursor { bytes: self@.archive, position: state.write_position },
                        ));
                    }
                    assert(self@.well_formed());
                }
                r
            },
        }
    }

    /// Start an archive with its root directory.
    pub fn new(output: PxarVariant<T, T>, metadata: &Metadata, prelude: Option<&[u8]>) -> (r: Result<
        Self,
        Error,
    >)
        ensures
            ({
                let fine = output.archive_stream().infallible()
                    && match output.payload_stream() {
                    Some(p) => p.infallible(),
                    None => true,
                };
                let expected = new_encoder(
                    output.archive_stream().written(),
                    match output.payload_stream() {
                        Some(p) => Some(p.written()),
                        None => None,
                    },
                    metadata@,
                    match prelude {
                        Some(p) => Some(p@),
                        None => None,
                    },
                );
                match r {
                    Ok(this) => this.well_formed() && this.infallible() == fine && expected
                        == Ok::<_, Error>(this@),
                    Err(Error::Io(_)) => !fine && metadata@.file_type() == mode::IFDIR && !(
                    output.payload_stream() is None && prelude is Some),
                    Err(e) => expected == Err::<EncoderView, Error>(e),
                }
            }),
    {
        if !metadata.is_dir() {
            return Err(Error::NotADirectory);
        }
        let ghost original = output;
        let mut output = output;
        let mut state = EncoderState::default();
        if output.payload().is_none() && prelude.is_some() {
            return Err(Error::PreludeUnsupported);
        }
        let version = match output.payload_mut() {
            Some(payload_output) => {
                let header = Header::with_content_size(PXAR_PAYLOAD_START_MARKER, 0);
                match header.check_header_size() {
                    Ok(()) => {},
                    Err(e) => {
                        return Err(e);
                    },
                }
                proof {
                    header.lemma_wire_round_trip();
                }
                match seq_write_struct(payload_output, &header, &mut state.payload_write_position) {
                    Ok(()) => {},
                    Err(e) => {
                        return Err(e);
                    },
                }
                FormatVersion::Version2
            },
            None => FormatVersion::Version1,
        };
        let mut stack: Vec<EncoderState> = Vec::new();
        stack.push(state);
        let mut this = EncoderImpl {
            output,
            state: stack,
            open: None,
            finished: false,
            file_copy_buffer: Vec::new(),
            version,
        };
        let ghost start = this@;
        proof {
            assert(start.states =~= seq![state@]);
            assert(start.well_formed());
            let initial = EncoderView {
                archive: original.archive_stream().written(),
                payload: match original.payload_stream() {
                    Some(p) => Some(p.written()),
                    None => None,
                },
                states: seq![StateView::initial()],
                open: None,
                finished: false,
                version,
            };
            match original.payload_stream() {
                Some(p) => {
                    assert(start =~= initial.at_payload(
                        Cursor {
                            bytes: p.written() + header_of(PXAR_PAYLOAD_START_MARKER, 0).wire(),
                            position: HEADER_SIZE,
                        },
                    ));
                },
                None => {
                    assert(start =~= initial);
                },
            }
            lemma_preamble(start, match prelude {
                Some(p) => Some(p@),
                None => None,
            });
        }
        match this.encode_format_version() {
            Ok(()) => {},
            Err(e) => {
                return Err(e);
            },
        }
        match prelude {
            Some(prelude) => match this.encode_prelude(prelude) {
                Ok(()) => {},
                Err(e) => {
                    return Err(e);
                },
            },
            None => {},
        }
        match this.encode_metadata(metadata) {
            Ok(()) => {},
            Err(e) => {
                return Err(e);
            },
        }
        let ghost before = this@;
        match this.state.pop() {
            Some(mut state) => {
                state.files_offset = state.position();
                this.state.push(state);
                proof {
                    assert(this@.states =~= before.states.drop_last().push(state@));
                    assert(this@.well_formed());
                }
                Ok(this)
            },
            None => Err(Error::StateUnderflow),
        }
    }

    /// Create a new regular file in the archive. This returns a `FileImpl` object to which the
    /// contents have to be written out *completely*. Failing to do so will put the encoder into an
    /// error state.
    pub fn create_file<'b>(
        &'b mut self,
        metadata: &Metadata,
        file_name: &[u8],
        file_size: u64,
    ) -> (r: Result<FileImpl<'b, T>, Error>)
        requires
            old(self).well_formed(),
        ensures
            match r {
                Ok(file) => {
                    &&& file.well_formed()
                    &&& file.infallible() == old(self).infallible()
                    &&& old(self)@.create_file(metadata@, file_name@, file_size) == Ok::<_, Error>(
                        file@,
                    )
                    &&& file@.extends(old(self)@)
                    &&& *final(self) == *final(file.encoder)
                },
                Err(Error::Io(_)) => !old(self).infallible(),
                Err(e) => old(self)@.create_file(metadata@, file_name@, file_size) == Err::<
                    EncoderView,
                    Error,
                >(e),
            },
            old(self)@.refusal(file_name@) matches Some(e) ==> {
                &&& r is Err && r->Err_0 == e
                &&& final(self)@ == old(self)@.settled()
            },
            r matches Err(e) ==> {
                &&& final(self).well_formed()
                &&& final(self).infallible() == old(self).infallible()
                &&& final(self)@.same_directories(old(self)@.settled())
                &&& !(e is Io) ==> final(self)@.extends(old(self)@)
                &&& !(e is Io) ==> final(self)@ == old(self)@.file_refused(
                    metadata@,
                    file_name@,
                    file_size,
                )
            },
    {
        match self.create_file_do(metadata, file_name, file_size) {
            Ok(()) => Ok(FileImpl { encoder: self }),
            Err(e) => Err(e),
        }
    }

    fn create_file_do(&mut self, metadata: &Metadata, file_name: &[u8], file_size: u64) -> (r:
        Result<(), Error>)
        requires
            old(self).well_formed(),
        ensures
            final(self).well_formed(),
            final(self).infallible() == old(self).infallible(),
            final(self)@.same_directories(old(self)@.settled()),
            !(r matches Err(Error::Io(_))) ==> final(self)@.extends(old(self)@),
            r matches Err(e) ==> !(e is Io) ==> final(self)@ == old(self)@.file_refused(
                metadata@,
                file_name@,
                file_size,
            ),
            old(self)@.refusal(file_name@) matches Some(e) ==> {
                &&& r == Err::<(), Error>(e)
                &&& final(self)@ == old(self)@.settled()
            },
            match r {
                Ok(()) => final(self).open is Some && old(self)@.create_file(
                    metadata@,
                    file_name@,
                    file_size,
                ) == Ok::<_, Error>(final(self)@),
                Err(Error::Io(_)) => !old(self).infallible(),
                Err(e) => old(self)@.create_file(metadata@, file_name@, file_size) == Err::<
                    EncoderView,
                    Error,
                >(e),
            },
    {
        self.settle();
        match self.check() {
            Ok(()) => {},
            Err(e) => {
                return Err(e);
            },
        }
        let file_offset: u64 = match self.state() {
            Ok(state) => state.position(),
            Err(e) => {
                return Err(e);
            },
        };
        let ghost settled = self@;
        match self.start_file_do(Some(metadata), file_name) {
            Ok(()) => {},
            Err(e) => {
                return Err(e);
            },
        }
        let ghost started = self@;
        match self.start_payload(file_size) {
            Ok(()) => {},
            Err(e) => {
                return Err(e);
            },
        }
        proof {
            lemma_start_file_position(settled, Some(metadata@), file_name@);
            lemma_start_payload_position(started, file_size);
        }
        let (position, payload_position) = match self.state() {
            Ok(state) => (state.position(), state.payload_position()),
            Err(e) => {
                return Err(e);
            },
        };
        let contents_position: u64 = if self.output.payload().is_some() {
            payload_position
        } else {
            position
        };
        let meta_size: u64 = position - file_offset;
        if file_size > u64::MAX - contents_position || file_size > u64::MAX - meta_size {
            return Err(Error::OutOfRange);
        }
        self.open =
        Some(
            OpenFile {
                goodbye_item: GoodbyeItem {
                    hash: hash_filename(file_name),
                    offset: file_offset,
                    size: file_size + meta_size,
                },
                remaining_size: file_size,
            },
        );
        Ok(())
    }

    /// Take the copy buffer, or a new one where there is none of sufficient size.
    fn take_file_copy_buffer(&mut self) -> (r: Vec<u8>)
        ensures
            if old(self).file_copy_buffer@.len() < COPY_BUFFER_SIZE {
                r@.len() == COPY_BUFFER_SIZE
            } else {
                r == old(self).file_copy_buffer
            },
            final(self).file_copy_buffer@.len() == 0,
            final(self)@ == old(self)@,
            final(self).output == old(self).output,
    {
        let mut buf: Vec<u8> = Vec::new();
        std::mem::swap(&mut buf, &mut self.file_copy_buffer);
        if buf.len() < COPY_BUFFER_SIZE {
            util::vec_new(COPY_BUFFER_SIZE)
        } else {
            buf
        }
    }

    /// Keep a copy buffer for later use, unless there already is one that is at least as large.
    fn put_file_copy_buffer(&mut self, buf: Vec<u8>)
        ensures
            *final(self) == (EncoderImpl {
                file_copy_buffer: if old(self).file_copy_buffer@.len() < buf@.len() {
                    buf
                } else {
                    old(self).file_copy_buffer
                },
                ..*old(self)
            }),
    {
        if self.file_copy_buffer.len() < buf.len() {
            self.file_copy_buffer = buf;
        }
    }

    /// Add a file with its contents. Return a file offset usable with `add_hardlink`.
    pub fn add_file<R: SeqRead>(
        &mut self,
        metadata: &Metadata,
        file_name: &[u8],
        file_size: u64,
        content: &mut R,
    ) -> (r: Result<LinkOffset, Error>)
        requires
            old(self).well_formed(),
        ensures
            final(self).well_formed(),
            final(self).infallible() == old(self).infallible(),
            r is Err ==> final(self)@.same_directories(old(self)@.settled()),
            !(r matches Err(Error::Io(_))) ==> final(self)@.extends(old(self)@),
            r matches Err(e) ==> !(e is Io) && old(self)@.create_file(
                metadata@,
                file_name@,
                file_size,
            ) is Err ==> final(self)@ == old(self)@.file_refused(metadata@, file_name@, file_size),
            old(self)@.refusal(file_name@) matches Some(e) ==> {
                &&& r == Err::<LinkOffset, Error>(e)
                &&& final(self)@ == old(self)@.settled()
            },
            // a file that gets more contents than announced is left with some of them
            r is Err && !(r matches Err(Error::Io(_))) ==> (old(self)@.create_file(
                metadata@,
                file_name@,
                file_size,
            ) matches Ok(created) ==> exists|n: int|
                0 <= n <= file_size && n <= old(content).stream().unread.len() && final(self)@
                    == created.with_contents(#[trigger] old(content).stream().unread.take(n))),
            match r {
                Ok(offset) => {
                    &&& old(self)@.add_file(
                        metadata@,
                        file_name@,
                        file_size,
                        old(content).stream().unread,
                    ) == Ok::<_, Error>(final(self)@)
                    &&& offset.0 == old(self)@.settled().last().write_position
                    &&& final(content).stream() == old(content).stream().advanced(
                        old(content).stream().unread.len(),
                    )
                },
                Err(Error::Io(_)) => !(old(self).infallible() && old(content).infallible()),
                Err(e) => old(self)@.add_file(
                    metadata@,
                    file_name@,
                    file_size,
                    old(content).stream().unread,
                ) == Err::<EncoderView, Error>(e),
            },
    {
        let mut buf = self.take_file_copy_buffer();
        match self.create_file_do(metadata, file_name, file_size) {
            Ok(()) => {},
            Err(e) => {
                return Err(e);
            },
        }
        let ghost created = self@;
        let ghost all = content.stream().unread;
        let ghost start = content.stream();
        let ghost mut done: nat = 0;
        proof {
            crate::decoder::read::lemma_advanced(start, 0, 0);
            lemma_with_contents(created, Seq::empty(), Seq::empty());
            assert(all.take(0) =~= Seq::<u8>::empty());
            assert(created.open->0.goodbye_item.offset == old(
                self,
            )@.settled().last().write_position);
        }
        loop
            invariant
                self.well_formed(),
                self.infallible() == old(self).infallible(),
                self@.same_directories(old(self)@.settled()),
                self@.extends(old(self)@),
                content.infallible() == old(content).infallible(),
                buf@.len() >= COPY_BUFFER_SIZE,
                created.well_formed(),
                created.open is Some,
                created.open->0.remaining_size == file_size,
                created.open->0.goodbye_item.offset == old(self)@.settled().last().write_position,
                old(self)@.create_file(metadata@, file_name@, file_size) == Ok::<_, Error>(created),
                start == old(content).stream(),
                all == start.unread,
                done <= all.len(),
                done <= file_size,
                content.stream() == start.advanced(done),
                self@ == created.with_contents(all.take(done as int)),
            decreases all.len() - done,
        {
            let got: usize = match seq_read(content, buf.as_mut_slice()) {
                Ok(got) => got,
                Err(e) => {
                    return Err(e);
                },
            };
            if got == 0 {
                proof {
                    assert(done == all.len());
                    assert(all.take(done as int) =~= all);
                    crate::decoder::read::lemma_advanced(start, done, 0);
                }
                let offset: LinkOffset = match self.open {
                    Some(file) => LinkOffset(file.goodbye_item.offset),
                    None => LinkOffset(0),
                };
                self.put_file_copy_buffer(buf);
                return Ok(offset);
            }
            proof {
                lemma_with_contents(
                    created,
                    all.take(done as int),
                    if done + got <= file_size {
                        all.skip(done as int).take(got as int)
                    } else {
                        Seq::empty()
                    },
                );
                crate::decoder::read::lemma_advanced(start, done, got as nat);
            }
            let chunk = vstd::slice::slice_subrange(buf.as_slice(), 0, got);
            proof {
                assert(chunk@ =~= all.skip(done as int).take(got as int));
                assert(all.take(done as int) + chunk@ =~= all.take(done + got));
            }
            match self.write_contents(chunk) {
                Ok(()) => {},
                Err(e) => {
                    return Err(e);
                },
            }
            proof {
                done = done + got as nat;
            }
        }
    }

    /// Check that there is room for more contents of the open file.
    fn check_remaining(&self, size: usize) -> (r: Result<(), Error>)
        requires
            self.open is Some,
        ensures
            match r {
                Ok(()) => size <= self.open->0.remaining_size,
                Err(e) => e == Error::FileOverrun && size > self.open->0.remaining_size,
            },
    {
        match self.open {
            Some(file) => if size as u64 > file.remaining_size {
                Err(Error::FileOverrun)
            } else {
                Ok(())
            },
            None => Ok(()),
        }
    }

    /// Write more contents of the open file.
    fn write_contents(&mut self, data: &[u8]) -> (r: Result<(), Error>)
        requires
            old(self).well_formed(),
            old(self).open is Some,
        ensures
            final(self).well_formed(),
            final(self).open is Some,
            final(self).infallible() == old(self).infallible(),
            final(self)@.same_directories(old(self)@),
            final(self).open->0.goodbye_item == old(self).open->0.goodbye_item,
            !(r matches Err(Error::Io(_))) ==> final(self)@.extends(old(self)@),
            r is Err ==> final(self).open == old(self).open,
            old(self)@.contents_refusal(data@) matches Some(e) ==> {
                &&& r == Err::<(), Error>(e)
                &&& final(self)@ == old(self)@
            },
            match r {
                Ok(()) => old(self)@.contents_refusal(data@) is None && final(self)@ == old(
                    self,
                )@.with_contents(data@),
                Err(Error::Io(_)) => !old(self).infallible(),
                Err(e) => old(self)@.contents_refusal(data@) == Some(e),
            },
    {
        match self.check_remaining(data.len()) {
            Ok(()) => {},
            Err(e) => {
                return Err(e);
            },
        }
        let ghost before = self@;
        let mut state = match self.state.pop() {
            Some(state) => state,
            None => {
                return Err(Error::StateUnderflow);
            },
        };
        let r = match self.output.payload_mut() {
            Some(payload_output) => seq_write_all(
                payload_output,
                data,
                &mut state.payload_write_position,
            ),
            None => seq_write_all(self.output.archive_mut(), data, &mut state.write_position),
        };
        self.state.push(state);
        if r.is_ok() {
            match self.open {
                Some(file) => {
                    self.open =
                    Some(
                        OpenFile {
                            goodbye_item: file.goodbye_item,
                            remaining_size: file.remaining_size - data.len() as u64,
                        },
                    );
                },
                None => {},
            }
        }
        proof {
            assert(self@.states =~= before.states.drop_last().push(state@));
            assert(self@.states.drop_last() =~= before.states.drop_last());
            let n = before.states.len() as int;
            assert forall|k: int| 0 <= k < n - 1 implies #[trigger] self@.states[k]
                == before.states[k] by {}
            assert(self@.states[n - 1] == state@);
            assert(before.states[n - 1] == before.last());
            assert(self@.well_formed());
            if before.contents_refusal(data@) is Some {
                assert(self@.states =~= before.states);
                assert(self@ =~= before);
            }
            if let Ok(()) = r {
                assert(self@ =~= before.with_contents(data@));
            }
        }
        r
    }

    fn write_some_contents(&mut self, data: &[u8]) -> (r: Result<usize, Error>)
        requires
            old(self).well_formed(),
            old(self).open is Some,
        ensures
            final(self).well_formed(),
            final(self).open is Some,
            final(self).infallible() == old(self).infallible(),
            final(self)@.same_directories(old(self)@),
            final(self).open->0.goodbye_item == old(self).open->0.goodbye_item,
            !(r matches Err(Error::Io(_))) ==> final(self)@.extends(old(self)@),
            r is Err ==> final(self).open == old(self).open,
            old(self)@.contents_refusal(data@) matches Some(e) ==> {
                &&& r == Err::<usize, Error>(e)
                &&& final(self)@ == old(self)@
            },
            match r {
                Ok(put) => {
                    &&& old(self)@.contents_refusal(data@) is None
                    &&& put <= data@.len()
                    &&& put == 0 ==> data@.len() == 0
                    &&& final(self)@ == old(self)@.with_contents(data@.take(put as int))
                },
                Err(Error::Io(_)) => !old(self).infallible(),
                Err(e) => old(self)@.contents_refusal(data@) == Some(e),
            },
    {
        match self.check_remaining(data.len()) {
            Ok(()) => {},
            Err(e) => {
                return Err(e);
            },
        }
        let ghost before = self@;
        let mut state = match self.state.pop() {
            Some(state) => state,
            None => {
                return Err(Error::StateUnderflow);
            },
        };
        let position: u64 = if self.output.payload().is_some() {
            state.payload_position()
        } else {
            state.position()
        };
        if data.len() as u64 > u64::MAX - position {
            self.state.push(state);
            proof {
                assert(self@.states =~= before.states.drop_last().push(state@));
                assert(self@.states =~= before.states);
                assert(self@ =~= before);
            }
            return Err(Error::OutOfRange);
        }
        let r = match self.output.payload_mut() {
            Some(payload_output) => seq_write(
                payload_output,
                data,
                &mut state.payload_write_position,
            ),
            None => seq_write(self.output.archive_mut(), data, &mut state.write_position),
        };
        self.state.push(state);
        let put: usize = match r {
            Ok(put) => put,
            Err(e) => {
                proof {
                    assert(self@.states =~= before.states.drop_last().push(state@));
                    assert(self@.states.drop_last() =~= before.states.drop_last());
                    assert(self@.states =~= before.states);
                    assert(self@.well_formed());
                }
                return Err(e);
            },
        };
        match self.open {
            Some(file) => {
                self.open =
                Some(
                    OpenFile {
                        goodbye_item: file.goodbye_item,
                        remaining_size: file.remaining_size - put as u64,
                    },
                );
            },
            None => {},
        }
        proof {
            assert(self@.states =~= before.states.drop_last().push(state@));
            assert(self@.states.drop_last() =~= before.states.drop_last());
            assert(self@ =~= before.with_contents(data@.take(put as int)));
            lemma_with_contents(before, data@.take(put as int), Seq::empty());
        }
        Ok(put)
    }

    /// Get the current position in the payload stream.
    pub fn payload_position(&self) -> (r: Result<PayloadOffset, Error>)
        ensures
            match r {
                Ok(offset) => self@.states.len() > 0 && offset.0
                    == self@.last().payload_write_position,
                Err(e) => e == Error::StateUnderflow && self@.states.len() == 0,
            },
    {
        match self.state() {
            Ok(state) => Ok(PayloadOffset(state.payload_position())),
            Err(e) => Err(e),
        }
    }

    /// Encode a payload reference pointing to given offset in the separate payload output
    ///
    /// Returns a file offset usable with `add_hardlink` or with error if the encoder instance has
    /// no separate payload output or encoding failed.
    pub fn add_payload_ref(
        &mut self,
        metadata: &Metadata,
        file_name: &[u8],
        file_size: u64,
        payload_offset: PayloadOffset,
    ) -> (r: Result<LinkOffset, Error>)
        requires
            old(self).well_formed(),
        ensures
            final(self).well_formed(),
            final(self).infallible() == old(self).infallible(),
            r is Err ==> final(self)@.same_directories(old(self)@.settled()),
            !(r matches Err(Error::Io(_))) ==> final(self)@.extends(old(self)@),
            r matches Err(e) ==> !(e is Io) && old(self)@.payload_ref_refusal(
                file_name@,
                payload_offset.0,
            ) is None ==> final(self)@ == old(self)@.entry_refused(Some(metadata@), file_name@),
            old(self)@.payload_ref_refusal(file_name@, payload_offset.0) matches Some(e) ==> {
                &&& r == Err::<LinkOffset, Error>(e)
                &&& final(self)@ == old(self)@.settled()
            },
            match r {
                Ok(offset) => {
                    &&& old(self)@.add_payload_ref(
                        metadata@,
                        file_name@,
                        file_size,
                        payload_offset.0,
                    ) == Ok::<_, Error>(final(self)@)
                    &&& offset.0 == old(self)@.settled().last().write_position
                },
                Err(Error::Io(_)) => !old(self).infallible(),
                Err(e) => old(self)@.add_payload_ref(
                    metadata@,
                    file_name@,
                    file_size,
                    payload_offset.0,
                ) == Err::<EncoderView, Error>(e),
            },
    {
        proof {
            lemma_settled_once(self@);
        }
        self.settle();
        if self.version == FormatVersion::Version1 {
            return Err(Error::PayloadRefUnsupported);
        }
        if self.output.payload().is_none() {
            return Err(Error::NoPayloadOutput);
        }
        let offset: u64 = payload_offset.raw();
        let position: u64 = match self.state() {
            Ok(state) => state.payload_position(),
            Err(e) => {
                return Err(e);
            },
        };
        if offset < position {
            return Err(Error::PayloadOffsetTooSmall { offset, position });
        }
        let payload_ref = PayloadRef { offset, size: file_size };
        let data = payload_ref.data();
        self.add_file_entry(Some(metadata), file_name, Some((PXAR_PAYLOAD_REF, data.as_slice())))
    }

    /// Add size to payload stream
    pub fn advance(&mut self, size: PayloadOffset) -> (r: Result<(), Error>)
        requires
            old(self).well_formed(),
        ensures
            final(self).well_formed(),
            final(self).infallible() == old(self).infallible(),
            r is Err ==> final(self)@.same_directories(old(self)@.settled()),
            !(r matches Err(Error::Io(_))) ==> final(self)@.extends(old(self)@),
            r is Err ==> final(self)@ == old(self)@.settled(),
            match r {
                Ok(()) => old(self)@.advance(size.0) == Ok::<_, Error>(final(self)@),
                Err(e) => old(self)@.advance(size.0) == Err::<EncoderView, Error>(e),
            },
    {
        self.settle();
        let ghost before = self@;
        let len: usize = self.state.len();
        if len == 0 {
            return Err(Error::StateUnderflow);
        }
        let position: u64 = self.state[len - 1].payload_write_position;
        if size.raw() > u64::MAX - position {
            return Err(Error::OutOfRange);
        }
        match self.state.pop() {
            Some(mut state) => {
                state.payload_write_position = position + size.raw();
                self.state.push(state);
                proof {
                    assert(self@.states =~= before.states.drop_last().push(state@));
                    assert(self@.states.drop_last() =~= before.states.drop_last());
                    assert(self@.well_formed());
                }
                Ok(())
            },
            None => Err(Error::StateUnderflow),
        }
    }

    /// Add a symbolic link.
    pub fn add_symlink(&mut self, metadata: &Metadata, file_name: &[u8], target: &[u8]) -> (r:
        Result<(), Error>)
        requires
            old(self).well_formed(),
        ensures
            final(self).well_formed(),
            final(self).infallible() == old(self).infallible(),
            r is Err ==> final(self)@.same_directories(old(self)@.settled()),
            !(r matches Err(Error::Io(_))) ==> final(self)@.extends(old(self)@),
            r matches Err(e) ==> !(e is Io) ==> final(self)@ == old(self)@.entry_refused(
                Some(metadata@),
                file_name@,
            ),
            old(self)@.refusal(file_name@) matches Some(e) ==> {
                &&& r == Err::<(), Error>(e)
                &&& final(self)@ == old(self)@.settled()
            },
            match r {
                Ok(()) => old(self)@.add_entry(
                    Some(metadata@),
                    file_name@,
                    Some(symlink_item(target@)),
                ) == Ok::<_, Error>(final(self)@),
                Err(Error::Io(_)) => !old(self).infallible(),
                Err(e) => old(self)@.add_entry(
                    Some(metadata@),
                    file_name@,
                    Some(symlink_item(target@)),
                ) == Err::<EncoderView, Error>(e),
            },
    {
        let mut data: Vec<u8> = Vec::new();
        util::extend(&mut data, target);
        data.push(0);
        proof {
            assert(data@ =~= target@.push(0));
        }
        match self.add_file_entry(
            Some(metadata),
            file_name,
            Some((PXAR_SYMLINK, data.as_slice())),
        ) {
            Ok(_ofs) => Ok(()),
            Err(e) => Err(e),
        }
    }

    /// Add a hard link.
    pub fn add_hardlink(&mut self, file_name: &[u8], target: &[u8], target_offset: LinkOffset) -> (r:
        Result<(), Error>)
        requires
            old(self).well_formed(),
        ensures
            final(self).well_formed(),
            final(self).infallible() == old(self).infallible(),
            r is Err ==> final(self)@.same_directories(old(self)@.settled()),
            !(r matches Err(Error::Io(_))) ==> final(self)@.extends(old(self)@),
            r matches Err(e) ==> !(e is Io) && old(self)@.hardlink_refusal(
                file_name@,
                target_offset.0,
            ) is None ==> final(self)@ == old(self)@.entry_refused(None, file_name@),
            old(self)@.hardlink_refusal(file_name@, target_offset.0) matches Some(e) ==> {
                &&& r == Err::<(), Error>(e)
                &&& final(self)@ == old(self)@.settled()
            },
            match r {
                Ok(()) => old(self)@.add_hardlink(file_name@, target@, target_offset.0) == Ok::<
                    _,
                    Error,
                >(final(self)@),
                Err(Error::Io(_)) => !old(self).infallible(),
                Err(e) => old(self)@.add_hardlink(file_name@, target@, target_offset.0) == Err::<
                    EncoderView,
                    Error,
                >(e),
            },
    {
        self.settle();
        let current_offset: u64 = match self.state() {
            Ok(state) => state.position(),
            Err(e) => {
                return Err(e);
            },
        };
        if current_offset <= target_offset.0 {
            return Err(Error::InvalidHardlinkOffset);
        }
        let distance: u64 = current_offset - target_offset.0;
        let mut hardlink = distance.to_bytes();
        util::extend(&mut hardlink, target);
        hardlink.push(0);
        proof {
            assert(hardlink@ =~= le64(distance) + target@.push(0));
            lemma_settled_once(old(self)@);
        }
        match self.add_file_entry(None, file_name, Some((PXAR_HARDLINK, hardlink.as_slice()))) {
            Ok(_this_offset) => Ok(()),
            Err(e) => Err(e),
        }
    }

    /// Add a device node.
    pub fn add_device(&mut self, metadata: &Metadata, file_name: &[u8], device: Device) -> (r:
        Result<(), Error>)
        requires
            old(self).well_formed(),
        ensures
            final(self).well_formed(),
            final(self).infallible() == old(self).infallible(),
            r is Err ==> final(self)@.same_directories(old(self)@.settled()),
            !(r matches Err(Error::Io(_))) ==> final(self)@.extends(old(self)@),
            r matches Err(e) ==> !(e is Io) && old(self)@.device_refusal(
                metadata@,
                file_name@,
            ) is None ==> final(self)@ == old(self)@.entry_refused(Some(metadata@), file_name@),
            old(self)@.device_refusal(metadata@, file_name@) matches Some(e) ==> {
                &&& r == Err::<(), Error>(e)
                &&& final(self)@ == old(self)@.settled()
            },
            match r {
                Ok(()) => old(self)@.add_device(metadata@, file_name@, device) == Ok::<_, Error>(
                    final(self)@,
                ),
                Err(Error::Io(_)) => !old(self).infallible(),
                Err(e) => old(self)@.add_device(metadata@, file_name@, device) == Err::<
                    EncoderView,
                    Error,
                >(e),
            },
    {
        proof {
            lemma_settled_once(self@);
        }
        self.settle();
        if !metadata.is_device() {
            return Err(Error::NotADevice);
        }
        let device = device.to_bytes();
        match self.add_file_entry(
            Some(metadata),
            file_name,
            Some((PXAR_DEVICE, device.as_slice())),
        ) {
            Ok(_ofs) => Ok(()),
            Err(e) => Err(e),
        }
    }

    /// Add a named pipe.
    pub fn add_fifo(&mut self, metadata: &Metadata, file_name: &[u8]) -> (r: Result<(), Error>)
        requires
            old(self).well_formed(),
        ensures
            final(self).well_formed(),
            final(self).infallible() == old(self).infallible(),
            r is Err ==> final(self)@.same_directories(old(self)@.settled()),
            !(r matches Err(Error::Io(_))) ==> final(self)@.extends(old(self)@),
            r matches Err(e) ==> !(e is Io) && old(self)@.fifo_refusal(
                metadata@,
                file_name@,
            ) is None ==> final(self)@ == old(self)@.entry_refused(Some(metadata@), file_name@),
            old(self)@.fifo_refusal(metadata@, file_name@) matches Some(e) ==> {
                &&& r == Err::<(), Error>(e)
                &&& final(self)@ == old(self)@.settled()
            },
            match r {
                Ok(()) => old(self)@.add_fifo(metadata@, file_name@) == Ok::<_, Error>(
                    final(self)@,
                ),
                Err(Error::Io(_)) => !old(self).infallible(),
                Err(e) => old(self)@.add_fifo(metadata@, file_name@) == Err::<EncoderView, Error>(
                    e,
                ),
            },
    {
        proof {
            lemma_settled_once(self@);
        }
        self.settle();
        if !metadata.is_fifo() {
            return Err(Error::NotAFifo);
        }
        match self.add_file_entry(Some(metadata), file_name, None) {
            Ok(_ofs) => Ok(()),
            Err(e) => Err(e),
        }
    }

    /// Add a socket.
    pub fn add_socket(&mut self, metadata: &Metadata, file_name: &[u8]) -> (r: Result<(), Error>)
        requires
            old(self).well_formed(),
        ensures
            final(self).well_formed(),
            final(self).infallible() == old(self).infallible(),
            r is Err ==> final(self)@.same_directories(old(self)@.settled()),
            !(r matches Err(Error::Io(_))) ==> final(self)@.extends(old(self)@),
            r matches Err(e) ==> !(e is Io) && old(self)@.socket_refusal(
                metadata@,
                file_name@,
            ) is None ==> final(self)@ == old(self)@.entry_refused(Some(metadata@), file_name@),
            old(self)@.socket_refusal(metadata@, file_name@) matches Some(e) ==> {
                &&& r == Err::<(), Error>(e)
                &&& final(self)@ == old(self)@.settled()
            },
            match r {
                Ok(()) => old(self)@.add_socket(metadata@, file_name@) == Ok::<_, Error>(
                    final(self)@,
                ),
                Err(Error::Io(_)) => !old(self).infallible(),
                Err(e) => old(self)@.add_socket(metadata@, file_name@) == Err::<
                    EncoderView,
                    Error,
                >(e),
            },
    {
        proof {
            lemma_settled_once(self@);
        }
        self.settle();
        if !metadata.is_socket() {
            return Err(Error::NotASocket);
        }
        match self.add_file_entry(Some(metadata), file_name, None) {
            Ok(_ofs) => Ok(()),
            Err(e) => Err(e),
        }
    }

    /// Return a file offset usable with `add_hardlink`.
    fn add_file_entry(
        &mut self,
        metadata: Option<&Metadata>,
        file_name: &[u8],
        entry_htype_data: Option<(u64, &[u8])>,
    ) -> (r: Result<LinkOffset, Error>)
        requires
            old(self).well_formed(),
        ensures
            final(self).well_formed(),
            final(self).infallible() == old(self).infallible(),
            r is Err ==> final(self)@.same_directories(old(self)@.settled()),
            !(r matches Err(Error::Io(_))) ==> final(self)@.extends(old(self)@),
            r matches Err(e) ==> !(e is Io) ==> final(self)@ == old(self)@.entry_refused(
                metadata_view(metadata),
                file_name@,
            ),
            old(self)@.refusal(file_name@) matches Some(e) ==> {
                &&& r == Err::<LinkOffset, Error>(e)
                &&& final(self)@ == old(self)@.settled()
            },
            match r {
                Ok(offset) => {
                    &&& old(self)@.add_entry(
                        metadata_view(metadata),
                        file_name@,
                        item_view(entry_htype_data),
                    ) == Ok::<_, Error>(final(self)@)
                    &&& offset.0 == old(self)@.settled().last().write_position
                },
                Err(Error::Io(_)) => !old(self).infallible(),
                Err(e) => old(self)@.add_entry(
                    metadata_view(metadata),
                    file_name@,
                    item_view(entry_htype_data),
                ) == Err::<EncoderView, Error>(e),
            },
    {
        self.settle();
        match self.check() {
            Ok(()) => {},
            Err(e) => {
                return Err(e);
            },
        }
        let file_offset: u64 = match self.state() {
            Ok(state) => state.position(),
            Err(e) => {
                return Err(e);
            },
        };
        proof {
            lemma_start_file_position(self@, metadata_view(metadata), file_name@);
        }
        match self.start_file_do(metadata, file_name) {
            Ok(()) => {},
            Err(e) => {
                return Err(e);
            },
        }
        match entry_htype_data {
            Some((htype, entry_data)) => {
                proof {
                    lemma_put_item_position(self@, ItemView { htype, content: entry_data@ });
                }
                match self.put_item(htype, entry_data) {
                    Ok(()) => {},
                    Err(e) => {
                        return Err(e);
                    },
                }
            },
            None => {},
        }
        let ghost before = self@;
        match self.state.pop() {
            Some(mut state) => {
                let end_offset: u64 = state.position();
                state.items.push(
                    GoodbyeItem {
                        hash: hash_filename(file_name),
                        offset: file_offset,
                        size: end_offset - file_offset,
                    },
                );
                self.state.push(state);
                proof {
                    assert(self@.states =~= before.states.drop_last().push(state@));
                    assert(self@.states.drop_last() =~= before.states.drop_last());
                    assert(self@ =~= before.listed(file_offset, file_name@));
                    assert(self@.well_formed());
                }
                Ok(LinkOffset(file_offset))
            },
            None => Err(Error::StateUnderflow),
        }
    }

    /// Create a new subdirectory. Note that the subdirectory has to be finished by calling the
    /// `finish()` method, otherwise the entire archive will be in an error state.
    pub fn create_directory(&mut self, file_name: &[u8], metadata: &Metadata) -> (r: Result<
        (),
        Error,
    >)
        requires
            old(self).well_formed(),
        ensures
            final(self).well_formed(),
            final(self).infallible() == old(self).infallible(),
            r is Err ==> final(self)@.same_directories(old(self)@.settled()),
            !(r matches Err(Error::Io(_))) ==> final(self)@.extends(old(self)@),
            r matches Err(e) ==> !(e is Io) && old(self)@.directory_refusal(
                file_name@,
                metadata@,
            ) is None ==> final(self)@ == old(self)@.settled().start_refused(
                Some(metadata@),
                file_name@,
            ),
            old(self)@.directory_refusal(file_name@, metadata@) matches Some(e) ==> {
                &&& r == Err::<(), Error>(e)
                &&& final(self)@ == old(self)@.settled()
            },
            match r {
                Ok(()) => old(self)@.create_directory(file_name@, metadata@) == Ok::<_, Error>(
                    final(self)@,
                ),
                Err(Error::Io(_)) => !old(self).infallible(),
                Err(e) => old(self)@.create_directory(file_name@, metadata@) == Err::<
                    EncoderView,
                    Error,
                >(e),
            },
    {
        self.settle();
        match self.check() {
            Ok(()) => {},
            Err(e) => {
                return Err(e);
            },
        }
        if !metadata.is_dir() {
            return Err(Error::NotADirectory);
        }
        let file_hash: u64 = hash_filename(file_name);
        let file_offset: u64 = match self.state() {
            Ok(state) => state.position(),
            Err(e) => {
                return Err(e);
            },
        };
        proof {
            lemma_put_item_position(self@, filename_item(file_name@));
        }
        match self.encode_filename(file_name) {
            Ok(()) => {},
            Err(e) => {
                return Err(e);
            },
        }
        let entry_offset: u64 = match self.state() {
            Ok(state) => state.position(),
            Err(e) => {
                return Err(e);
            },
        };
        proof {
            lemma_put_items_position(self@, metadata_items(metadata@));
        }
        match self.encode_metadata(metadata) {
            Ok(()) => {},
            Err(e) => {
                return Err(e);
            },
        }
        let (write_position, payload_write_position) = match self.state() {
            Ok(state) => (state.position(), state.payload_position()),
            Err(e) => {
                return Err(e);
            },
        };
        let ghost before = self@;
        // the child will write to OUR state now:
        let child = EncoderState {
            items: Vec::new(),
            encode_error: None,
            entry_offset,
            files_offset: write_position,
            file_offset: Some(file_offset),
            file_hash,
            write_position,
            payload_write_position,
        };
        self.state.push(child);
        proof {
            assert(child@.items =~= Seq::<GoodbyeItem>::empty());
            assert(self@.states =~= before.states.push(child@));
            assert(before.states[before.states.len() - 1] == before.last());
            assert(self@.well_formed());
        }
        Ok(())
    }

    /// Finish this directory. This is mandatory, encodes the end for the current directory.
    pub fn finish(&mut self) -> (r: Result<(), Error>)
        requires
            old(self).well_formed(),
        ensures
            final(self).well_formed(),
            final(self).infallible() == old(self).infallible(),
            old(self)@.finish_refusal() matches Some(e) ==> r == Err::<(), Error>(e) && final(self)@
                == old(self)@.settled(),
            // the directory is left before its table is written
            r is Err && old(self)@.finish_refusal() is None ==> final(self)@.states == old(
                self,
            )@.settled().states.drop_last(),
            old(self)@.finish_refusal() is None ==> (old(self)@.settled().put_item(
                old(self)@.settled().goodbye_item(),
            ) matches Err(e) ==> r == Err::<(), Error>(e) && final(self)@.archive == old(
                self,
            )@.archive && final(self)@.payload == old(self)@.payload),
            !(r matches Err(Error::Io(_))) ==> final(self)@.extends(old(self)@),
            match r {
                Ok(()) => old(self)@.finish() == Ok::<_, Error>(final(self)@),
                Err(Error::Io(_)) => !old(self).infallible(),
                Err(e) => old(self)@.finish() == Err::<EncoderView, Error>(e),
            },
    {
        self.settle();
        let ghost settled = self@;
        let tail_bytes = match self.finish_goodbye_table() {
            Ok(tail_bytes) => tail_bytes,
            Err(e) => {
                return Err(e);
            },
        };
        let ghost n = settled.states.len() as int;
        let ghost emptied = self@;
        proof {
            lemma_put_item_position(settled, settled.goodbye_item());
            assert(emptied.states.drop_last() =~= settled.states.drop_last());
        }
        let mut state = match self.state.pop() {
            Some(state) => state,
            None => {
                return Err(Error::StateUnderflow);
            },
        };
        proof {
            assert(self@.states =~= emptied.states.drop_last());
            assert(state@ == emptied.last());
            assert(state@ == (StateView { items: Seq::empty(), ..settled.last() }));
            assert forall|k: int| 0 <= k < n - 1 implies #[trigger] self@.states[k]
                == settled.states[k] by {}
            assert(settled.states[n - 1] == settled.last());
            assert(self@.well_formed());
        }
        match seq_write_pxar_entry(
            self.output.archive_mut(),
            PXAR_GOODBYE,
            tail_bytes.as_slice(),
            &mut state.write_position,
        ) {
            Ok(()) => {},
            Err(e) => {
                return Err(e);
            },
        }
        proof {
            let whole = settled.put_item(settled.goodbye_item())->Ok_0;
            assert(whole.states.drop_last() =~= settled.states.drop_last());
            assert(whole.last() == (StateView { items: settled.last().items, ..state@ }));
            assert(self@ =~= EncoderView { states: whole.states.drop_last(), ..whole });
        }
        let end_offset: u64 = state.position();
        let payload_end_offset: u64 = state.payload_position();
        let encode_error = state.finish();
        let ghost rest = self@;
        match self.state.pop() {
            Some(mut parent) => {
                parent.write_position = end_offset;
                parent.payload_write_position = payload_end_offset;
                let file_offset: u64 = match state.file_offset {
                    Some(file_offset) => file_offset,
                    None => 0,
                };
                parent.items.push(
                    GoodbyeItem {
                        hash: state.file_hash,
                        offset: file_offset,
                        size: end_offset - file_offset,
                    },
                );
                // propagate errors
                parent.merge_error(encode_error);
                self.state.push(parent);
                proof {
                    assert(self@.states =~= rest.states.drop_last().push(parent@));
                    assert forall|k: int| 0 <= k < n - 2 implies #[trigger] self@.states[k]
                        == settled.states[k] by {}
                    assert(rest.states[n - 2] == settled.states[n - 2]);
                    assert(self@.states[n - 2] == parent@);
                    assert(self@.well_formed());
                }
                Ok(())
            },
            None => match encode_error {
                Some(EncodeError::IncompleteFile) => Err(Error::IncompleteFile),
                Some(EncodeError::IncompleteDirectory) => Err(Error::IncompleteDirectory),
                None => Ok(()),
            },
        }
    }

    /// Make the goodbye table of the innermost directory, which does not list its files any more.
    fn finish_goodbye_table(&mut self) -> (r: Result<Vec<u8>, Error>)
        requires
            old(self).well_formed(),
            old(self).open is None,
        ensures
            final(self).well_formed(),
            final(self).output == old(self).output,
            match r {
                Ok(content) => {
                    &&& old(self)@.finish_refusal() is None
                    &&& content@ == old(self)@.goodbye_item().content
                    &&& final(self)@ == old(self)@.with_last(
                        StateView { items: Seq::empty(), ..old(self)@.last() },
                    )
                },
                Err(e) => old(self)@.finish_refusal() == Some(e) && final(self)@ == old(self)@,
            },
    {
        let ghost before = self@;
        let len: usize = self.state.len();
        if len == 0 {
            return Err(Error::StateUnderflow);
        }
        if self.state[len - 1].items.len() as u64 >= (u64::MAX - HEADER_SIZE) / GOODBYE_ITEM_SIZE {
            return Err(Error::OutOfRange);
        }
        let mut state = match self.state.pop() {
            Some(state) => state,
            None => {
                return Err(Error::StateUnderflow);
            },
        };
        let goodbye_offset: u64 = state.position();
        proof {
            assert(before.states[before.states.len() - 1].well_formed());
            let view = state@;
            assert(view.well_formed());
            assert forall|i: int| 0 <= i < state.items@.len() implies state.items@[i].offset
                <= goodbye_offset by {
                assert(view.items[i].offset <= view.write_position);
            }
        }
        // "take" out the tail
        let mut tail: Vec<GoodbyeItem> = Vec::new();
        std::mem::swap(&mut tail, &mut state.items);
        let content = make_goodbye_content(&tail, goodbye_offset, state.entry_offset);
        self.state.push(state);
        proof {
            assert(state@.items =~= Seq::<GoodbyeItem>::empty());
            assert(self@.states =~= before.states.drop_last().push(state@));
            assert(self@ =~= before.with_last(state@));
            assert(self@.well_formed());
        }
        Ok(content)
    }

    /// Close the encoder instance and get the outputs back. This is mandatory, encodes the end for
    /// the optional payload output stream, if some is given
    pub fn close(self) -> (r: Result<PxarVariant<T, T>, Error>)
        requires
            self.well_formed(),
        ensures
            match r {
                Ok(output) => {
                    &&& self@.states.len() == 0
                    &&& output.archive_stream().written() == self@.archive
                    &&& output.archive_stream().flushed() == self@.archive
                    &&& match output.payload_stream() {
                        Some(p) => self@.payload matches Some(q) && p.written() == q
                            + payload_tail() && p.flushed() == q + payload_tail(),
                        None => self@.payload is None,
                    }
                },
                Err(Error::Io(_)) => !self.infallible() && self@.states.len() == 0,
                Err(e) => e == Error::UnfinishedDirectories && self@.states.len() > 0,
            },
    {
        if self.state.len() != 0 {
            return Err(Error::UnfinishedDirectories);
        }
        let mut output = self.output;
        let ghost payload = self@.payload;
        match output.payload_mut() {
            Some(payload_output) => {
                let mut dummy_position: u64 = 0;
                let nothing: Vec<u8> = Vec::new();
                proof {
                    header_of(PXAR_PAYLOAD_TAIL_MARKER, 0).lemma_wire_round_trip();
                }
                match seq_write_pxar_entry(
                    payload_output,
                    PXAR_PAYLOAD_TAIL_MARKER,
                    nothing.as_slice(),
                    &mut dummy_position,
                ) {
                    Ok(()) => {},
                    Err(e) => {
                        return Err(e);
                    },
                }
                proof {
                    assert(payload->0 + payload_tail() + nothing@ =~= payload->0 + payload_tail());
                }
                match flush(payload_output) {
                    Ok(()) => {},
                    Err(e) => {
                        return Err(e);
                    },
                }
            },
            None => {},
        }
        match flush(output.archive_mut()) {
            Ok(()) => Ok(output),
            Err(e) => Err(e),
        }
    }
}

/// Writer for a file object in a directory.
pub struct FileImpl<'a, S: SeqWrite> {
    /// The encoder, with this file open.
    pub encoder: &'a mut EncoderImpl<S>,
}

impl<'a, S: SeqWrite> FileImpl<'a, S> {
    pub open spec fn view(&self) -> EncoderView {
        self.encoder.view()
    }

    pub open spec fn well_formed(&self) -> bool {
        self.encoder.well_formed() && self@.open is Some
    }

    pub open spec fn infallible(&self) -> bool {
        self.encoder.infallible()
    }

    /// Get the file offset to be able to reference it with `add_hardlink`.
    pub fn file_offset(&self) -> (r: LinkOffset)
        requires
            self.well_formed(),
        ensures
            r.0 == self@.open->0.goodbye_item.offset,
    {
        match self.encoder.open {
            Some(file) => LinkOffset(file.goodbye_item.offset),
            None => LinkOffset(0),
        }
    }

    /// Write file data for the current file entry in a pxar archive.
    ///
    /// This forwards to the output's `SeqWrite::seq_write` and may write fewer bytes than
    /// requested. Check the return value for how many. There's also a `write_all` method available
    /// for convenience.
    pub fn write(&mut self, data: &[u8]) -> (r: Result<usize, Error>)
        requires
            old(self).well_formed(),
        ensures
            final(self).well_formed(),
            final(self).infallible() == old(self).infallible(),
            *final(final(self).encoder) == *final(old(self).encoder),
            final(self)@.same_directories(old(self)@),
            final(self)@.open->0.goodbye_item == old(self)@.open->0.goodbye_item,
            !(r matches Err(Error::Io(_))) ==> final(self)@.extends(old(self)@),
            r is Err ==> final(self)@.open == old(self)@.open,
            old(self)@.contents_refusal(data@) matches Some(e) ==> {
                &&& r == Err::<usize, Error>(e)
                &&& final(self)@ == old(self)@
            },
            match r {
                Ok(put) => {
                    &&& old(self)@.contents_refusal(data@) is None
                    &&& put <= data@.len()
                    &&& put == 0 ==> data@.len() == 0
                    &&& final(self)@ == old(self)@.with_contents(data@.take(put as int))
                },
                Err(Error::Io(_)) => !old(self).infallible(),
                Err(e) => old(self)@.contents_refusal(data@) == Some(e),
            },
    {
        self.encoder.write_some_contents(data)
    }

    /// Completely write file data for the current file entry in a pxar archive.
    pub fn write_all(&mut self, data: &[u8]) -> (r: Result<(), Error>)
        requires
            old(self).well_formed(),
        ensures
            final(self).well_formed(),
            final(self).infallible() == old(self).infallible(),
            *final(final(self).encoder) == *final(old(self).encoder),
            final(self)@.same_directories(old(self)@),
            final(self)@.open->0.goodbye_item == old(self)@.open->0.goodbye_item,
            !(r matches Err(Error::Io(_))) ==> final(self)@.extends(old(self)@),
            r is Err ==> final(self)@.open == old(self)@.open,
            old(self)@.contents_refusal(data@) matches Some(e) ==> {
                &&& r == Err::<(), Error>(e)
                &&& final(self)@ == old(self)@
            },
            match r {
                Ok(()) => old(self)@.contents_refusal(data@) is None && final(self)@ == old(
                    self,
                )@.with_contents(data@),
                Err(Error::Io(_)) => !old(self).infallible(),
                Err(e) => old(self)@.contents_refusal(data@) == Some(e),
            },
    {
        self.encoder.write_contents(data)
    }
}

proof fn lemma_preamble(d: EncoderView, prelude: Option<Seq<u8>>)
    requires
        d.states.len() > 0,
        d.last().write_position == 0,
        prelude is Some ==> d.version == FormatVersion::Version2,
    ensures
        d.put_items(preamble_items(d.version, prelude)) == (match d.put_version() {
            Ok(e) => match prelude {
                Some(p) => e.put_prelude(p),
                None => Ok(e),
            },
            Err(e) => Err(e),
        }),
        d.put_version() matches Ok(e) ==> e.states.len() == d.states.len(),
{
    let first = optional_item(PXAR_FORMAT_VERSION, optional_wire(d.version.number()));
    let second = optional_item(PXAR_PRELUDE, prelude);
    lemma_put_parts(d, first, second);
    lemma_put_nothing(d);
    match d.version.number() {
        Some(number) => {
            number.lemma_wire_round_trip();
            let item = ItemView { htype: PXAR_FORMAT_VERSION, content: number.wire() };
            lemma_put_first(d, seq![item]);
            assert(seq![item].skip(1) =~= Seq::<ItemView>::empty());
            header_of(PXAR_FORMAT_VERSION, 8).lemma_wire_round_trip();
            if let Ok(e) = d.put_item(item) {
                lemma_put_nothing(e);
            }
        },
        None => {},
    }
    if let Ok(e) = d.put_version() {
        lemma_put_nothing(e);
        if let Some(p) = prelude {
            let item = ItemView { htype: PXAR_PRELUDE, content: p };
            lemma_put_first(e, seq![item]);
            assert(seq![item].skip(1) =~= Seq::<ItemView>::empty());
            if let Ok(f) = e.put_item(item) {
                lemma_put_nothing(f);
            }
        }
    }
}

/// Writing moves the position forward and leaves the payload stream alone.
proof fn lemma_put_item_position(d: EncoderView, item: ItemView)
    ensures
        d.put_item(item) matches Ok(e) ==> e.states.len() == d.states.len()
            && e.last().write_position >= d.last().write_position && e.payload == d.payload,
{
}

proof fn lemma_put_items_position(d: EncoderView, items: Seq<ItemView>)
    ensures
        d.put_items(items) matches Ok(e) ==> e.states.len() == d.states.len()
            && e.last().write_position >= d.last().write_position && e.payload == d.payload,
{
    lemma_put_items(d.cursor(), items);
}

proof fn lemma_start_file_position(
    d: EncoderView,
    metadata: Option<MetadataView>,
    name: Seq<u8>,
)
    ensures
        d.start_file(metadata, name) matches Ok(e) ==> e.states.len() == d.states.len()
            && e.last().write_position >= d.last().write_position && e.payload == d.payload,
{
    lemma_put_item_position(d, filename_item(name));
    if let Ok(e) = d.put_filename(name) {
        if let Some(m) = metadata {
            lemma_put_items_position(e, metadata_items(m));
        }
    }
}

proof fn lemma_start_payload_position(d: EncoderView, size: u64)
    requires
        d.states.len() > 0,
    ensures
        d.start_payload(size) matches Ok(e) ==> e.states.len() == d.states.len()
            && e.last().write_position >= d.last().write_position && (e.payload is Some
            == d.payload is Some),
{
}

/// An item that may be missing.
pub open spec fn item_view(item: Option<(u64, &[u8])>) -> Option<ItemView> {
    match item {
        Some((htype, data)) => Some(ItemView { htype, content: data@ }),
        None => None,
    }
}

/// There is nothing left to settle.
proof fn lemma_settled_once(d: EncoderView)
    ensures
        d.settled().settled() == d.settled(),
{
}

/// The contents of optional metadata.
pub open spec fn metadata_view(metadata: Option<&Metadata>) -> Option<MetadataView> {
    match metadata {
        Some(m) => Some(m@),
        None => None,
    }
}

} // verus!
