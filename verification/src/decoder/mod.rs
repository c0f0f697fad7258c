//! The `pxar` decoder state machine.

use vstd::prelude::*;
use vstd::slice::slice_subrange;

use crate::decoder::model::{
    initial_decoder, is_attribute, lemma_decoder_follows, lemma_next_item, lemma_step_measure,
    DecoderView, ItemResult, State, StepView,
};
use crate::decoder::read::{
    lemma_advanced, lemma_advanced_follows, lemma_follows, seq_read_entry, seq_read_entry_or_eof,
    seq_read_exact_data, seq_read_position, seq_read_up_to, seq_skip,
};
use crate::entry::{Entry, EntryKind, EntryView, KindView};
use crate::errors::{Error, ItemName};
use crate::format::acl;
use crate::format::wire::Wire;
use crate::format::xattr::xattr_of;
use crate::format::{
    header_error, Device, Entry as Stat, FCaps, Hardlink, Header, QuotaProjectId, Stat_V1, Symlink,
    XAttr, HEADER_SIZE, PXAR_ACL_DEFAULT, PXAR_ACL_DEFAULT_GROUP, PXAR_ACL_DEFAULT_USER,
    PXAR_ACL_GROUP, PXAR_ACL_GROUP_OBJ, PXAR_ACL_USER, PXAR_DEVICE, PXAR_ENTRY, PXAR_ENTRY_V1,
    PXAR_FCAPS, PXAR_FILENAME, PXAR_GOODBYE, PXAR_HARDLINK, PXAR_PAYLOAD, PXAR_QUOTA_PROJID,
    PXAR_SYMLINK, PXAR_XATTR,
};
use crate::metadata::Metadata;
use crate::path;
use crate::util;

pub mod contents;
pub mod model;
pub mod read;
pub mod sync;

pub use crate::decoder::contents::Contents;
pub use crate::decoder::read::SeqRead;
pub use crate::decoder::sync::Decoder;

verus! {

broadcast use {lemma_follows, lemma_advanced_follows, lemma_decoder_follows};

/// The decoder state machine implementation.
pub struct DecoderImpl<T> {
    pub input: T,
    pub current_header: Header,
    pub entry: Entry,
    pub path_lengths: Vec<usize>,
    pub state: State,
    pub with_goodbye_tables: bool,
    /// The random access code uses decoders for sub-ranges which may not end in a `PAYLOAD` for
    /// entries like FIFOs or sockets, so there we explicitly allow an item to terminate with EOF.
    pub eof_after_entry: bool,
}

/// What one step of the decoder comes to.
enum Step {
    /// There is something to report: an entry, or the end of the archive.
    Report(Option<Entry>),
    /// There is nothing to report yet.
    Continue,
}

impl Step {
    spec fn view(&self) -> StepView {
        match *self {
            Step::Report(Some(entry)) => StepView::Report(Some(entry@)),
            Step::Report(None) => StepView::Report(None),
            Step::Continue => StepView::Continue,
        }
    }
}

/// Lengths as numbers.
pub open spec fn lengths(path_lengths: Seq<usize>) -> Seq<nat> {
    path_lengths.map_values(|len: usize| len as nat)
}

/// The contents of an optional entry.
pub open spec fn entry_view(entry: Option<Entry>) -> Option<EntryView> {
    match entry {
        Some(e) => Some(e@),
        None => None,
    }
}

/// A header whose first bytes have been read anew.
fn overwritten(header: &Header, data: Vec<u8>) -> (r: Header)
    requires
        data@.len() <= HEADER_SIZE,
    ensures
        r == Header::from_wire(data@ + header.wire().skip(data@.len() as int)),
        data@.len() == 0 ==> r == *header,
        data@.len() == HEADER_SIZE ==> r == Header::from_wire(data@),
{
    proof {
        header.lemma_wire_round_trip();
        assert(data@.len() == 0 ==> data@ + header.wire().skip(data@.len() as int)
            =~= header.wire());
        assert(data@.len() == HEADER_SIZE ==> data@ + header.wire().skip(data@.len() as int)
            =~= data@);
    }
    let mut bytes = data;
    let got: usize = bytes.len();
    let last = header.to_bytes();
    util::extend(&mut bytes, slice_subrange(last.as_slice(), got, last.len()));
    proof {
        assert(last@.subrange(got as int, last@.len() as int) =~= last@.skip(got as int));
    }
    Header::from_bytes(bytes.as_slice())
}

impl<I: SeqRead> DecoderImpl<I> {
    pub open spec fn view(&self) -> DecoderView {
        DecoderView {
            input: self.input.stream(),
            header: self.current_header,
            entry: self.entry@,
            path_lengths: lengths(self.path_lengths@),
            state: self.state,
            with_goodbye_tables: self.with_goodbye_tables,
            eof_after_entry: self.eof_after_entry,
        }
    }

    /// The decoder can be asked for the next entry.
    pub open spec fn well_formed(&self) -> bool {
        self@.well_formed()
    }

    /// The decoder is well-formed, or else in a payload whose header has been read over.
    pub open spec fn in_order(&self) -> bool {
        self.well_formed() || self.state is InPayload
    }

    /// The header of the current item is not needed any more, or the decoder is in a payload.
    pub open spec fn between_items(&self) -> bool {
        self.state is Default || self.state is InPayload
    }

    /// Decode an archive from its start.
    pub fn new(input: I) -> (r: Self)
        ensures
            r.well_formed(),
            r.input == input,
            r@ == initial_decoder(input.stream(), seq![util::SLASH], false),
    {
        let mut path: Vec<u8> = Vec::new();
        path.push(util::SLASH);
        proof {
            assert(path@ =~= seq![util::SLASH]);
        }
        Self::new_full(input, path, false)
    }

    /// Get the input.
    pub fn input(&self) -> (r: &I)
        ensures
            *r == self.input,
    {
        &self.input
    }

    /// Decode a part of an archive that starts with an entry of the given path.
    pub fn new_full(input: I, path: Vec<u8>, eof_after_entry: bool) -> (r: Self)
        ensures
            r.well_formed(),
            r.input == input,
            r@ == initial_decoder(input.stream(), path@, eof_after_entry),
    {
        let r = DecoderImpl {
            input,
            current_header: Header { htype: 0, full_size: 0 },
            entry: Entry { path, kind: EntryKind::GoodbyeTable, metadata: Metadata::default() },
            path_lengths: Vec::new(),
            state: State::Begin,
            with_goodbye_tables: false,
            eof_after_entry,
        };
        proof {
            assert(r@ =~= initial_decoder(input.stream(), path@, eof_after_entry));
        }
        r
    }

    /// Get the next file entry, recursing into directories.
    ///
    /// Where an archive is refused, the decoder is left as it was by then. Behind a payload what was
    /// read in place of the next item has then taken the place of the payload's header, and may be
    /// nothing to go on with.
    pub fn next(&mut self) -> (r: Option<Result<Entry, Error>>)
        requires
            old(self).well_formed(),
        ensures
            final(self).in_order(),
            !(r matches Some(Err(_))) ==> final(self).well_formed(),
            final(self).input.infallible() == old(self).input.infallible(),
            !(r matches Some(Err(Error::Io(_)))) ==> final(self)@.follows(old(self)@),
            r matches Some(Err(e)) ==> !(e is Io) ==> final(self)@ == old(self)@.refused(),
            match r {
                Some(Ok(entry)) => old(self)@.next() == Ok::<_, Error>(
                    (final(self)@, Some(entry@)),
                ),
                None => old(self)@.next() == Ok::<(DecoderView, Option<EntryView>), Error>(
                    (final(self)@, None),
                ),
                Some(Err(Error::Io(_))) => !old(self).input.infallible() && !old(
                    self,
                )@.needs_no_input(),
                Some(Err(e)) => old(self)@.next() == Err::<(DecoderView, Option<EntryView>), Error>(
                    e,
                ),
            },
    {
        match self.next_do() {
            Ok(Some(entry)) => Some(Ok(entry)),
            Ok(None) => None,
            Err(e) => Some(Err(e)),
        }
    }

    /// Get the next file entry, or `None` at the end of the archive.
    pub fn next_do(&mut self) -> (r: Result<Option<Entry>, Error>)
        requires
            old(self).well_formed(),
        ensures
            final(self).in_order(),
            r is Ok ==> final(self).well_formed(),
            final(self).input.infallible() == old(self).input.infallible(),
            !(r matches Err(Error::Io(_))) ==> final(self)@.follows(old(self)@),
            r matches Err(e) ==> !(e is Io) ==> final(self)@ == old(self)@.refused(),
            match r {
                Ok(entry) => old(self)@.next() == Ok::<_, Error>(
                    (final(self)@, entry_view(entry)),
                ),
                Err(Error::Io(_)) => !old(self).input.infallible() && !old(
                    self,
                )@.needs_no_input(),
                Err(e) => old(self)@.next() == Err::<(DecoderView, Option<EntryView>), Error>(e),
            },
    {
        loop
            invariant
                self.well_formed(),
                self.input.infallible() == old(self).input.infallible(),
                self@.follows(old(self)@),
                self@.next() == old(self)@.next(),
                old(self)@.needs_no_input() ==> self@ == old(self)@,
                self@.waiting() == old(self)@.waiting(),
            decreases self@.measure(),
        {
            proof {
                lemma_step_measure(self@);
            }
            match self.step() {
                Ok(Step::Report(entry)) => {
                    return Ok(entry);
                },
                Ok(Step::Continue) => {},
                Err(e) => {
                    return Err(e);
                },
            }
        }
    }

    fn step(&mut self) -> (r: Result<Step, Error>)
        requires
            old(self).well_formed(),
        ensures
            final(self).in_order(),
            r is Ok ==> final(self).well_formed(),
            final(self).input.infallible() == old(self).input.infallible(),
            !(r matches Err(Error::Io(_))) ==> final(self)@.follows(old(self)@),
            r is Err ==> final(self)@.path_lengths == old(self)@.path_lengths,
            r matches Err(e) ==> !(e is Io) ==> final(self)@ == old(self)@.step_refused(),
            match r {
                Ok(s) => old(self)@.step() == Ok::<_, Error>((final(self)@, s.view())),
                Err(Error::Io(_)) => !old(self).input.infallible() && !old(
                    self,
                )@.needs_no_input(),
                Err(e) => old(self)@.step() == Err::<(DecoderView, StepView), Error>(e),
            },
    {
        match self.state {
            State::Eof => Ok(Step::Report(None)),
            State::Begin => match self.read_next_entry() {
                Ok(entry) => Ok(Step::Report(Some(entry))),
                Err(e) => Err(e),
            },
            State::Default => {
                // we completely finished an entry, so now we're going "up" in the directory
                // hierarchy and parse the next PXAR_FILENAME or the PXAR_GOODBYE:
                match self.read_next_item() {
                    Ok(_) => self.at_boundary(),
                    Err(e) => Err(e),
                }
            },
            State::InPayload { offset } => self.leave_payload(offset),
            State::InGoodbyeTable => self.leave_goodbye_table(),
            State::InSpecialFile => {
                self.entry.clear_data();
                self.state = State::InDirectory;
                self.entry.kind = EntryKind::Directory;
                self.at_boundary()
            },
            State::InDirectory => {
                // We're at the next FILENAME or GOODBYE item.
                self.at_boundary()
            },
        }
    }

    /// Skip the rest of a payload and go on behind it.
    fn leave_payload(&mut self, offset: u64) -> (r: Result<Step, Error>)
        requires
            old(self).well_formed(),
            old(self).state == (State::InPayload { offset }),
        ensures
            final(self).in_order(),
            r is Ok ==> final(self).well_formed(),
            final(self).input.infallible() == old(self).input.infallible(),
            !(r matches Err(Error::Io(_))) ==> final(self)@.follows(old(self)@),
            r is Err ==> final(self)@.path_lengths == old(self)@.path_lengths,
            r matches Err(e) ==> !(e is Io) ==> final(self)@ == old(self)@.step_refused(),
            match r {
                Ok(s) => old(self)@.step() == Ok::<_, Error>((final(self)@, s.view())),
                Err(Error::Io(_)) => !old(self).input.infallible(),
                Err(e) => old(self)@.step() == Err::<(DecoderView, StepView), Error>(e),
            },
    {
        match self.skip_entry(offset) {
            Ok(()) => {},
            Err(e) => {
                return Err(e);
            },
        }
        match self.read_next_item() {
            Ok(_) => self.at_boundary(),
            Err(e) => Err(e),
        }
    }

    /// Skip a goodbye table and leave its directory.
    fn leave_goodbye_table(&mut self) -> (r: Result<Step, Error>)
        requires
            old(self).well_formed(),
            old(self).state == State::InGoodbyeTable,
        ensures
            final(self).well_formed(),
            final(self).input.infallible() == old(self).input.infallible(),
            !(r matches Err(Error::Io(_))) ==> final(self)@.follows(old(self)@),
            r is Err ==> final(self)@.path_lengths == old(self)@.path_lengths,
            r matches Err(e) ==> !(e is Io) ==> final(self)@ == old(self)@.step_refused(),
            match r {
                Ok(s) => old(self)@.step() == Ok::<_, Error>((final(self)@, s.view())),
                Err(Error::Io(_)) => !old(self).input.infallible(),
                Err(e) => old(self)@.step() == Err::<(DecoderView, StepView), Error>(e),
            },
    {
        match self.skip_entry(0) {
            Ok(()) => {},
            Err(e) => {
                return Err(e);
            },
        }
        let ghost before = self.path_lengths@;
        if self.path_lengths.pop().is_none() {
            // The root directory has an entry containing '1'.
            return Err(Error::EofInGoodbyeTable);
        }
        proof {
            assert(lengths(self.path_lengths@) =~= lengths(before).drop_last());
        }
        if self.path_lengths.len() == 0 {
            // we are at the end of the archive now
            self.state = State::Eof;
            return Ok(Step::Report(None));
        }
        // We left the directory, now keep going in our parent.

        self.state = State::Default;
        Ok(Step::Continue)
    }

    /// The current item has to be a `FILENAME` or a `GOODBYE`.
    fn at_boundary(&mut self) -> (r: Result<Step, Error>)
        requires
            old(self).in_order(),
            header_error(old(self).current_header) is None,
        ensures
            final(self).in_order(),
            r is Ok ==> final(self).well_formed(),
            final(self).input.infallible() == old(self).input.infallible(),
            !(r matches Err(Error::Io(_))) ==> final(self)@.follows(old(self)@),
            r is Err ==> final(self)@.path_lengths == old(self)@.path_lengths,
            r matches Err(e) ==> !(e is Io) ==> final(self)@ == old(self)@.boundary_refused(),
            match r {
                Ok(s) => old(self)@.at_boundary() == Ok::<_, Error>((final(self)@, s.view())),
                Err(Error::Io(_)) => {
                    &&& !old(self).input.infallible()
                    &&& old(self).current_header.htype == PXAR_FILENAME
                },
                Err(e) => old(self)@.at_boundary() == Err::<(DecoderView, StepView), Error>(e),
            },
    {
        if self.current_header.htype == PXAR_FILENAME {
            match self.handle_file_entry() {
                Ok(entry) => Ok(Step::Report(Some(entry))),
                Err(e) => Err(e),
            }
        } else if self.current_header.htype == PXAR_GOODBYE {
            self.state = State::InGoodbyeTable;
            if self.with_goodbye_tables {
                self.entry.clear_data();
                Ok(Step::Report(Some(Entry::internal_default())))
            } else {
                // go up to goodbye table handling
                Ok(Step::Continue)
            }
        } else {
            Err(Error::ExpectedFilenameOrGoodbye { htype: self.current_header.htype })
        }
    }

    /// Get the size of the current contents, if the entry has contents.
    pub fn content_size(&self) -> (r: Option<u64>)
        requires
            self.well_formed(),
        ensures
            match r {
                Some(size) => self@.state is InPayload && size == self@.content_size(),
                None => !(self@.state is InPayload),
            },
    {
        if let State::InPayload { .. } = self.state {
            Some(self.current_header.content_size())
        } else {
            None
        }
    }

    /// Get a reader for the contents of the current entry, if the entry has contents. What is read
    /// there will not be skipped when the decoder moves on.
    pub fn content_reader<'a>(&'a mut self) -> (r: Option<Contents<'a, I>>)
        requires
            old(self).well_formed(),
        ensures
            match r {
                Some(c) => {
                    &&& old(self).state matches State::InPayload { offset }
                    &&& *c.input == old(self).input
                    &&& c.consumed() == offset
                    &&& c.len == old(self)@.content_size()
                    &&& *final(self) == (DecoderImpl {
                        input: *final(c.input),
                        state: State::InPayload { offset: *final(c.at) },
                        ..*old(self)
                    })
                },
                None => !(old(self).state is InPayload) && *final(self) == *old(self),
            },
    {
        match &mut self.state {
            State::InPayload { offset } => Some(
                Contents::new(&mut self.input, offset, self.current_header.content_size()),
            ),
            _ => None,
        }
    }

    fn handle_file_entry(&mut self) -> (r: Result<Entry, Error>)
        requires
            old(self).in_order(),
            header_error(old(self).current_header) is None,
            old(self).current_header.htype == PXAR_FILENAME,
        ensures
            final(self).in_order(),
            r is Ok ==> final(self).well_formed(),
            final(self).input.infallible() == old(self).input.infallible(),
            !(r matches Err(Error::Io(_))) ==> final(self)@.follows(old(self)@),
            r is Err ==> final(self)@.path_lengths == old(self)@.path_lengths,
            r matches Err(e) ==> !(e is Io) ==> final(self)@ == old(self)@.file_refused(),
            match r {
                Ok(entry) => old(self)@.file_entry() == Ok::<_, Error>((final(self)@, entry@)),
                Err(Error::Io(_)) => !old(self).input.infallible(),
                Err(e) => old(self)@.file_entry() == Err::<(DecoderView, EntryView), Error>(e),
            },
    {
        let mut data = match self.read_entry_as_bytes() {
            Ok(data) => data,
            Err(e) => {
                return Err(e);
            },
        };
        // filenames are zero terminated!
        match data.pop() {
            Some(0) => {},
            _ => {
                return Err(Error::MissingTerminatingZero);
            },
        }
        match util::validate_filename(data.as_slice()) {
            Ok(()) => {},
            Err(e) => {
                return Err(e);
            },
        }
        match self.set_path(data.as_slice()) {
            Ok(()) => {},
            Err(e) => {
                return Err(e);
            },
        }
        self.read_next_entry()
    }

    /// Go back to the path of the directory that we are in.
    fn reset_path(&mut self) -> (r: Result<(), Error>)
        requires
            old(self).in_order(),
        ensures
            final(self).in_order(),
            final(self).state == old(self).state,
            final(self).input == old(self).input,
            final(self)@.follows(old(self)@),
            match r {
                Ok(()) => {
                    &&& old(self)@.path_lengths.len() > 0
                    &&& final(self)@ == (DecoderView {
                        entry: EntryView {
                            path: if old(self)@.path_lengths.last() < old(self)@.entry.path.len() {
                                old(self)@.entry.path.take(old(self)@.path_lengths.last() as int)
                            } else {
                                old(self)@.entry.path
                            },
                            ..old(self)@.entry
                        },
                        ..old(self)@
                    })
                },
                Err(e) => e == Error::PathUnderrun && old(self)@.path_lengths.len() == 0
                    && final(self)@ == old(self)@,
            },
    {
        if self.path_lengths.len() == 0 {
            return Err(Error::PathUnderrun);
        }
        let path_len: usize = self.path_lengths[self.path_lengths.len() - 1];
        self.entry.path.truncate(path_len);
        Ok(())
    }

    /// Set the path to that of a file in the directory that we are in.
    fn set_path(&mut self, name: &[u8]) -> (r: Result<(), Error>)
        requires
            old(self).in_order(),
        ensures
            final(self).in_order(),
            final(self).state == old(self).state,
            final(self).input == old(self).input,
            final(self)@.follows(old(self)@),
            match r {
                Ok(()) => {
                    &&& old(self)@.path_lengths.len() > 0
                    &&& final(self)@ == (DecoderView {
                        entry: EntryView {
                            path: old(self)@.path_in_directory(name@),
                            ..old(self)@.entry
                        },
                        ..old(self)@
                    })
                },
                Err(e) => e == Error::PathUnderrun && old(self)@.path_lengths.len() == 0
                    && final(self)@ == old(self)@,
            },
    {
        match self.reset_path() {
            Ok(()) => {},
            Err(e) => {
                return Err(e);
            },
        }
        path::push(&mut self.entry.path, name);
        Ok(())
    }

    fn read_next_entry_or_eof(&mut self) -> (r: Result<Option<Entry>, Error>)
        requires
            old(self).in_order(),
        ensures
            final(self).well_formed(),
            final(self).input.infallible() == old(self).input.infallible(),
            !(r matches Err(Error::Io(_))) ==> final(self)@.follows(old(self)@),
            !(r matches Ok(Some(_))) ==> final(self)@.path_lengths == old(self)@.path_lengths,
            r matches Err(e) ==> !(e is Io) ==> final(self)@ == old(self)@.entry_refused(),
            match r {
                Ok(Some(entry)) => old(self)@.next_entry_or_eof() == Ok::<_, Error>(
                    Some((final(self)@, entry@)),
                ),
                Ok(None) => final(self)@ == old(self)@.restarted() && old(
                    self,
                )@.next_entry_or_eof() == Ok::<Option<(DecoderView, EntryView)>, Error>(None),
                Err(Error::Io(_)) => !old(self).input.infallible(),
                Err(e) => old(self)@.next_entry_or_eof() == Err::<
                    Option<(DecoderView, EntryView)>,
                    Error,
                >(e),
            },
    {
        self.state = State::Default;
        self.entry.clear_data();
        let header: Header = match seq_read_entry_or_eof(&mut self.input) {
            Ok(Some(header)) => header,
            Ok(None) => {
                return Ok(None);
            },
            Err(e) => {
                return Err(e);
            },
        };
        match header.check_header_size() {
            Ok(()) => {},
            Err(e) => {
                return Err(e);
            },
        }
        let htype: u64 = header.htype;
        if htype == PXAR_HARDLINK {
            // The only "dangling" header without an 'Entry' in front of it because it does not
            // carry its own metadata.
            self.current_header = header;
            // Hardlinks have no metadata and no additional items.
            let link = match self.read_hardlink() {
                Ok(link) => link,
                Err(e) => {
                    return Err(e);
                },
            };
            self.entry.kind = EntryKind::Hardlink(link);
            Ok(Some(self.entry.take()))
        } else if htype == PXAR_ENTRY || htype == PXAR_ENTRY_V1 {
            match self.read_stat(htype) {
                Ok(()) => {},
                Err(e) => {
                    return Err(e);
                },
            }
            match self.read_rest_of_entry() {
                Ok(()) => {},
                Err(e) => {
                    return Err(e);
                },
            }
            if self.entry.is_dir() {
                let ghost before = self.path_lengths@;
                self.path_lengths.push(self.entry.path.len());
                proof {
                    assert(lengths(self.path_lengths@) =~= lengths(before).push(
                        self.entry.path@.len(),
                    ));
                }
            }
            Ok(Some(self.entry.take()))
        } else {
            Err(Error::ExpectedEntry { htype })
        }
    }

    /// Read the stat data of an entry in either version.
    fn read_stat(&mut self, htype: u64) -> (r: Result<(), Error>)
        requires
            old(self).state == State::Default,
            htype == PXAR_ENTRY || htype == PXAR_ENTRY_V1,
        ensures
            final(self).well_formed(),
            final(self).state == State::Default,
            final(self).input.infallible() == old(self).input.infallible(),
            !(r matches Err(Error::Io(_))) ==> final(self)@.follows(old(self)@),
            r is Err ==> final(self).same_but_input(old(self)),
            r matches Err(e) ==> !(e is Io) ==> final(self)@ == old(self)@.passed(
                old(self)@.input.unread.len(),
            ),
            match r {
                Ok(()) => old(self)@.stat_item(htype) == Ok::<_, Error>(final(self)@),
                Err(Error::Io(_)) => !old(self).input.infallible(),
                Err(e) => old(self)@.stat_item(htype) == Err::<DecoderView, Error>(e),
            },
    {
        let stat: Stat = if htype == PXAR_ENTRY {
            match seq_read_entry(&mut self.input) {
                Ok(stat) => stat,
                Err(e) => {
                    return Err(e);
                },
            }
        } else {
            let stat: Stat_V1 = match seq_read_entry(&mut self.input) {
                Ok(stat) => stat,
                Err(e) => {
                    return Err(e);
                },
            };
            Stat::from(stat)
        };
        self.entry.metadata = Metadata::from_stat(stat);
        self.current_header = Header { htype: 0, full_size: 0 };
        Ok(())
    }

    /// Read all the items of an entry.
    fn read_rest_of_entry(&mut self) -> (r: Result<(), Error>)
        requires
            old(self).state == State::Default,
        ensures
            final(self).well_formed(),
            final(self).input.infallible() == old(self).input.infallible(),
            !(r matches Err(Error::Io(_))) ==> final(self)@.follows(old(self)@),
            r is Err ==> final(self)@.path_lengths == old(self)@.path_lengths,
            r matches Err(e) ==> !(e is Io) ==> final(self)@ == old(self)@.rest_refused(),
            match r {
                Ok(()) => old(self)@.rest_of_entry() == Ok::<_, Error>(final(self)@),
                Err(Error::Io(_)) => !old(self).input.infallible(),
                Err(e) => old(self)@.rest_of_entry() == Err::<DecoderView, Error>(e),
            },
    {
        loop
            invariant
                self.well_formed(),
                self.state == State::Default,
                self.input.infallible() == old(self).input.infallible(),
                self@.follows(old(self)@),
                self@.path_lengths == old(self)@.path_lengths,
                self@.rest_refused() == old(self)@.rest_refused(),
                self@.rest_of_entry() == old(self)@.rest_of_entry(),
            decreases self@.input.unread.len(),
        {
            proof {
                lemma_next_item(self@);
            }
            match self.read_next_item_or_eof() {
                Ok(Some(ItemResult::Entry)) => {
                    return Ok(());
                },
                Ok(Some(ItemResult::Attribute)) => {},
                Ok(None) => {
                    if !self.eof_after_entry {
                        return Err(Error::EofInEntry);
                    }
                    // Single FIFOs and sockets (as received from the Accessor) won't reach a
                    // FILENAME/GOODBYE entry:

                    if self.entry.metadata.is_fifo() {
                        self.entry.kind = EntryKind::Fifo;
                    } else if self.entry.metadata.is_socket() {
                        self.entry.kind = EntryKind::Socket;
                    } else {
                        self.entry.kind = EntryKind::Directory;
                    }
                    return Ok(());
                },
                Err(e) => {
                    return Err(e);
                },
            }
        }
    }

    fn read_next_entry(&mut self) -> (r: Result<Entry, Error>)
        requires
            old(self).in_order(),
        ensures
            final(self).well_formed(),
            final(self).input.infallible() == old(self).input.infallible(),
            !(r matches Err(Error::Io(_))) ==> final(self)@.follows(old(self)@),
            r is Err ==> final(self)@.path_lengths == old(self)@.path_lengths,
            r matches Err(e) ==> !(e is Io) ==> final(self)@ == old(self)@.entry_refused(),
            match r {
                Ok(entry) => old(self)@.next_entry() == Ok::<_, Error>((final(self)@, entry@)),
                Err(Error::Io(_)) => !old(self).input.infallible(),
                Err(e) => old(self)@.next_entry() == Err::<(DecoderView, EntryView), Error>(e),
            },
    {
        match self.read_next_entry_or_eof() {
            Ok(Some(entry)) => Ok(entry),
            Ok(None) => Err(Error::UnexpectedEof),
            Err(e) => Err(e),
        }
    }

    fn read_next_item(&mut self) -> (r: Result<ItemResult, Error>)
        requires
            old(self).between_items(),
        ensures
            final(self).in_order(),
            final(self).input.infallible() == old(self).input.infallible(),
            !(r matches Err(Error::Io(_))) ==> final(self)@.follows(old(self)@),
            r is Err ==> final(self)@.path_lengths == old(self)@.path_lengths,
            r matches Err(e) ==> !(e is Io) ==> final(self)@ == old(self)@.next_item_refused(),
            match r {
                Ok(item) => header_error(final(self).current_header) is None && old(
                    self,
                )@.next_item() == Ok::<_, Error>((final(self)@, item)),
                Err(Error::Io(_)) => !old(self).input.infallible(),
                Err(e) => old(self)@.next_item() == Err::<(DecoderView, ItemResult), Error>(e),
            },
    {
        match self.read_next_item_or_eof() {
            Ok(Some(item)) => Ok(item),
            Ok(None) => Err(Error::UnexpectedEof),
            Err(e) => Err(e),
        }
    }

    // NOTE: The random accessor will decode FIFOs and Sockets in a decoder instance with a ranged
    // reader so there is no PAYLOAD or GOODBYE TABLE to "end" an entry.
    fn read_next_item_or_eof(&mut self) -> (r: Result<Option<ItemResult>, Error>)
        requires
            old(self).between_items(),
        ensures
            final(self).in_order(),
            old(self).state is Default ==> final(self).well_formed(),
            final(self).input.infallible() == old(self).input.infallible(),
            !(r matches Err(Error::Io(_))) ==> final(self)@.follows(old(self)@),
            r is Err ==> final(self)@.path_lengths == old(self)@.path_lengths,
            r matches Err(e) ==> !(e is Io) ==> final(self)@ == old(self)@.next_item_refused(),
            match r {
                Ok(Some(item)) => {
                    &&& header_error(final(self).current_header) is None
                    &&& item is Attribute ==> final(self).state == old(self).state
                    &&& old(self)@.next_item_or_eof() == Ok::<_, Error>(
                        Some((final(self)@, item)),
                    )
                },
                Ok(None) => final(self)@ == old(self)@ && old(self)@.next_item_or_eof() == Ok::<
                    Option<(DecoderView, ItemResult)>,
                    Error,
                >(None),
                Err(Error::Io(_)) => !old(self).input.infallible(),
                Err(e) => old(self)@.next_item_or_eof() == Err::<
                    Option<(DecoderView, ItemResult)>,
                    Error,
                >(e),
            },
    {
        match self.read_next_header_or_eof() {
            Ok(Some(())) => match self.read_current_item() {
                Ok(item) => Ok(Some(item)),
                Err(e) => Err(e),
            },
            Ok(None) => Ok(None),
            Err(e) => Err(e),
        }
    }

    fn read_next_header_or_eof(&mut self) -> (r: Result<Option<()>, Error>)
        requires
            old(self).between_items(),
        ensures
            final(self).state == old(self).state,
            final(self).input.infallible() == old(self).input.infallible(),
            !(r matches Err(Error::Io(_))) ==> final(self)@.follows(old(self)@),
            r is Err ==> final(self)@.path_lengths == old(self)@.path_lengths,
            r matches Err(e) ==> !(e is Io) ==> final(self)@ == old(self)@.header_refused(),
            match r {
                Ok(Some(())) => header_error(final(self).current_header) is None && old(
                    self,
                )@.next_header_or_eof() == Ok::<_, Error>(Some(final(self)@)),
                Ok(None) => final(self)@ == old(self)@ && old(self)@.next_header_or_eof() == Ok::<
                    Option<DecoderView>,
                    Error,
                >(None),
                Err(Error::Io(_)) => !old(self).input.infallible(),
                Err(e) => old(self)@.next_header_or_eof() == Err::<Option<DecoderView>, Error>(e),
            },
    {
        let (data, failure) = seq_read_up_to(&mut self.input, 16);
        let got: usize = data.len();
        proof {
            if got < 16 && failure is None {
                assert(data@ =~= old(self)@.input.unread);
            }
        }
        self.current_header = overwritten(&self.current_header, data);
        match failure {
            Some(e) => Err(e),
            None => if got == 0 {
                Ok(None)
            } else if got < 16 {
                Err(Error::UnexpectedEof)
            } else {
                match self.current_header.check_header_size() {
                    Ok(()) => Ok(Some(())),
                    Err(e) => Err(e),
                }
            },
        }
    }

    /// Read the next item, the header is already loaded.
    fn read_current_item(&mut self) -> (r: Result<ItemResult, Error>)
        requires
            old(self).between_items(),
            header_error(old(self).current_header) is None,
        ensures
            final(self).in_order(),
            old(self).state is Default ==> final(self).well_formed(),
            header_error(final(self).current_header) is None,
            final(self).input.infallible() == old(self).input.infallible(),
            !(r matches Err(Error::Io(_))) ==> final(self)@.follows(old(self)@),
            r is Err ==> final(self).same_but_input(old(self)),
            r matches Err(e) ==> !(e is Io) ==> final(self)@ == old(self)@.item_refused(),
            old(self)@.item_refusal() matches Some(e) ==> {
                &&& r == Err::<ItemResult, Error>(e)
                &&& final(self)@ == old(self)@
            },
            match r {
                Ok(item) => {
                    &&& item is Attribute ==> final(self).state == old(self).state
                    &&& old(self)@.current_item() == Ok::<_, Error>((final(self)@, item))
                },
                Err(Error::Io(_)) => !old(self).input.infallible(),
                Err(e) => old(self)@.current_item() == Err::<(DecoderView, ItemResult), Error>(e),
            },
    {
        let htype: u64 = self.current_header.htype;
        if htype == PXAR_SYMLINK {
            match self.read_symlink() {
                Ok(link) => {
                    self.entry.kind = EntryKind::Symlink(link);
                    Ok(ItemResult::Entry)
                },
                Err(e) => Err(e),
            }
        } else if htype == PXAR_HARDLINK {
            Err(Error::UnexpectedHardlink)
        } else if htype == PXAR_DEVICE {
            match self.read_device() {
                Ok(device) => {
                    self.entry.kind = EntryKind::Device(device);
                    Ok(ItemResult::Entry)
                },
                Err(e) => Err(e),
            }
        } else if htype == PXAR_PAYLOAD {
            let offset: Option<u64> = match seq_read_position(&mut self.input) {
                Ok(offset) => offset,
                Err(e) => {
                    return Err(e);
                },
            };
            self.entry.kind =
            EntryKind::File { size: self.current_header.content_size(), offset };
            self.state = State::InPayload { offset: 0 };
            Ok(ItemResult::Entry)
        } else if htype == PXAR_FILENAME || htype == PXAR_GOODBYE {
            if self.entry.metadata.is_fifo() {
                self.state = State::InSpecialFile;
                self.entry.kind = EntryKind::Fifo;
            } else if self.entry.metadata.is_socket() {
                self.state = State::InSpecialFile;
                self.entry.kind = EntryKind::Socket;
            } else {
                // As a shortcut this is copy-pasted to `step`'s `InSpecialFile` case.
                // Keep in mind when editing this!
                self.state = State::InDirectory;
                self.entry.kind = EntryKind::Directory;
            }
            Ok(ItemResult::Entry)
        } else {
            self.read_attribute()
        }
    }

    /// Read an item that adds to the metadata of the entry.
    fn read_attribute(&mut self) -> (r: Result<ItemResult, Error>)
        requires
            old(self).between_items(),
            header_error(old(self).current_header) is None,
            old(self).current_header.htype != PXAR_SYMLINK,
            old(self).current_header.htype != PXAR_HARDLINK,
            old(self).current_header.htype != PXAR_DEVICE,
            old(self).current_header.htype != PXAR_PAYLOAD,
            old(self).current_header.htype != PXAR_FILENAME,
            old(self).current_header.htype != PXAR_GOODBYE,
        ensures
            final(self).state == old(self).state,
            final(self).current_header == old(self).current_header,
            final(self).input.infallible() == old(self).input.infallible(),
            !(r matches Err(Error::Io(_))) ==> final(self)@.follows(old(self)@),
            r is Err ==> final(self).same_but_input(old(self)),
            r matches Err(e) ==> !(e is Io) ==> final(self)@ == old(self)@.item_refused(),
            old(self)@.item_refusal() matches Some(e) ==> {
                &&& r == Err::<ItemResult, Error>(e)
                &&& final(self)@ == old(self)@
            },
            match r {
                Ok(item) => item is Attribute && is_attribute(old(self).current_header.htype)
                    && old(self)@.attribute_item() == Ok::<_, Error>(final(self)@),
                Err(Error::Io(_)) => !old(self).input.infallible(),
                Err(e) => if is_attribute(old(self).current_header.htype) {
                    old(self)@.attribute_item() == Err::<DecoderView, Error>(e)
                } else {
                    e == Error::UnexpectedEntryType { htype: old(self).current_header.htype }
                },
            },
    {
        let htype: u64 = self.current_header.htype;
        if htype == PXAR_XATTR {
            match self.read_xattr() {
                Ok(xattr) => {
                    self.entry.metadata.xattrs.push(xattr);
                    proof {
                        assert(self@.entry.metadata.xattrs =~= old(
                            self,
                        )@.entry.metadata.xattrs.push(xattr@));
                    }
                },
                Err(e) => {
                    return Err(e);
                },
            }
        } else if htype == PXAR_FCAPS {
            if self.entry.metadata.fcaps.is_some() {
                return Err(Error::MultipleFCaps);
            }
            match self.read_fcaps() {
                Ok(entry) => {
                    self.entry.metadata.fcaps = Some(entry);
                },
                Err(e) => {
                    return Err(e);
                },
            }
        } else if htype == PXAR_QUOTA_PROJID {
            if self.entry.metadata.quota_project_id.is_some() {
                return Err(Error::MultipleQuotaProjectIds);
            }
            match self.read_quota_project_id() {
                Ok(entry) => {
                    self.entry.metadata.quota_project_id = Some(entry);
                },
                Err(e) => {
                    return Err(e);
                },
            }
        } else {
            return self.read_acl();
        }
        Ok(ItemResult::Attribute)
    }

    /// Read an ACL item.
    fn read_acl(&mut self) -> (r: Result<ItemResult, Error>)
        requires
            old(self).between_items(),
            header_error(old(self).current_header) is None,
            old(self).current_header.htype != PXAR_SYMLINK,
            old(self).current_header.htype != PXAR_HARDLINK,
            old(self).current_header.htype != PXAR_DEVICE,
            old(self).current_header.htype != PXAR_PAYLOAD,
            old(self).current_header.htype != PXAR_FILENAME,
            old(self).current_header.htype != PXAR_GOODBYE,
            old(self).current_header.htype != PXAR_XATTR,
            old(self).current_header.htype != PXAR_FCAPS,
            old(self).current_header.htype != PXAR_QUOTA_PROJID,
        ensures
            final(self).state == old(self).state,
            final(self).current_header == old(self).current_header,
            final(self).input.infallible() == old(self).input.infallible(),
            !(r matches Err(Error::Io(_))) ==> final(self)@.follows(old(self)@),
            r is Err ==> final(self).same_but_input(old(self)),
            r matches Err(e) ==> !(e is Io) ==> final(self)@ == old(self)@.item_refused(),
            old(self)@.item_refusal() matches Some(e) ==> {
                &&& r == Err::<ItemResult, Error>(e)
                &&& final(self)@ == old(self)@
            },
            match r {
                Ok(item) => item is Attribute && is_attribute(old(self).current_header.htype)
                    && old(self)@.acl_item() == Ok::<_, Error>(final(self)@),
                Err(Error::Io(_)) => !old(self).input.infallible(),
                Err(e) => if is_attribute(old(self).current_header.htype) {
                    old(self)@.acl_item() == Err::<DecoderView, Error>(e)
                } else {
                    e == Error::UnexpectedEntryType { htype: old(self).current_header.htype }
                },
            },
    {
        let htype: u64 = self.current_header.htype;
        if htype == PXAR_ACL_USER || htype == PXAR_ACL_DEFAULT_USER {
            match self.read_acl_user() {
                Ok(entry) => {
                    if htype == PXAR_ACL_USER {
                        self.entry.metadata.acl.users.push(entry);
                    } else {
                        self.entry.metadata.acl.default_users.push(entry);
                    }
                },
                Err(e) => {
                    return Err(e);
                },
            }
        } else if htype == PXAR_ACL_GROUP || htype == PXAR_ACL_DEFAULT_GROUP {
            match self.read_acl_group() {
                Ok(entry) => {
                    if htype == PXAR_ACL_GROUP {
                        self.entry.metadata.acl.groups.push(entry);
                    } else {
                        self.entry.metadata.acl.default_groups.push(entry);
                    }
                },
                Err(e) => {
                    return Err(e);
                },
            }
        } else if htype == PXAR_ACL_GROUP_OBJ {
            if self.entry.metadata.acl.group_obj.is_some() {
                return Err(Error::MultipleAclGroupObjects);
            }
            match self.read_acl_group_object() {
                Ok(entry) => {
                    self.entry.metadata.acl.group_obj = Some(entry);
                },
                Err(e) => {
                    return Err(e);
                },
            }
        } else if htype == PXAR_ACL_DEFAULT {
            if self.entry.metadata.acl.default.is_some() {
                return Err(Error::MultipleAclDefaults);
            }
            match self.read_acl_default() {
                Ok(entry) => {
                    self.entry.metadata.acl.default = Some(entry);
                },
                Err(e) => {
                    return Err(e);
                },
            }
        } else {
            return Err(Error::UnexpectedEntryType { htype });
        }
        Ok(ItemResult::Attribute)
    }

    //
    // Local read helpers.
    //
    /// Nothing but the input differs.
    pub open spec fn same_but_input(&self, other: &Self) -> bool {
        &&& self.current_header == other.current_header
        &&& self.entry == other.entry
        &&& self.path_lengths == other.path_lengths
        &&& self.state == other.state
        &&& self.with_goodbye_tables == other.with_goodbye_tables
        &&& self.eof_after_entry == other.eof_after_entry
        &&& self.input.infallible() == other.input.infallible()
    }

    fn skip_entry(&mut self, offset: u64) -> (r: Result<(), Error>)
        requires
            HEADER_SIZE + offset <= old(self).current_header.full_size,
        ensures
            final(self).same_but_input(old(self)),
            !(r matches Err(Error::Io(_))) ==> final(self)@.follows(old(self)@),
            r matches Err(e) ==> !(e is Io) ==> final(self)@ == old(self)@.passed(
                (old(self)@.content_size() - offset) as nat,
            ),
            match r {
                Ok(()) => old(self)@.skip_content(offset) == Ok::<_, Error>(final(self)@),
                Err(Error::Io(_)) => !old(self).input.infallible(),
                Err(e) => old(self)@.skip_content(offset) == Err::<DecoderView, Error>(e),
            },
    {
        let len: u64 = self.current_header.content_size() - offset;
        seq_skip(&mut self.input, len)
    }

    fn read_entry_as_bytes(&mut self) -> (r: Result<Vec<u8>, Error>)
        requires
            header_error(old(self).current_header) is None,
            old(self)@.content_size() <= u32::MAX,
        ensures
            final(self).same_but_input(old(self)),
            !(r matches Err(Error::Io(_))) ==> final(self)@.follows(old(self)@),
            r matches Err(e) ==> !(e is Io) ==> final(self)@ == old(self)@.passed(
                old(self)@.content_size(),
            ),
            match r {
                Ok(data) => old(self)@.take_content() == Ok::<_, Error>((data@, final(self)@)),
                Err(Error::Io(_)) => !old(self).input.infallible(),
                Err(e) => old(self)@.take_content() == Err::<(Seq<u8>, DecoderView), Error>(e),
            },
    {
        let size: u64 = self.current_header.content_size();
        seq_read_exact_data(&mut self.input, size as usize)
    }

    /// Helper to read a fixed-size item while checking its size.
    fn read_simple_entry<E: Wire>(&mut self, what: ItemName) -> (r: Result<E, Error>)
        requires
            header_error(old(self).current_header) is None,
            E::wire_size() <= u32::MAX,
        ensures
            final(self).same_but_input(old(self)),
            !(r matches Err(Error::Io(_))) ==> final(self)@.follows(old(self)@),
            r matches Err(e) ==> !(e is Io) && old(self)@.size_error(
                what,
                E::wire_size(),
            ) is None ==> final(self)@ == old(self)@.passed(old(self)@.content_size()),
            old(self)@.size_error(what, E::wire_size()) matches Some(e) ==> {
                &&& r == Err::<E, Error>(e)
                &&& final(self)@ == old(self)@
            },
            match r {
                Ok(entry) => old(self)@.take_simple(what, E::wire_size()) matches Ok((data, d))
                    && entry == E::from_wire(data) && final(self)@ == d,
                Err(Error::Io(_)) => !old(self).input.infallible(),
                Err(e) => old(self)@.take_simple(what, E::wire_size()) == Err::<
                    (Seq<u8>, DecoderView),
                    Error,
                >(e),
            },
    {
        let size: u64 = self.current_header.content_size();
        let expected: u64 = E::size() as u64;
        if size != expected {
            return Err(Error::BadSize { what, size, expected });
        }
        seq_read_entry(&mut self.input)
    }

    //
    // Read functions for PXAR components.
    //
    fn read_xattr(&mut self) -> (r: Result<XAttr, Error>)
        requires
            header_error(old(self).current_header) is None,
            old(self).current_header.htype == PXAR_XATTR,
        ensures
            final(self).same_but_input(old(self)),
            !(r matches Err(Error::Io(_))) ==> final(self)@.follows(old(self)@),
            r matches Err(e) ==> !(e is Io) ==> final(self)@ == old(self)@.passed(
                old(self)@.content_size(),
            ),
            match r {
                Ok(x) => old(self)@.take_content() matches Ok((data, d)) && xattr_of(data) == Some(
                    x@,
                ) && final(self)@ == d,
                Err(Error::Io(_)) => !old(self).input.infallible(),
                Err(e) => match old(self)@.take_content() {
                    Ok((data, _)) => xattr_of(data) is None && e == Error::MissingXAttrSeparator,
                    Err(e2) => e == e2,
                },
            },
    {
        match self.read_entry_as_bytes() {
            Ok(data) => match XAttr::from_data(data) {
                Some(xattr) => Ok(xattr),
                None => Err(Error::MissingXAttrSeparator),
            },
            Err(e) => Err(e),
        }
    }

    fn read_symlink(&mut self) -> (r: Result<Symlink, Error>)
        requires
            header_error(old(self).current_header) is None,
            old(self).current_header.htype == PXAR_SYMLINK,
        ensures
            final(self).same_but_input(old(self)),
            !(r matches Err(Error::Io(_))) ==> final(self)@.follows(old(self)@),
            r matches Err(e) ==> !(e is Io) ==> final(self)@ == old(self)@.passed(
                old(self)@.content_size(),
            ),
            match r {
                Ok(link) => old(self)@.take_content() == Ok::<_, Error>(
                    (link.data@, final(self)@),
                ),
                Err(Error::Io(_)) => !old(self).input.infallible(),
                Err(e) => old(self)@.take_content() == Err::<(Seq<u8>, DecoderView), Error>(e),
            },
    {
        match self.read_entry_as_bytes() {
            Ok(data) => Ok(Symlink { data }),
            Err(e) => Err(e),
        }
    }

    fn read_hardlink(&mut self) -> (r: Result<Hardlink, Error>)
        requires
            header_error(old(self).current_header) is None,
            old(self).current_header.htype == PXAR_HARDLINK,
        ensures
            final(self).same_but_input(old(self)),
            !(r matches Err(Error::Io(_))) ==> final(self)@.follows(old(self)@),
            r matches Err(e) ==> !(e is Io) ==> final(self)@ == old(self)@.hardlink_refused(),
            match r {
                Ok(link) => old(self)@.hardlink_item() == Ok::<_, Error>(
                    final(self)@.with_kind(
                        KindView::Hardlink { offset: link.offset, data: link.data@ },
                    ),
                ),
                Err(Error::Io(_)) => !old(self).input.infallible(),
                Err(e) => old(self)@.hardlink_item() == Err::<DecoderView, Error>(e),
            },
    {
        let content_size: u64 = self.current_header.content_size();
        if content_size <= 8 {
            return Err(Error::HardlinkTooSmall);
        }
        let data_size: usize = (content_size - 8) as usize;
        let ghost start = self.input.stream();
        let offset: u64 = match seq_read_entry(&mut self.input) {
            Ok(offset) => offset,
            Err(e) => {
                return Err(e);
            },
        };
        let data = match seq_read_exact_data(&mut self.input, data_size) {
            Ok(data) => data,
            Err(e) => {
                return Err(e);
            },
        };
        proof {
            lemma_advanced(start, 8, data_size as nat);
            let all = start.unread.take(content_size as int);
            assert(all.take(8) =~= start.unread.take(8));
            assert(all.skip(8) =~= start.unread.skip(8).take(data_size as int));
        }
        Ok(Hardlink { offset, data })
    }

    fn read_device(&mut self) -> (r: Result<Device, Error>)
        requires
            header_error(old(self).current_header) is None,
        ensures
            final(self).same_but_input(old(self)),
            !(r matches Err(Error::Io(_))) ==> final(self)@.follows(old(self)@),
            r matches Err(e) ==> !(e is Io) && old(self)@.size_error(
                ItemName::Device,
                Device::wire_size(),
            ) is None ==> final(self)@ == old(self)@.passed(old(self)@.content_size()),
            old(self)@.size_error(ItemName::Device, Device::wire_size()) matches Some(e) ==> {
                &&& r == Err::<Device, Error>(e)
                &&& final(self)@ == old(self)@
            },
            match r {
                Ok(device) => old(self)@.take_simple(ItemName::Device, 16) matches Ok((data, d))
                    && device == Device::from_wire(data) && final(self)@ == d,
                Err(Error::Io(_)) => !old(self).input.infallible(),
                Err(e) => old(self)@.take_simple(ItemName::Device, 16) == Err::<
                    (Seq<u8>, DecoderView),
                    Error,
                >(e),
            },
    {
        self.read_simple_entry(ItemName::Device)
    }

    fn read_fcaps(&mut self) -> (r: Result<FCaps, Error>)
        requires
            header_error(old(self).current_header) is None,
            old(self).current_header.htype == PXAR_FCAPS,
        ensures
            final(self).same_but_input(old(self)),
            !(r matches Err(Error::Io(_))) ==> final(self)@.follows(old(self)@),
            r matches Err(e) ==> !(e is Io) ==> final(self)@ == old(self)@.passed(
                old(self)@.content_size(),
            ),
            match r {
                Ok(fcaps) => old(self)@.take_content() == Ok::<_, Error>(
                    (fcaps.data@, final(self)@),
                ),
                Err(Error::Io(_)) => !old(self).input.infallible(),
                Err(e) => old(self)@.take_content() == Err::<(Seq<u8>, DecoderView), Error>(e),
            },
    {
        match self.read_entry_as_bytes() {
            Ok(data) => Ok(FCaps { data }),
            Err(e) => Err(e),
        }
    }

    fn read_acl_user(&mut self) -> (r: Result<acl::User, Error>)
        requires
            header_error(old(self).current_header) is None,
        ensures
            final(self).same_but_input(old(self)),
            !(r matches Err(Error::Io(_))) ==> final(self)@.follows(old(self)@),
            r matches Err(e) ==> !(e is Io) && old(self)@.size_error(
                ItemName::AclUser,
                acl::User::wire_size(),
            ) is None ==> final(self)@ == old(self)@.passed(old(self)@.content_size()),
            old(self)@.size_error(ItemName::AclUser, acl::User::wire_size()) matches Some(e) ==> {
                &&& r == Err::<acl::User, Error>(e)
                &&& final(self)@ == old(self)@
            },
            match r {
                Ok(user) => old(self)@.take_simple(ItemName::AclUser, 16) matches Ok((data, d))
                    && user == acl::User::from_wire(data) && final(self)@ == d,
                Err(Error::Io(_)) => !old(self).input.infallible(),
                Err(e) => old(self)@.take_simple(ItemName::AclUser, 16) == Err::<
                    (Seq<u8>, DecoderView),
                    Error,
                >(e),
            },
    {
        self.read_simple_entry(ItemName::AclUser)
    }

    fn read_acl_group(&mut self) -> (r: Result<acl::Group, Error>)
        requires
            header_error(old(self).current_header) is None,
        ensures
            final(self).same_but_input(old(self)),
            !(r matches Err(Error::Io(_))) ==> final(self)@.follows(old(self)@),
            r matches Err(e) ==> !(e is Io) && old(self)@.size_error(
                ItemName::AclGroup,
                acl::Group::wire_size(),
            ) is None ==> final(self)@ == old(self)@.passed(old(self)@.content_size()),
            old(self)@.size_error(ItemName::AclGroup, acl::Group::wire_size()) matches Some(e) ==> {
                &&& r == Err::<acl::Group, Error>(e)
                &&& final(self)@ == old(self)@
            },
            match r {
                Ok(group) => old(self)@.take_simple(ItemName::AclGroup, 16) matches Ok((data, d))
                    && group == acl::Group::from_wire(data) && final(self)@ == d,
                Err(Error::Io(_)) => !old(self).input.infallible(),
                Err(e) => old(self)@.take_simple(ItemName::AclGroup, 16) == Err::<
                    (Seq<u8>, DecoderView),
                    Error,
                >(e),
            },
    {
        self.read_simple_entry(ItemName::AclGroup)
    }

    fn read_acl_group_object(&mut self) -> (r: Result<acl::GroupObject, Error>)
        requires
            header_error(old(self).current_header) is None,
        ensures
            final(self).same_but_input(old(self)),
            !(r matches Err(Error::Io(_))) ==> final(self)@.follows(old(self)@),
            r matches Err(e) ==> !(e is Io) && old(self)@.size_error(
                ItemName::AclGroupObject,
                acl::GroupObject::wire_size(),
            ) is None ==> final(self)@ == old(self)@.passed(old(self)@.content_size()),
            old(self)@.size_error(
                ItemName::AclGroupObject,
                acl::GroupObject::wire_size(),
            ) matches Some(e) ==> {
                &&& r == Err::<acl::GroupObject, Error>(e)
                &&& final(self)@ == old(self)@
            },
            match r {
                Ok(obj) => old(self)@.take_simple(ItemName::AclGroupObject, 8) matches Ok((data, d))
                    && obj == acl::GroupObject::from_wire(data) && final(self)@ == d,
                Err(Error::Io(_)) => !old(self).input.infallible(),
                Err(e) => old(self)@.take_simple(ItemName::AclGroupObject, 8) == Err::<
                    (Seq<u8>, DecoderView),
                    Error,
                >(e),
            },
    {
        self.read_simple_entry(ItemName::AclGroupObject)
    }

    fn read_acl_default(&mut self) -> (r: Result<acl::Default, Error>)
        requires
            header_error(old(self).current_header) is None,
        ensures
            final(self).same_but_input(old(self)),
            !(r matches Err(Error::Io(_))) ==> final(self)@.follows(old(self)@),
            r matches Err(e) ==> !(e is Io) && old(self)@.size_error(
                ItemName::AclDefault,
                acl::Default::wire_size(),
            ) is None ==> final(self)@ == old(self)@.passed(old(self)@.content_size()),
            old(self)@.size_error(
                ItemName::AclDefault,
                acl::Default::wire_size(),
            ) matches Some(e) ==> {
                &&& r == Err::<acl::Default, Error>(e)
                &&& final(self)@ == old(self)@
            },
            match r {
                Ok(entry) => old(self)@.take_simple(ItemName::AclDefault, 32) matches Ok((data, d))
                    && entry == acl::Default::from_wire(data) && final(self)@ == d,
                Err(Error::Io(_)) => !old(self).input.infallible(),
                Err(e) => old(self)@.take_simple(ItemName::AclDefault, 32) == Err::<
                    (Seq<u8>, DecoderView),
                    Error,
                >(e),
            },
    {
        self.read_simple_entry(ItemName::AclDefault)
    }

    fn read_quota_project_id(&mut self) -> (r: Result<QuotaProjectId, Error>)
        requires
            header_error(old(self).current_header) is None,
        ensures
            final(self).same_but_input(old(self)),
            !(r matches Err(Error::Io(_))) ==> final(self)@.follows(old(self)@),
            r matches Err(e) ==> !(e is Io) && old(self)@.size_error(
                ItemName::QuotaProjectId,
                QuotaProjectId::wire_size(),
            ) is None ==> final(self)@ == old(self)@.passed(old(self)@.content_size()),
            old(self)@.size_error(
                ItemName::QuotaProjectId,
                QuotaProjectId::wire_size(),
            ) matches Some(e) ==> {
                &&& r == Err::<QuotaProjectId, Error>(e)
                &&& final(self)@ == old(self)@
            },
            match r {
                Ok(id) => old(self)@.take_simple(ItemName::QuotaProjectId, 8) matches Ok((data, d))
                    && id == QuotaProjectId::from_wire(data) && final(self)@ == d,
                Err(Error::Io(_)) => !old(self).input.infallible(),
                Err(e) => old(self)@.take_simple(ItemName::QuotaProjectId, 8) == Err::<
                    (Seq<u8>, DecoderView),
                    Error,
                >(e),
            },
    {
        self.read_simple_entry(ItemName::QuotaProjectId)
    }
}

} // verus!
