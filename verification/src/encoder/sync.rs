//! Blocking `pxar` encoder.

use vstd::prelude::*;

use crate::decoder::read::SeqRead;
use crate::encoder::model::{new_encoder, payload_tail, symlink_item, EncoderView};
use crate::encoder::write::SeqWrite;
use crate::encoder::{EncoderImpl, FileImpl, LinkOffset, PayloadOffset};
use crate::errors::Error;
use crate::format::mode;
use crate::format::Device;
use crate::metadata::Metadata;
use crate::util;
use crate::variant::PxarVariant;

verus! {

/// Blocking `pxar` encoder.
pub struct Encoder<T: SeqWrite> {
    pub inner: EncoderImpl<T>,
}

impl Encoder<StandardWriter<Vec<u8>>> {
    /// Encode a `pxar` archive into memory, after what `output` already holds.
    pub fn from_std(output: Vec<u8>, metadata: &Metadata) -> (r: Result<Self, Error>)
        ensures
            match r {
                Ok(this) => this.well_formed() && this.infallible() && new_encoder(
                    output@,
                    None,
                    metadata@,
                    None,
                ) == Ok::<_, Error>(this@),
                Err(e) => !(e is Io) && new_encoder(output@, None, metadata@, None) == Err::<
                    EncoderView,
                    Error,
                >(e),
            },
    {
        Encoder::new(PxarVariant::Unified(StandardWriter::new(output)), metadata, None)
    }
}

impl<T: SeqWrite> Encoder<T> {
    pub open spec fn view(&self) -> EncoderView {
        self.inner.view()
    }

    /// Writing to the outputs never fails.
    pub open spec fn infallible(&self) -> bool {
        self.inner.infallible()
    }

    pub open spec fn well_formed(&self) -> bool {
        self.inner.well_formed()
    }

    /// Create a *blocking* encoder for an output implementing our internal write interface.
    ///
    /// Optionally attach a dedicated writer to redirect the payloads of regular files to a separate
    /// output.
    pub fn new(output: PxarVariant<T, T>, metadata: &Metadata, prelude: Option<&[u8]>) -> (r: Result<
        Self,
        Error,
    >)
        ensures
            ({
                let fine = output.archive_stream().infallible()
                    && match output.payload_stream() {
                    Some(p) => p.infallible(),
                    None => true,
                };
                let expected = new_encoder(
                    output.archive_stream().written(),
                    match output.payload_stream() {
                        Some(p) => Some(p.written()),
                        None => None,
                    },
                    metadata@,
                    match prelude {
                        Some(p) => Some(p@),
                        None => None,
                    },
                );
                match r {
                    Ok(this) => this.well_formed() && this.infallible() == fine && expected
                        == Ok::<_, Error>(this@),
                    Err(Error::Io(_)) => !fine && metadata@.file_type() == mode::IFDIR && !(
                    output.payload_stream() is None && prelude is Some),
                    Err(e) => expected == Err::<EncoderView, Error>(e),
                }
            }),
    {
        match EncoderImpl::new(output, metadata, prelude) {
            Ok(inner) => Ok(Encoder { inner }),
            Err(e) => Err(e),
        }
    }

    /// Create a new regular file in the archive. This returns a `File` object to which the
    /// contents have to be written out *completely*. Failing to do so will put the encoder into an
    /// error state.
    pub fn create_file<'b>(
        &'b mut self,
        metadata: &Metadata,
        file_name: &[u8],
        file_size: u64,
    ) -> (r: Result<File<'b, T>, Error>)
        requires
            old(self).well_formed(),
        ensures
            match r {
                Ok(file) => {
                    &&& file.well_formed()
                    &&& file.infallible() == old(self).infallible()
                    &&& old(self)@.create_file(metadata@, file_name@, file_size) == Ok::<_, Error>(
                        file@,
                    )
                    &&& file@.extends(old(self)@)
                    &&& final(self).inner == *final(file.inner.encoder)
                },
                Err(Error::Io(_)) => !old(self).infallible(),
                Err(e) => old(self)@.create_file(metadata@, file_name@, file_size) == Err::<
                    EncoderView,
                    Error,
                >(e),
            },
            old(self)@.refusal(file_name@) matches Some(e) ==> {
                &&& r is Err && r->Err_0 == e
                &&& final(self)@ == old(self)@.settled()
            },
            r matches Err(e) ==> {
                &&& final(self).well_formed()
                &&& final(self).infallible() == old(self).infallible()
                &&& final(self)@.same_directories(old(self)@.settled())
                &&& !(e is Io) ==> final(self)@.extends(old(self)@)
                &&& !(e is Io) ==> final(self)@ == old(self)@.file_refused(
                    metadata@,
                    file_name@,
                    file_size,
                )
            },
    {
        match self.inner.create_file(metadata, file_name, file_size) {
            Ok(inner) => Ok(File { inner }),
            Err(e) => Err(e),
        }
    }

    /// Add a file with its contents. Return a file offset usable with `add_hardlink`.
    pub fn add_file<R: SeqRead>(
        &mut self,
        metadata: &Metadata,
        file_name: &[u8],
        file_size: u64,
        content: &mut R,
    ) -> (r: Result<LinkOffset, Error>)
        requires
            old(self).well_formed(),
        ensures
            final(self).well_formed(),
            final(self).infallible() == old(self).infallible(),
            r is Err ==> final(self)@.same_directories(old(self)@.settled()),
            !(r matches Err(Error::Io(_))) ==> final(self)@.extends(old(self)@),
            r matches Err(e) ==> !(e is Io) && old(self)@.create_file(
                metadata@,
                file_name@,
                file_size,
            ) is Err ==> final(self)@ == old(self)@.file_refused(metadata@, file_name@, file_size),
            old(self)@.refusal(file_name@) matches Some(e) ==> {
                &&& r == Err::<LinkOffset, Error>(e)
                &&& final(self)@ == old(self)@.settled()
            },
            // a file that gets more contents than announced is left with some of them
            r is Err && !(r matches Err(Error::Io(_))) ==> (old(self)@.create_file(
                metadata@,
                file_name@,
                file_size,
            ) matches Ok(created) ==> exists|n: int|
                0 <= n <= file_size && n <= old(content).stream().unread.len() && final(self)@
                    == created.with_contents(#[trigger] old(content).stream().unread.take(n))),
            match r {
                Ok(offset) => {
                    &&& old(self)@.add_file(
                        metadata@,
                        file_name@,
                        file_size,
                        old(content).stream().unread,
                    ) == Ok::<_, Error>(final(self)@)
                    &&& offset.0 == old(self)@.settled().last().write_position
                    &&& final(content).stream() == old(content).stream().advanced(
                        old(content).stream().unread.len(),
                    )
                },
                Err(Error::Io(_)) => !(old(self).infallible() && old(content).infallible()),
                Err(e) => old(self)@.add_file(
                    metadata@,
                    file_name@,
                    file_size,
                    old(content).stream().unread,
                ) == Err::<EncoderView, Error>(e),
            },
    {
        self.inner.add_file(metadata, file_name, file_size, content)
    }

    /// Get the current position in the payload stream.
    pub fn payload_position(&self) -> (r: Result<PayloadOffset, Error>)
        ensures
            match r {
                Ok(offset) => self@.states.len() > 0 && offset.0
                    == self@.last().payload_write_position,
                Err(e) => e == Error::StateUnderflow && self@.states.len() == 0,
            },
    {
        self.inner.payload_position()
    }

    /// Encode a payload reference pointing to given offset in the separate payload output
    ///
    /// Returns a file offset usable with `add_hardlink` or with error if the encoder instance has
    /// no separate payload output or encoding failed.
    pub fn add_payload_ref(
        &mut self,
        metadata: &Metadata,
        file_name: &[u8],
        file_size: u64,
        payload_offset: PayloadOffset,
    ) -> (r: Result<LinkOffset, Error>)
        requires
            old(self).well_formed(),
        ensures
            final(self).well_formed(),
            final(self).infallible() == old(self).infallible(),
            r is Err ==> final(self)@.same_directories(old(self)@.settled()),
            !(r matches Err(Error::Io(_))) ==> final(self)@.extends(old(self)@),
            r matches Err(e) ==> !(e is Io) && old(self)@.payload_ref_refusal(
                file_name@,
                payload_offset.0,
            ) is None ==> final(self)@ == old(self)@.entry_refused(Some(metadata@), file_name@),
            old(self)@.payload_ref_refusal(file_name@, payload_offset.0) matches Some(e) ==> {
                &&& r == Err::<LinkOffset, Error>(e)
                &&& final(self)@ == old(self)@.settled()
            },
            match r {
                Ok(offset) => {
                    &&& old(self)@.add_payload_ref(
                        metadata@,
                        file_name@,
                        file_size,
                        payload_offset.0,
                    ) == Ok::<_, Error>(final(self)@)
                    &&& offset.0 == old(self)@.settled().last().write_position
                },
                Err(Error::Io(_)) => !old(self).infallible(),
                Err(e) => old(self)@.add_payload_ref(
                    metadata@,
                    file_name@,
                    file_size,
                    payload_offset.0,
                ) == Err::<EncoderView, Error>(e),
            },
    {
        self.inner.add_payload_ref(metadata, file_name, file_size, payload_offset)
    }

    /// Add size to payload stream
    pub fn advance(&mut self, size: PayloadOffset) -> (r: Result<(), Error>)
        requires
            old(self).well_formed(),
        ensures
            final(self).well_formed(),
            final(self).infallible() == old(self).infallible(),
            r is Err ==> final(self)@.same_directories(old(self)@.settled()),
            !(r matches Err(Error::Io(_))) ==> final(self)@.extends(old(self)@),
            r is Err ==> final(self)@ == old(self)@.settled(),
            match r {
                Ok(()) => old(self)@.advance(size.0) == Ok::<_, Error>(final(self)@),
                Err(e) => old(self)@.advance(size.0) == Err::<EncoderView, Error>(e),
            },
    {
        self.inner.advance(size)
    }

    /// Create a new subdirectory. Note that the subdirectory has to be finished by calling the
    /// `finish()` method, otherwise the entire archive will be in an error state.
    pub fn create_directory(&mut self, file_name: &[u8], metadata: &Metadata) -> (r: Result<
        (),
        Error,
    >)
        requires
            old(self).well_formed(),
        ensures
            final(self).well_formed(),
            final(self).infallible() == old(self).infallible(),
            r is Err ==> final(self)@.same_directories(old(self)@.settled()),
            !(r matches Err(Error::Io(_))) ==> final(self)@.extends(old(self)@),
            r matches Err(e) ==> !(e is Io) && old(self)@.directory_refusal(
                file_name@,
                metadata@,
            ) is None ==> final(self)@ == old(self)@.settled().start_refused(
                Some(metadata@),
                file_name@,
            ),
            old(self)@.directory_refusal(file_name@, metadata@) matches Some(e) ==> {
                &&& r == Err::<(), Error>(e)
                &&& final(self)@ == old(self)@.settled()
            },
            match r {
                Ok(()) => old(self)@.create_directory(file_name@, metadata@) == Ok::<_, Error>(
                    final(self)@,
                ),
                Err(Error::Io(_)) => !old(self).infallible(),
                Err(e) => old(self)@.create_directory(file_name@, metadata@) == Err::<
                    EncoderView,
                    Error,
                >(e),
            },
    {
        self.inner.create_directory(file_name, metadata)
    }

    /// Finish this directory. This is mandatory, encodes the end for the current directory.
    pub fn finish(&mut self) -> (r: Result<(), Error>)
        requires
            old(self).well_formed(),
        ensures
            final(self).well_formed(),
            final(self).infallible() == old(self).infallible(),
            old(self)@.finish_refusal() matches Some(e) ==> r == Err::<(), Error>(e) && final(self)@
                == old(self)@.settled(),
            // the directory is left before its table is written
            r is Err && old(self)@.finish_refusal() is None ==> final(self)@.states == old(
                self,
            )@.settled().states.drop_last(),
            old(self)@.finish_refusal() is None ==> (old(self)@.settled().put_item(
                old(self)@.settled().goodbye_item(),
            ) matches Err(e) ==> r == Err::<(), Error>(e) && final(self)@.archive == old(
                self,
            )@.archive && final(self)@.payload == old(self)@.payload),
            !(r matches Err(Error::Io(_))) ==> final(self)@.extends(old(self)@),
            match r {
                Ok(()) => old(self)@.finish() == Ok::<_, Error>(final(self)@),
                Err(Error::Io(_)) => !old(self).infallible(),
                Err(e) => old(self)@.finish() == Err::<EncoderView, Error>(e),
            },
    {
        self.inner.finish()
    }

    /// Close the encoder instance and get the outputs back. This is mandatory, encodes the end for
    /// the optional payload output stream, if some is given
    pub fn close(self) -> (r: Result<PxarVariant<T, T>, Error>)
        requires
            self.well_formed(),
        ensures
            match r {
                Ok(output) => {
                    &&& self@.states.len() == 0
                    &&& output.archive_stream().written() == self@.archive
                    &&& output.archive_stream().flushed() == self@.archive
                    &&& match output.payload_stream() {
                        Some(p) => self@.payload matches Some(q) && p.written() == q
                            + payload_tail() && p.flushed() == q + payload_tail(),
                        None => self@.payload is None,
                    }
                },
                Err(Error::Io(_)) => !self.infallible() && self@.states.len() == 0,
                Err(e) => e == Error::UnfinishedDirectories && self@.states.len() > 0,
            },
    {
        self.inner.close()
    }

    /// Add a symbolic link.
    pub fn add_symlink(&mut self, metadata: &Metadata, file_name: &[u8], target: &[u8]) -> (r:
        Result<(), Error>)
        requires
            old(self).well_formed(),
        ensures
            final(self).well_formed(),
            final(self).infallible() == old(self).infallible(),
            r is Err ==> final(self)@.same_directories(old(self)@.settled()),
            !(r matches Err(Error::Io(_))) ==> final(self)@.extends(old(self)@),
            r matches Err(e) ==> !(e is Io) ==> final(self)@ == old(self)@.entry_refused(
                Some(metadata@),
                file_name@,
            ),
            old(self)@.refusal(file_name@) matches Some(e) ==> {
                &&& r == Err::<(), Error>(e)
                &&& final(self)@ == old(self)@.settled()
            },
            match r {
                Ok(()) => old(self)@.add_entry(
                    Some(metadata@),
                    file_name@,
                    Some(symlink_item(target@)),
                ) == Ok::<_, Error>(final(self)@),
                Err(Error::Io(_)) => !old(self).infallible(),
                Err(e) => old(self)@.add_entry(
                    Some(metadata@),
                    file_name@,
                    Some(symlink_item(target@)),
                ) == Err::<EncoderView, Error>(e),
            },
    {
        self.inner.add_symlink(metadata, file_name, target)
    }

    /// Add a hard link.
    pub fn add_hardlink(&mut self, file_name: &[u8], target: &[u8], target_offset: LinkOffset) -> (r:
        Result<(), Error>)
        requires
            old(self).well_formed(),
        ensures
            final(self).well_formed(),
            final(self).infallible() == old(self).infallible(),
            r is Err ==> final(self)@.same_directories(old(self)@.settled()),
            !(r matches Err(Error::Io(_))) ==> final(self)@.extends(old(self)@),
            r matches Err(e) ==> !(e is Io) && old(self)@.hardlink_refusal(
                file_name@,
                target_offset.0,
            ) is None ==> final(self)@ == old(self)@.entry_refused(None, file_name@),
            old(self)@.hardlink_refusal(file_name@, target_offset.0) matches Some(e) ==> {
                &&& r == Err::<(), Error>(e)
                &&& final(self)@ == old(self)@.settled()
            },
            match r {
                Ok(()) => old(self)@.add_hardlink(file_name@, target@, target_offset.0) == Ok::<
                    _,
                    Error,
                >(final(self)@),
                Err(Error::Io(_)) => !old(self).infallible(),
                Err(e) => old(self)@.add_hardlink(file_name@, target@, target_offset.0) == Err::<
                    EncoderView,
                    Error,
                >(e),
            },
    {
        self.inner.add_hardlink(file_name, target, target_offset)
    }

    /// Add a device node.
    pub fn add_device(&mut self, metadata: &Metadata, file_name: &[u8], device: Device) -> (r:
        Result<(), Error>)
        requires
            old(self).well_formed(),
        ensures
            final(self).well_formed(),
            final(self).infallible() == old(self).infallible(),
            r is Err ==> final(self)@.same_directories(old(self)@.settled()),
            !(r matches Err(Error::Io(_))) ==> final(self)@.extends(old(self)@),
            r matches Err(e) ==> !(e is Io) && old(self)@.device_refusal(
                metadata@,
                file_name@,
            ) is None ==> final(self)@ == old(self)@.entry_refused(Some(metadata@), file_name@),
            old(self)@.device_refusal(metadata@, file_name@) matches Some(e) ==> {
                &&& r == Err::<(), Error>(e)
                &&& final(self)@ == old(self)@.settled()
            },
            match r {
                Ok(()) => old(self)@.add_device(metadata@, file_name@, device) == Ok::<_, Error>(
                    final(self)@,
                ),
                Err(Error::Io(_)) => !old(self).infallible(),
                Err(e) => old(self)@.add_device(metadata@, file_name@, device) == Err::<
                    EncoderView,
                    Error,
                >(e),
            },
    {
        self.inner.add_device(metadata, file_name, device)
    }

    /// Add a named pipe.
    pub fn add_fifo(&mut self, metadata: &Metadata, file_name: &[u8]) -> (r: Result<(), Error>)
        requires
            old(self).well_formed(),
        ensures
            final(self).well_formed(),
            final(self).infallible() == old(self).infallible(),
            r is Err ==> final(self)@.same_directories(old(self)@.settled()),
            !(r matches Err(Error::Io(_))) ==> final(self)@.extends(old(self)@),
            r matches Err(e) ==> !(e is Io) && old(self)@.fifo_refusal(
                metadata@,
                file_name@,
            ) is None ==> final(self)@ == old(self)@.entry_refused(Some(metadata@), file_name@),
            old(self)@.fifo_refusal(metadata@, file_name@) matches Some(e) ==> {
                &&& r == Err::<(), Error>(e)
                &&& final(self)@ == old(self)@.settled()
            },
            match r {
                Ok(()) => old(self)@.add_fifo(metadata@, file_name@) == Ok::<_, Error>(
                    final(self)@,
                ),
                Err(Error::Io(_)) => !old(self).infallible(),
                Err(e) => old(self)@.add_fifo(metadata@, file_name@) == Err::<EncoderView, Error>(
                    e,
                ),
            },
    {
        self.inner.add_fifo(metadata, file_name)
    }

    /// Add a socket.
    pub fn add_socket(&mut self, metadata: &Metadata, file_name: &[u8]) -> (r: Result<(), Error>)
        requires
            old(self).well_formed(),
        ensures
            final(self).well_formed(),
            final(self).infallible() == old(self).infallible(),
            r is Err ==> final(self)@.same_directories(old(self)@.settled()),
            !(r matches Err(Error::Io(_))) ==> final(self)@.extends(old(self)@),
            r matches Err(e) ==> !(e is Io) && old(self)@.socket_refusal(
                metadata@,
                file_name@,
            ) is None ==> final(self)@ == old(self)@.entry_refused(Some(metadata@), file_name@),
            old(self)@.socket_refusal(metadata@, file_name@) matches Some(e) ==> {
                &&& r == Err::<(), Error>(e)
                &&& final(self)@ == old(self)@.settled()
            },
            match r {
                Ok(()) => old(self)@.add_socket(metadata@, file_name@) == Ok::<_, Error>(
                    final(self)@,
                ),
                Err(Error::Io(_)) => !old(self).infallible(),
                Err(e) => old(self)@.add_socket(metadata@, file_name@) == Err::<
                    EncoderView,
                    Error,
                >(e),
            },
    {
        self.inner.add_socket(metadata, file_name)
    }
}

/// This is a "file" inside a pxar archive, to which the initially declared amount of data should
/// be written.
///
/// Writing more or less than the designated amount is an error and will cause the produced archive
/// to be broken.
pub struct File<'a, S: SeqWrite> {
    pub inner: FileImpl<'a, S>,
}

impl<'a, S: SeqWrite> File<'a, S> {
    /// The encoder, with what has been written so far.
    pub open spec fn view(&self) -> EncoderView {
        self.inner.view()
    }

    pub open spec fn well_formed(&self) -> bool {
        self.inner.well_formed()
    }

    pub open spec fn infallible(&self) -> bool {
        self.inner.infallible()
    }

    /// Get the file offset to be able to reference it with `add_hardlink`.
    pub fn file_offset(&self) -> (r: LinkOffset)
        requires
            self.well_formed(),
        ensures
            r.0 == self@.open->0.goodbye_item.offset,
    {
        self.inner.file_offset()
    }

    /// Write file data for the current file entry in a pxar archive.
    ///
    /// This forwards to the output's `SeqWrite::seq_write` and may write fewer bytes than
    /// requested. Check the return value for how many. There's also a `write_all` method available
    /// for convenience.
    pub fn write(&mut self, data: &[u8]) -> (r: Result<usize, Error>)
        requires
            old(self).well_formed(),
        ensures
            final(self).well_formed(),
            final(self).infallible() == old(self).infallible(),
            *final(final(self).inner.encoder) == *final(old(self).inner.encoder),
            final(self)@.same_directories(old(self)@),
            final(self)@.open->0.goodbye_item == old(self)@.open->0.goodbye_item,
            !(r matches Err(Error::Io(_))) ==> final(self)@.extends(old(self)@),
            r is Err ==> final(self)@.open == old(self)@.open,
            old(self)@.contents_refusal(data@) matches Some(e) ==> {
                &&& r == Err::<usize, Error>(e)
                &&& final(self)@ == old(self)@
            },
            match r {
                Ok(put) => {
                    &&& old(self)@.contents_refusal(data@) is None
                    &&& put <= data@.len()
                    &&& put == 0 ==> data@.len() == 0
                    &&& final(self)@ == old(self)@.with_contents(data@.take(put as int))
                },
                Err(Error::Io(_)) => !old(self).infallible(),
                Err(e) => old(self)@.contents_refusal(data@) == Some(e),
            },
    {
        self.inner.write(data)
    }

    /// Completely write file data for the current file entry in a pxar archive.
    pub fn write_all(&mut self, data: &[u8]) -> (r: Result<(), Error>)
        requires
            old(self).well_formed(),
        ensures
            final(self).well_formed(),
            final(self).infallible() == old(self).infallible(),
            *final(final(self).inner.encoder) == *final(old(self).inner.encoder),
            final(self)@.same_directories(old(self)@),
            final(self)@.open->0.goodbye_item == old(self)@.open->0.goodbye_item,
            !(r matches Err(Error::Io(_))) ==> final(self)@.extends(old(self)@),
            r is Err ==> final(self)@.open == old(self)@.open,
            old(self)@.contents_refusal(data@) matches Some(e) ==> {
                &&& r == Err::<(), Error>(e)
                &&& final(self)@ == old(self)@
            },
            match r {
                Ok(()) => old(self)@.contents_refusal(data@) is None && final(self)@ == old(
                    self,
                )@.with_contents(data@),
                Err(Error::Io(_)) => !old(self).infallible(),
                Err(e) => old(self)@.contents_refusal(data@) == Some(e),
            },
    {
        self.inner.write_all(data)
    }
}

/// Write adapter for outputs of the standard library. Bytes in memory are such an output.
pub struct StandardWriter<T> {
    pub inner: T,
}

impl<T> StandardWriter<T> {
    /// Make a new [`SeqWrite`] wrapper.
    pub fn new(inner: T) -> (r: Self)
        ensures
            r.inner == inner,
    {
        StandardWriter { inner }
    }
}

impl SeqWrite for StandardWriter<Vec<u8>> {
    open spec fn written(&self) -> Seq<u8> {
        self.inner@
    }

    open spec fn flushed(&self) -> Seq<u8> {
        self.inner@
    }

    open spec fn infallible(&self) -> bool {
        true
    }

    /// Everything is written.
    fn seq_write(&mut self, buf: &[u8]) -> (r: Result<usize, std::io::Error>)
        ensures
            r is Ok && r->Ok_0 == buf@.len(),
    {
        util::extend(&mut self.inner, buf);
        proof {
            assert(buf@.take(buf@.len() as int) =~= buf@);
        }
        Ok(buf.len())
    }

    fn flush(&mut self) -> (r: Result<(), std::io::Error>) {
        Ok(())
    }
}

} // verus!
