//! Blocking `pxar` format handling.

use vstd::prelude::*;

use crate::decoder::contents::Contents;
use crate::decoder::model::{initial_decoder, DecoderView, State};
use crate::decoder::read::{InputView, SeqRead};
use crate::decoder::DecoderImpl;
use crate::entry::{Entry, EntryView};
use crate::errors::Error;
use crate::util;

verus! {

/// Blocking `pxar` decoder.
pub struct Decoder<T> {
    pub inner: DecoderImpl<T>,
}

impl<'a> Decoder<StandardReader<&'a [u8]>> {
    /// Decode a `pxar` archive in memory.
    pub fn from_std(input: &'a [u8]) -> (r: Result<Self, Error>)
        ensures
            match r {
                Ok(this) => {
                    &&& this.well_formed()
                    &&& this.infallible()
                    &&& this@ == initial_decoder(
                        InputView { unread: input@, offset: None },
                        seq![util::SLASH],
                        false,
                    )
                },
                Err(_) => false,
            },
    {
        Decoder::new(StandardReader::new(input))
    }

    /// Get what has not been read of the input.
    pub fn input(&self) -> (r: &&'a [u8])
        ensures
            r@ == self@.input.unread,
    {
        self.inner.input().inner()
    }
}

impl<T: SeqRead> Decoder<T> {
    pub open spec fn view(&self) -> DecoderView {
        self.inner.view()
    }

    pub open spec fn well_formed(&self) -> bool {
        self.inner.well_formed()
    }

    /// The decoder is well-formed, or else in a payload whose header has been read over.
    pub open spec fn in_order(&self) -> bool {
        self.inner.in_order()
    }

    /// Reading from the input never fails.
    pub open spec fn infallible(&self) -> bool {
        self.inner.input.infallible()
    }

    /// Create a *blocking* decoder from an input implementing our internal read interface.
    ///
    /// There is one input. An archive with its payloads in a stream of their own starts with its
    /// format version and is refused there.
    pub fn new(input: T) -> (r: Result<Self, Error>)
        ensures
            match r {
                Ok(this) => {
                    &&& this.well_formed()
                    &&& this.infallible() == input.infallible()
                    &&& this@ == initial_decoder(input.stream(), seq![util::SLASH], false)
                },
                Err(_) => false,
            },
    {
        Ok(Decoder { inner: DecoderImpl::new(input) })
    }

    /// Internal helper for `Accessor`. In this case we have the low-level state machine, and the
    /// layer "above" the `Accessor` propagates the actual type.
    pub fn from_impl(inner: DecoderImpl<T>) -> (r: Self)
        ensures
            r.inner == inner,
    {
        Decoder { inner }
    }

    /// If this is a directory entry, get the next item inside the directory.
    ///
    /// Where an archive is refused, the decoder is left as it was by then. Behind a payload what was
    /// read in place of the next item has then taken the place of the payload's header, and may be
    /// nothing to go on with.
    pub fn next(&mut self) -> (r: Option<Result<Entry, Error>>)
        requires
            old(self).well_formed(),
        ensures
            final(self).in_order(),
            !(r matches Some(Err(_))) ==> final(self).well_formed(),
            final(self).infallible() == old(self).infallible(),
            !(r matches Some(Err(Error::Io(_)))) ==> final(self)@.follows(old(self)@),
            r matches Some(Err(e)) ==> !(e is Io) ==> final(self)@ == old(self)@.refused(),
            match r {
                Some(Ok(entry)) => old(self)@.next() == Ok::<_, Error>(
                    (final(self)@, Some(entry@)),
                ),
                None => old(self)@.next() == Ok::<(DecoderView, Option<EntryView>), Error>(
                    (final(self)@, None),
                ),
                Some(Err(Error::Io(_))) => !old(self).infallible() && !old(
                    self,
                )@.needs_no_input(),
                Some(Err(e)) => old(self)@.next() == Err::<(DecoderView, Option<EntryView>), Error>(
                    e,
                ),
            },
    {
        self.inner.next()
    }

    /// Get a reader for the contents of the current entry, if the entry has contents.
    pub fn contents<'a>(&'a mut self) -> (r: Option<Contents<'a, T>>)
        requires
            old(self).well_formed(),
        ensures
            match r {
                Some(c) => {
                    &&& old(self)@.state matches State::InPayload { offset }
                    &&& *c.input == old(self).inner.input
                    &&& c.consumed() == offset
                    &&& c.len == old(self)@.content_size()
                    &&& final(self).inner == (DecoderImpl {
                        input: *final(c.input),
                        state: State::InPayload { offset: *final(c.at) },
                        ..old(self).inner
                    })
                },
                None => !(old(self)@.state is InPayload) && *final(self) == *old(self),
            },
    {
        self.inner.content_reader()
    }

    /// Get the size of the current contents, if the entry has contents.
    pub fn content_size(&self) -> (r: Option<u64>)
        requires
            self.well_formed(),
        ensures
            match r {
                Some(size) => self@.state is InPayload && size == self@.content_size(),
                None => !(self@.state is InPayload),
            },
    {
        self.inner.content_size()
    }

    /// Include goodbye tables in iteration.
    pub fn enable_goodbye_entries(&mut self, on: bool)
        ensures
            final(self)@ == (DecoderView { with_goodbye_tables: on, ..old(self)@ }),
            final(self).well_formed() == old(self).well_formed(),
            final(self).infallible() == old(self).infallible(),
    {
        self.inner.with_goodbye_tables = on;
    }
}

/// Read adapter for inputs of the standard library. Bytes in memory are such an input.
pub struct StandardReader<T> {
    pub inner: T,
}

impl<T> StandardReader<T> {
    /// Make a new [`StandardReader`].
    pub fn new(inner: T) -> (r: Self)
        ensures
            r.inner == inner,
    {
        StandardReader { inner }
    }

    /// Get an immutable reference to the contained reader.
    pub fn inner(&self) -> (r: &T)
        ensures
            *r == self.inner,
    {
        &self.inner
    }
}

impl<'a> SeqRead for StandardReader<&'a [u8]> {
    open spec fn stream(&self) -> InputView {
        InputView { unread: self.inner@, offset: None }
    }

    open spec fn infallible(&self) -> bool {
        true
    }

    /// As much is read as there is room for.
    fn seq_read(&mut self, buf: &mut [u8]) -> (r: Result<usize, std::io::Error>)
        ensures
            r is Ok && (r->Ok_0 == old(buf)@.len() || r->Ok_0 == old(self).inner@.len()),
    {
        let data = self.inner;
        let (len, room): (usize, usize) = (data.len(), buf.len());
        let n: usize = if room < len {
            room
        } else {
            len
        };
        let mut i: usize = 0;
        while i < n
            invariant
                i <= n <= buf@.len(),
                n <= data@.len(),
                buf@.len() == old(buf)@.len(),
                forall|j: int| 0 <= j < i ==> buf@[j] == data@[j],
            decreases n - i,
        {
            buf[i] = data[i];
            i = i + 1;
        }
        self.inner = vstd::slice::slice_subrange(data, n, len);
        proof {
            assert(buf@.take(n as int) =~= data@.take(n as int));
            assert(self.stream() =~= old(self).stream().advanced(n as nat));
        }
        Ok(n)
    }

    fn position(&mut self) -> (r: Option<Result<u64, std::io::Error>>) {
        None
    }
}

} // verus!
