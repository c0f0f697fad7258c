//! Sequential writing.

use vstd::prelude::*;
use vstd::slice::slice_subrange;

use crate::errors::Error;
use crate::format::wire::Wire;
use crate::format::{header_error, Header, HEADER_SIZE};

verus! {

/// The bytes start with the given ones.
pub open spec fn starts_with(bytes: Seq<u8>, start: Seq<u8>) -> bool {
    start.len() <= bytes.len() && bytes.take(start.len() as int) =~= start
}

/// What comes first in a start comes first.
pub broadcast proof fn lemma_starts_with(a: Seq<u8>, b: Seq<u8>, c: Seq<u8>)
    requires
        #[trigger] starts_with(a, b),
        #[trigger] starts_with(b, c),
    ensures
        starts_with(a, c),
{
    assert(a.take(c.len() as int) =~= b.take(c.len() as int));
}

/// An item that is to be written.
#[verifier::ext_equal]
pub struct ItemView {
    pub htype: u64,
    pub content: Seq<u8>,
}

/// The header of an item.
pub open spec fn header_of(htype: u64, content_size: nat) -> Header {
    Header { htype, full_size: (content_size + HEADER_SIZE) as u64 }
}

impl ItemView {
    /// The bytes of an item: its header and its content.
    pub open spec fn wire(self) -> Seq<u8> {
        header_of(self.htype, self.content.len()).wire() + self.content
    }
}

/// The bytes of items one after the other.
pub open spec fn wire_of(items: Seq<ItemView>) -> Seq<u8>
    decreases items.len(),
{
    if items.len() == 0 {
        Seq::empty()
    } else {
        items[0].wire() + wire_of(items.skip(1))
    }
}

/// What has been written to an output, and the position that is kept for it.
#[verifier::ext_equal]
pub struct Cursor {
    pub bytes: Seq<u8>,
    pub position: u64,
}

impl Cursor {
    /// Write some bytes. The position has to stay within 64 bits.
    pub open spec fn put(self, data: Seq<u8>) -> Result<Self, Error> {
        if self.position + data.len() > u64::MAX {
            Err(Error::OutOfRange)
        } else {
            Ok(
                Cursor {
                    bytes: self.bytes + data,
                    position: (self.position + data.len()) as u64,
                },
            )
        }
    }

    /// Write an item, whose content must not be larger than its type allows.
    pub open spec fn put_item(self, item: ItemView) -> Result<Self, Error> {
        if item.content.len() + HEADER_SIZE > u64::MAX {
            Err(Error::OutOfRange)
        } else {
            match header_error(header_of(item.htype, item.content.len())) {
                Some(e) => Err(e),
                None => match self.put(header_of(item.htype, item.content.len()).wire()) {
                    Ok(c) => c.put(item.content),
                    Err(e) => Err(e),
                },
            }
        }
    }

    /// What has been written when one of some items is refused: those in front of it.
    pub open spec fn put_until_refused(self, items: Seq<ItemView>) -> Self
        decreases items.len(),
    {
        if items.len() == 0 {
            self
        } else {
            match self.put_item(items[0]) {
                Ok(c) => c.put_until_refused(items.skip(1)),
                Err(_) => self,
            }
        }
    }

    /// Write items, up to the first one that is refused.
    pub open spec fn put_items(self, items: Seq<ItemView>) -> Result<Self, Error>
        decreases items.len(),
    {
        if items.len() == 0 {
            Ok(self)
        } else {
            match self.put_item(items[0]) {
                Ok(c) => c.put_items(items.skip(1)),
                Err(e) => Err(e),
            }
        }
    }
}

/// Items can be written in parts.
pub proof fn lemma_put_items_concat(c: Cursor, a: Seq<ItemView>, b: Seq<ItemView>)
    ensures
        c.put_items(a + b) == (match c.put_items(a) {
            Ok(d) => d.put_items(b),
            Err(e) => Err(e),
        }),
        c.put_until_refused(a + b) == (match c.put_items(a) {
            Ok(d) => d.put_until_refused(b),
            Err(_) => c.put_until_refused(a),
        }),
    decreases a.len(),
{
    if a.len() == 0 {
        assert(a + b =~= b);
    } else {
        assert((a + b)[0] == a[0]);
        assert((a + b).skip(1) =~= a.skip(1) + b);
        if let Ok(d) = c.put_item(a[0]) {
            lemma_put_items_concat(d, a.skip(1), b);
        }
    }
}

/// What is written where nothing is refused.
pub proof fn lemma_put_items(c: Cursor, items: Seq<ItemView>)
    ensures
        c.put_items(items) matches Ok(d) ==> d.bytes == c.bytes + wire_of(items) && d.position
            == c.position + wire_of(items).len(),
    decreases items.len(),
{
    if items.len() == 0 {
        assert(c.bytes + wire_of(items) =~= c.bytes);
    } else {
        if let Ok(d) = c.put_item(items[0]) {
            header_of(items[0].htype, items[0].content.len()).lemma_wire_round_trip();
            lemma_put_items(d, items.skip(1));
            if let Ok(e) = d.put_items(items.skip(1)) {
                assert(e.bytes =~= c.bytes + wire_of(items));
            }
        }
    }
}

/// Sequential write interface used by the encoder's state machine.
pub trait SeqWrite: Sized {
    /// All that has been written.
    open spec fn written(&self) -> Seq<u8> {
        Seq::empty()
    }

    /// What has reached the destination for certain.
    open spec fn flushed(&self) -> Seq<u8> {
        Seq::empty()
    }

    /// Writing to this output never fails.
    open spec fn infallible(&self) -> bool {
        false
    }

    /// Write some bytes from the start of `buf`, at least one where there is one. On success, the
    /// number of written bytes is returned.
    fn seq_write(&mut self, buf: &[u8]) -> (r: Result<usize, std::io::Error>)
        ensures
            final(self).infallible() == old(self).infallible(),
            match r {
                Ok(n) => {
                    &&& n <= buf@.len()
                    &&& n == 0 ==> buf@.len() == 0
                    &&& final(self).written() == old(self).written() + buf@.take(n as int)
                },
                Err(_) => !old(self).infallible(),
            },
    ;

    /// Flush the output, ensuring that all buffered data reaches the destination.
    fn flush(&mut self) -> (r: Result<(), std::io::Error>)
        ensures
            final(self).infallible() == old(self).infallible(),
            match r {
                Ok(()) => {
                    &&& final(self).written() == old(self).written()
                    &&& final(self).flushed() == old(self).written()
                },
                Err(_) => !old(self).infallible(),
            },
    ;
}

/// An output and the position kept for it.
pub open spec fn cursor<T: SeqWrite>(output: &T, position: u64) -> Cursor {
    Cursor { bytes: output.written(), position }
}

/// Flush an output.
pub fn flush<T: SeqWrite>(output: &mut T) -> (r: Result<(), Error>)
    ensures
        final(output).infallible() == old(output).infallible(),
        match r {
            Ok(()) => {
                &&& final(output).written() == old(output).written()
                &&& final(output).flushed() == old(output).written()
            },
            Err(e) => e is Io && !old(output).infallible(),
        },
{
    match output.flush() {
        Ok(()) => Ok(()),
        Err(e) => Err(Error::Io(e)),
    }
}

/// Write part of a buffer and keep track of the position.
pub fn seq_write<T: SeqWrite>(output: &mut T, buf: &[u8], position: &mut u64) -> (r: Result<
    usize,
    Error,
>)
    requires
        *old(position) + buf@.len() <= u64::MAX,
    ensures
        final(output).infallible() == old(output).infallible(),
        match r {
            Ok(n) => {
                &&& n <= buf@.len()
                &&& n == 0 ==> buf@.len() == 0
                &&& final(output).written() == old(output).written() + buf@.take(n as int)
                &&& *final(position) == *old(position) + n
            },
            Err(e) => e is Io && !old(output).infallible() && *final(position) == *old(position),
        },
{
    match output.seq_write(buf) {
        Ok(n) => {
            *position = *position + n as u64;
            Ok(n)
        },
        Err(e) => Err(Error::Io(e)),
    }
}

/// Write the entire contents of a buffer, handling short writes.
pub fn seq_write_all<T: SeqWrite>(output: &mut T, buf: &[u8], position: &mut u64) -> (r: Result<
    (),
    Error,
>)
    ensures
        final(output).infallible() == old(output).infallible(),
        *old(position) <= *final(position) <= *old(position) + buf@.len(),
        !(r matches Err(Error::Io(_))) ==> starts_with(
            final(output).written(),
            old(output).written(),
        ),
        cursor(old(output), *old(position)).put(buf@) matches Err(e) ==> r == Err::<(), Error>(e)
            && final(output).written() == old(output).written() && *final(position) == *old(
            position,
        ),
        match r {
            Ok(()) => cursor(old(output), *old(position)).put(buf@) == Ok::<_, Error>(
                cursor(final(output), *final(position)),
            ),
            Err(Error::Io(_)) => !old(output).infallible(),
            Err(e) => cursor(old(output), *old(position)).put(buf@) == Err::<Cursor, Error>(e),
        },
{
    let len: usize = buf.len();
    if len as u64 > u64::MAX - *position {
        return Err(Error::OutOfRange);
    }
    let ghost start = output.written();
    let mut at: usize = 0;
    proof {
        assert(start + buf@.take(0) =~= start);
    }
    while at < len
        invariant
            at <= len,
            len == buf@.len(),
            start == old(output).written(),
            output.infallible() == old(output).infallible(),
            *old(position) + len <= u64::MAX,
            *position == *old(position) + at,
            output.written() == start + buf@.take(at as int),
        decreases len - at,
    {
        let rest = slice_subrange(buf, at, len);
        match seq_write(output, rest, position) {
            Ok(put) => {
                proof {
                    assert(start + buf@.take(at as int) + rest@.take(put as int) =~= start
                        + buf@.take(at + put));
                }
                at = at + put;
            },
            Err(e) => {
                return Err(e);
            },
        }
    }
    proof {
        assert(buf@.take(at as int) =~= buf@);
    }
    Ok(())
}

/// Write a fixed-size value.
pub fn seq_write_struct<T: SeqWrite, E: Wire>(
    output: &mut T,
    data: &E,
    position: &mut u64,
) -> (r: Result<(), Error>)
    ensures
        final(output).infallible() == old(output).infallible(),
        *old(position) <= *final(position),
        !(r matches Err(Error::Io(_))) ==> starts_with(
            final(output).written(),
            old(output).written(),
        ),
        cursor(old(output), *old(position)).put(data.wire()) matches Err(e) ==> r == Err::<
            (),
            Error,
        >(e) && final(output).written() == old(output).written() && *final(position) == *old(
            position,
        ),
        match r {
            Ok(()) => cursor(old(output), *old(position)).put(data.wire()) == Ok::<_, Error>(
                cursor(final(output), *final(position)),
            ),
            Err(Error::Io(_)) => !old(output).infallible(),
            Err(e) => cursor(old(output), *old(position)).put(data.wire()) == Err::<
                Cursor,
                Error,
            >(e),
        },
{
    let bytes = data.to_bytes();
    seq_write_all(output, bytes.as_slice(), position)
}

/// Write a pxar entry.
pub fn seq_write_pxar_entry<T: SeqWrite>(
    output: &mut T,
    htype: u64,
    data: &[u8],
    position: &mut u64,
) -> (r: Result<(), Error>)
    ensures
        final(output).infallible() == old(output).infallible(),
        *old(position) <= *final(position),
        !(r matches Err(Error::Io(_))) ==> starts_with(
            final(output).written(),
            old(output).written(),
        ),
        cursor(old(output), *old(position)).put_item(
            (ItemView { htype, content: data@ }),
        ) matches Err(e) ==> r == Err::<(), Error>(e) && final(output).written() == old(
            output,
        ).written() && *final(position) == *old(position),
        match r {
            Ok(()) => cursor(old(output), *old(position)).put_item(
                (ItemView { htype, content: data@ }),
            ) == Ok::<_, Error>(cursor(final(output), *final(position))),
            Err(Error::Io(_)) => !old(output).infallible(),
            Err(e) => cursor(old(output), *old(position)).put_item(
                (ItemView { htype, content: data@ }),
            ) == Err::<Cursor, Error>(e),
        },
{
    broadcast use lemma_starts_with;

    let len: u64 = data.len() as u64;
    if len > u64::MAX - HEADER_SIZE {
        return Err(Error::OutOfRange);
    }
    let header = Header::with_content_size(htype, len);
    match header.check_header_size() {
        Ok(()) => {},
        Err(e) => {
            return Err(e);
        },
    }
    if header.full_size() > u64::MAX - *position {
        proof {
            header.lemma_wire_round_trip();
        }
        return Err(Error::OutOfRange);
    }
    proof {
        header.lemma_wire_round_trip();
    }
    match seq_write_struct(output, &header, position) {
        Ok(()) => {},
        Err(e) => {
            return Err(e);
        },
    }
    seq_write_all(output, data, position)
}

} // verus!
