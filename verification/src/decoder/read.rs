//! Sequential reading.

use vstd::prelude::*;
use vstd::slice::slice_subrange;

use crate::errors::Error;
use crate::format::wire::Wire;
use crate::util;

verus! {

/// What is left to be read from a sequential input.
#[verifier::ext_equal]
pub struct InputView {
    /// The bytes that will still come.
    pub unread: Seq<u8>,

    /// The position of the next byte, where the input knows it.
    pub offset: Option<int>,
}

impl InputView {
    /// The input after `n` bytes have been read.
    pub open spec fn advanced(self, n: nat) -> Self {
        InputView {
            unread: self.unread.skip(n as int),
            offset: match self.offset {
                Some(at) => Some(at + n),
                None => None,
            },
        }
    }

    /// This is what is left after some more of `earlier` has been read.
    pub open spec fn follows(self, earlier: Self) -> bool {
        &&& self.unread.len() <= earlier.unread.len()
        &&& self =~= earlier.advanced((earlier.unread.len() - self.unread.len()) as nat)
    }

    /// The input after `n` bytes have been read, or all of them where there are fewer.
    pub open spec fn passed(self, n: nat) -> Self {
        if n < self.unread.len() {
            self.advanced(n)
        } else {
            self.advanced(self.unread.len())
        }
    }

    /// The next `n` bytes, and the input after them.
    pub open spec fn take_exact(self, n: nat) -> Result<(Seq<u8>, Self), Error> {
        if self.unread.len() < n {
            Err(Error::UnexpectedEof)
        } else {
            Ok((self.unread.take(n as int), self.advanced(n)))
        }
    }

    /// Like `take_exact`, but the input may also be at its end.
    pub open spec fn take_exact_or_eof(self, n: nat) -> Result<Option<(Seq<u8>, Self)>, Error> {
        if n > 0 && self.unread.len() == 0 {
            Ok(None)
        } else {
            match self.take_exact(n) {
                Ok(r) => Ok(Some(r)),
                Err(e) => Err(e),
            }
        }
    }
}

pub proof fn lemma_advanced(i: InputView, a: nat, b: nat)
    requires
        a + b <= i.unread.len(),
    ensures
        i.advanced(0) == i,
        i.advanced(a).advanced(b) == i.advanced(a + b),
{
    assert(i.advanced(0) =~= i);
    assert(i.advanced(a).advanced(b) =~= i.advanced(a + b));
}

pub broadcast proof fn lemma_follows(a: InputView, b: InputView, c: InputView)
    requires
        #[trigger] b.follows(a),
        #[trigger] c.follows(b),
    ensures
        c.follows(a),
{
    lemma_advanced(
        a,
        (a.unread.len() - b.unread.len()) as nat,
        (b.unread.len() - c.unread.len()) as nat,
    );
}

pub broadcast proof fn lemma_advanced_follows(i: InputView, n: nat)
    requires
        n <= i.unread.len(),
    ensures
        (#[trigger] i.advanced(n)).follows(i),
{
}

/// Sequential read interface used by the decoder's state machine.
///
/// To simply iterate through a directory we just need the equivalent of `read()`.
///
/// There is also a `position()` method for types that know where they are. In this case the
/// position of each file's contents becomes available, to allow jumping between entries.
pub trait SeqRead: Sized {
    /// What is left to be read.
    open spec fn stream(&self) -> InputView {
        InputView { unread: Seq::empty(), offset: None }
    }

    /// Reading from this input never fails.
    open spec fn infallible(&self) -> bool {
        false
    }

    /// Mostly we want to read sequentially, so this is basically a `Read` equivalent: some of the
    /// next bytes are put at the start of `buf`, and none of them only where there are none left
    /// or there is no room. What an error leaves of the input is open.
    fn seq_read(&mut self, buf: &mut [u8]) -> (r: Result<usize, std::io::Error>)
        ensures
            final(buf)@.len() == old(buf)@.len(),
            final(self).infallible() == old(self).infallible(),
            match r {
                Ok(n) => {
                    &&& n <= old(buf)@.len()
                    &&& n <= old(self).stream().unread.len()
                    &&& final(buf)@.take(n as int) == old(self).stream().unread.take(n as int)
                    &&& final(self).stream() == old(self).stream().advanced(n as nat)
                    &&& n == 0 ==> old(buf)@.len() == 0 || old(self).stream().unread.len() == 0
                },
                Err(_) => !old(self).infallible(),
            },
    ;

    /// While going through the data we may want to take notes about some offsets within the file
    /// for later. If the reader does not support seeking or positional reading, this can just
    /// return `None`.
    fn position(&mut self) -> (r: Option<Result<u64, std::io::Error>>)
        ensures
            final(self).infallible() == old(self).infallible(),
            match r {
                None => final(self).stream() == old(self).stream() && old(
                    self,
                ).stream().offset is None,
                Some(Ok(at)) => final(self).stream() == old(self).stream() && old(
                    self,
                ).stream().offset == Some(at as int),
                Some(Err(_)) => !old(self).infallible(),
            },
    ;
}

/// Read into a buffer.
pub fn seq_read<T: SeqRead>(input: &mut T, buf: &mut [u8]) -> (r: Result<usize, Error>)
    ensures
        final(buf)@.len() == old(buf)@.len(),
        final(input).infallible() == old(input).infallible(),
        match r {
            Ok(n) => {
                &&& n <= old(buf)@.len()
                &&& n <= old(input).stream().unread.len()
                &&& final(buf)@.take(n as int) == old(input).stream().unread.take(n as int)
                &&& final(input).stream() == old(input).stream().advanced(n as nat)
                &&& n == 0 ==> old(buf)@.len() == 0 || old(input).stream().unread.len() == 0
            },
            Err(e) => e is Io && !old(input).infallible(),
        },
{
    match input.seq_read(buf) {
        Ok(n) => Ok(n),
        Err(e) => Err(Error::Io(e)),
    }
}

/// The size of the buffer through which an input is read to its end.
pub const READ_BUFFER_SIZE: usize = 4096;

/// The first `n` of some bytes have been appended.
pub open spec fn starts_to(bytes: Seq<u8>, n: nat, before: Seq<u8>, after: Seq<u8>) -> bool {
    n <= bytes.len() && after == before + bytes.take(n as int)
}

/// Append all that is left of an input to a vector. On success, the number of bytes is returned.
pub fn seq_read_to_end<T: SeqRead>(input: &mut T, out: &mut Vec<u8>) -> (r: Result<usize, Error>)
    ensures
        final(input).infallible() == old(input).infallible(),
        match r {
            Ok(n) => {
                &&& n == old(input).stream().unread.len()
                &&& final(out)@ == old(out)@ + old(input).stream().unread
                &&& final(input).stream() == old(input).stream().advanced(n as nat)
            },
            Err(e) => {
                &&& e is Io
                &&& !old(input).infallible()
                // what had been read by then is there
                &&& exists|n: nat| #[trigger]
                    starts_to(old(input).stream().unread, n, old(out)@, final(out)@)
            },
        },
{
    let start: usize = out.len();
    let mut buf = util::vec_new(READ_BUFFER_SIZE);
    let ghost all = input.stream();
    let ghost mut at: nat = 0;
    proof {
        lemma_advanced(all, 0, 0);
        assert(out@ + all.unread.take(0) =~= out@);
    }
    loop
        invariant
            buf@.len() == READ_BUFFER_SIZE,
            start == old(out)@.len(),
            all == old(input).stream(),
            at <= all.unread.len(),
            input.infallible() == old(input).infallible(),
            input.stream() == all.advanced(at),
            out@ == old(out)@ + all.unread.take(at as int),
        decreases all.unread.len() - at,
    {
        proof {
            assert(starts_to(all.unread, at, old(out)@, out@));
        }
        match seq_read(input, buf.as_mut_slice()) {
            Ok(got) => {
                if got == 0 {
                    proof {
                        assert(all.unread.take(at as int) =~= all.unread);
                    }
                    return Ok(out.len() - start);
                }
                let ghost before = out@;
                util::extend(out, slice_subrange(buf.as_slice(), 0, got));
                proof {
                    assert(buf@.subrange(0, got as int) =~= buf@.take(got as int));
                    assert(before + buf@.take(got as int) =~= old(out)@ + all.unread.take(
                        at + got,
                    ));
                    lemma_advanced(all, at, got as nat);
                    at = at + got as nat;
                }
            },
            Err(e) => {
                return Err(e);
            },
        }
    }
}

/// Get the position of an input.
pub fn seq_read_position<T: SeqRead>(input: &mut T) -> (r: Result<Option<u64>, Error>)
    ensures
        final(input).infallible() == old(input).infallible(),
        match r {
            Ok(at) => final(input).stream() == old(input).stream() && old(input).stream().offset
                == (match at {
                Some(at) => Some(at as int),
                None => None,
            }),
            Err(e) => e is Io && !old(input).infallible(),
        },
{
    match input.position() {
        None => Ok(None),
        Some(Ok(at)) => Ok(Some(at)),
        Some(Err(e)) => Err(Error::Io(e)),
    }
}

/// Read some bytes, or all of them where there are fewer. What had been read before a failure is
/// handed out, too.
pub fn seq_read_up_to<T: SeqRead>(input: &mut T, size: usize) -> (r: (Vec<u8>, Option<Error>))
    ensures
        final(input).infallible() == old(input).infallible(),
        r.0@.len() <= size,
        r.0@.len() <= old(input).stream().unread.len(),
        r.0@ == old(input).stream().unread.take(r.0@.len() as int),
        match r.1 {
            None => {
                &&& final(input).stream() == old(input).stream().passed(size as nat)
                &&& r.0@.len() == size || r.0@.len() == old(input).stream().unread.len()
            },
            Some(e) => e is Io && !old(input).infallible(),
        },
{
    let mut data: Vec<u8> = Vec::new();
    let ghost start = input.stream();
    proof {
        lemma_advanced(start, 0, 0);
        assert(data@ =~= start.unread.take(0));
    }
    while data.len() < size
        invariant
            start == old(input).stream(),
            input.infallible() == old(input).infallible(),
            data@.len() <= size,
            data@.len() <= start.unread.len(),
            data@ == start.unread.take(data@.len() as int),
            input.stream() == start.advanced(data@.len()),
        decreases size - data@.len(),
    {
        let ghost before = data@;
        let mut buf = util::vec_new(size - data.len());
        let got: usize = match seq_read(input, buf.as_mut_slice()) {
            Ok(got) => got,
            Err(e) => {
                return (data, Some(e));
            },
        };
        if got == 0 {
            return (data, None);
        }
        util::extend(&mut data, slice_subrange(buf.as_slice(), 0, got));
        proof {
            lemma_advanced(start, before.len(), got as nat);
            assert(buf@.subrange(0, got as int) =~= buf@.take(got as int));
            assert(data@ =~= start.unread.take(before.len() + got));
        }
    }
    (data, None)
}

/// `read_exact` - since that's what we _actually_ want most of the time, but with EOF handling
pub fn seq_read_exact_or_eof<T: SeqRead>(input: &mut T, buf: &mut [u8]) -> (r: Result<
    Option<()>,
    Error,
>)
    ensures
        final(buf)@.len() == old(buf)@.len(),
        final(input).infallible() == old(input).infallible(),
        !(r matches Err(Error::Io(_))) ==> final(input).stream().follows(old(input).stream()),
        // there is nothing left where there is not enough
        r matches Err(e) ==> !(e is Io) ==> final(input).stream() == old(input).stream().advanced(
            old(input).stream().unread.len(),
        ),
        match r {
            Ok(Some(())) => old(input).stream().take_exact_or_eof(old(buf)@.len()) == Ok::<_, Error>(
                Some((final(buf)@, final(input).stream())),
            ),
            Ok(None) => {
                &&& old(input).stream().take_exact_or_eof(old(buf)@.len()) == Ok::<
                    Option<(Seq<u8>, InputView)>,
                    Error,
                >(None)
                &&& final(input).stream() == old(input).stream()
            },
            Err(Error::Io(_)) => !old(input).infallible(),
            Err(e) => old(input).stream().take_exact_or_eof(old(buf)@.len()) == Err::<
                Option<(Seq<u8>, InputView)>,
                Error,
            >(e),
        },
{
    broadcast use {lemma_follows, lemma_advanced_follows};

    let len: usize = buf.len();
    let mut at: usize = 0;
    let ghost start = input.stream();
    proof {
        lemma_advanced(start, 0, 0);
        assert(buf@.take(0) =~= start.unread.take(0));
    }
    while at < len
        invariant
            at <= len,
            buf@.len() == len,
            start == old(input).stream(),
            len == old(buf)@.len(),
            input.infallible() == old(input).infallible(),
            at <= start.unread.len(),
            buf@.take(at as int) == start.unread.take(at as int),
            input.stream() == start.advanced(at as nat),
        decreases len - at,
    {
        let ghost before = buf@;
        let got: usize;
        {
            let (_, rest) = buf.split_at_mut(at);
            got =
            match seq_read(input, rest) {
                Ok(n) => n,
                Err(e) => {
                    return Err(e);
                },
            };
        }
        if got == 0 {
            proof {
                assert(start.unread.skip(at as int).len() == 0);
            }
            if at == 0 {
                proof {
                    lemma_advanced(start, 0, 0);
                }
                return Ok(None);
            }
            return Err(Error::UnexpectedEof);
        }
        proof {
            lemma_advanced(start, at as nat, got as nat);
            assert(buf@.take(at as int) =~= before.take(at as int));
            assert(buf@.skip(at as int).take(got as int) =~= start.unread.skip(at as int).take(
                got as int,
            ));
            assert forall|i: int| 0 <= i < at + got implies buf@[i] == start.unread[i] by {
                if i < at {
                    assert(buf@.take(at as int)[i] == start.unread.take(at as int)[i]);
                } else {
                    assert(buf@.skip(at as int).take(got as int)[i - at] == start.unread.skip(
                        at as int,
                    ).take(got as int)[i - at]);
                }
            }
            assert(buf@.take(at + got) =~= start.unread.take(at + got));
        }
        at = at + got;
    }
    proof {
        assert(buf@.take(len as int) =~= buf@);
    }
    Ok(Some(()))
}

/// `read_exact` - since that's what we _actually_ want most of the time.
pub fn seq_read_exact<T: SeqRead>(input: &mut T, buf: &mut [u8]) -> (r: Result<(), Error>)
    ensures
        final(buf)@.len() == old(buf)@.len(),
        final(input).infallible() == old(input).infallible(),
        !(r matches Err(Error::Io(_))) ==> final(input).stream().follows(old(input).stream()),
        // there is nothing left where there is not enough
        r matches Err(e) ==> !(e is Io) ==> final(input).stream() == old(input).stream().advanced(
            old(input).stream().unread.len(),
        ),
        match r {
            Ok(()) => old(input).stream().take_exact(old(buf)@.len()) == Ok::<_, Error>(
                (final(buf)@, final(input).stream()),
            ),
            Err(Error::Io(_)) => !old(input).infallible(),
            Err(e) => old(input).stream().take_exact(old(buf)@.len()) == Err::<
                (Seq<u8>, InputView),
                Error,
            >(e),
        },
{
    broadcast use {lemma_follows, lemma_advanced_follows};

    match seq_read_exact_or_eof(input, buf) {
        Ok(Some(())) => Ok(()),
        Ok(None) => Err(Error::UnexpectedEof),
        Err(e) => Err(e),
    }
}

/// Helper to read into an allocated byte vector.
pub fn seq_read_exact_data<T: SeqRead>(input: &mut T, size: usize) -> (r: Result<Vec<u8>, Error>)
    ensures
        final(input).infallible() == old(input).infallible(),
        !(r matches Err(Error::Io(_))) ==> final(input).stream().follows(old(input).stream()),
        // there is nothing left where there is not enough
        r matches Err(e) ==> !(e is Io) ==> final(input).stream() == old(input).stream().advanced(
            old(input).stream().unread.len(),
        ),
        match r {
            Ok(data) => old(input).stream().take_exact(size as nat) == Ok::<_, Error>(
                (data@, final(input).stream()),
            ),
            Err(Error::Io(_)) => !old(input).infallible(),
            Err(e) => old(input).stream().take_exact(size as nat) == Err::<
                (Seq<u8>, InputView),
                Error,
            >(e),
        },
{
    broadcast use {lemma_follows, lemma_advanced_follows};

    let mut data = util::vec_new(size);
    match seq_read_exact(input, data.as_mut_slice()) {
        Ok(()) => Ok(data),
        Err(e) => Err(e),
    }
}

/// `seq_read_entry` with EOF handling
pub fn seq_read_entry_or_eof<T: SeqRead, E: Wire>(input: &mut T) -> (r: Result<Option<E>, Error>)
    ensures
        final(input).infallible() == old(input).infallible(),
        !(r matches Err(Error::Io(_))) ==> final(input).stream().follows(old(input).stream()),
        // there is nothing left where there is not enough
        r matches Err(e) ==> !(e is Io) ==> final(input).stream() == old(input).stream().advanced(
            old(input).stream().unread.len(),
        ),
        match r {
            Ok(Some(entry)) => {
                &&& old(input).stream().take_exact_or_eof(E::wire_size()) matches Ok(Some((b, i)))
                &&& entry == E::from_wire(b)
                &&& final(input).stream() == i
            },
            Ok(None) => old(input).stream().take_exact_or_eof(E::wire_size()) == Ok::<
                Option<(Seq<u8>, InputView)>,
                Error,
            >(None) && final(input).stream() == old(input).stream(),
            Err(Error::Io(_)) => !old(input).infallible(),
            Err(e) => old(input).stream().take_exact_or_eof(E::wire_size()) == Err::<
                Option<(Seq<u8>, InputView)>,
                Error,
            >(e),
        },
{
    broadcast use {lemma_follows, lemma_advanced_follows};

    let mut data = util::vec_new(E::size());
    match seq_read_exact_or_eof(input, data.as_mut_slice()) {
        Ok(Some(())) => Ok(Some(E::from_bytes(data.as_slice()))),
        Ok(None) => Ok(None),
        Err(e) => Err(e),
    }
}

/// Helper to read a fixed-size value.
pub fn seq_read_entry<T: SeqRead, E: Wire>(input: &mut T) -> (r: Result<E, Error>)
    ensures
        final(input).infallible() == old(input).infallible(),
        !(r matches Err(Error::Io(_))) ==> final(input).stream().follows(old(input).stream()),
        // there is nothing left where there is not enough
        r matches Err(e) ==> !(e is Io) ==> final(input).stream() == old(input).stream().advanced(
            old(input).stream().unread.len(),
        ),
        match r {
            Ok(entry) => {
                &&& old(input).stream().take_exact(E::wire_size()) matches Ok((b, i))
                &&& entry == E::from_wire(b)
                &&& final(input).stream() == i
            },
            Err(Error::Io(_)) => !old(input).infallible(),
            Err(e) => old(input).stream().take_exact(E::wire_size()) == Err::<
                (Seq<u8>, InputView),
                Error,
            >(e),
        },
{
    broadcast use {lemma_follows, lemma_advanced_follows};

    match seq_read_entry_or_eof(input) {
        Ok(Some(entry)) => Ok(entry),
        Ok(None) => Err(Error::UnexpectedEof),
        Err(e) => Err(e),
    }
}

/// Read and forget `len` bytes.
pub fn seq_skip<T: SeqRead>(input: &mut T, len: u64) -> (r: Result<(), Error>)
    ensures
        final(input).infallible() == old(input).infallible(),
        !(r matches Err(Error::Io(_))) ==> final(input).stream().follows(old(input).stream()),
        // there is nothing left where there is not enough
        r matches Err(e) ==> !(e is Io) ==> final(input).stream() == old(input).stream().advanced(
            old(input).stream().unread.len(),
        ),
        match r {
            Ok(()) => old(input).stream().take_exact(len as nat) matches Ok((_, i))
                && final(input).stream() == i,
            Err(Error::Io(_)) => !old(input).infallible(),
            Err(e) => old(input).stream().take_exact(len as nat) == Err::<
                (Seq<u8>, InputView),
                Error,
            >(e),
        },
{
    broadcast use {lemma_follows, lemma_advanced_follows};

    let mut scratch = util::vec_new(4096);
    let mut left: u64 = len;
    let ghost start = input.stream();
    proof {
        lemma_advanced(start, 0, 0);
    }
    while left >= 4096
        invariant
            left <= len,
            scratch@.len() == 4096,
            start == old(input).stream(),
            input.infallible() == old(input).infallible(),
            len - left <= start.unread.len(),
            input.stream() == start.advanced((len - left) as nat),
        decreases left,
    {
        match seq_read_exact(input, scratch.as_mut_slice()) {
            Ok(()) => {},
            Err(e) => {
                return Err(e);
            },
        }
        proof {
            lemma_advanced(start, (len - left) as nat, 4096);
        }
        left = left - 4096;
    }
    if left > 0 {
        let mut rest = util::vec_new(left as usize);
        match seq_read_exact(input, rest.as_mut_slice()) {
            Ok(()) => {},
            Err(e) => {
                return Err(e);
            },
        }
        proof {
            lemma_advanced(start, (len - left) as nat, left as nat);
        }
    }
    Ok(())
}

} // verus!
