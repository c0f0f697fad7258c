//! Positional reading.

use vstd::pervasive::cloned;
use vstd::prelude::*;

use crate::errors::Error;
use crate::format::wire::Wire;
use crate::util;

verus! {

/// The `n` bytes at `offset`.
pub open spec fn bytes_at(contents: Seq<u8>, offset: u64, n: nat) -> Result<Seq<u8>, Error> {
    if n == 0 {
        Ok(Seq::empty())
    } else if offset + n <= contents.len() {
        Ok(contents.subrange(offset as int, offset + n))
    } else {
        Err(Error::UnexpectedEof)
    }
}

/// Random access read implementation.
pub trait ReadAt: Sized {
    /// All the bytes.
    open spec fn contents(&self) -> Seq<u8> {
        Seq::empty()
    }

    /// Reading from this input never fails.
    open spec fn infallible(&self) -> bool {
        false
    }

    /// Read some of the bytes from `offset` on into the start of `buf`, and none of them only
    /// where there are none or there is no room.
    fn read_at(&self, buf: &mut [u8], offset: u64) -> (r: Result<usize, std::io::Error>)
        ensures
            final(buf)@.len() == old(buf)@.len(),
            match r {
                Ok(n) => {
                    &&& n <= old(buf)@.len()
                    &&& offset + n <= u64::MAX
                    &&& n > 0 ==> offset + n <= self.contents().len()
                    &&& n > 0 ==> final(buf)@.take(n as int) == self.contents().subrange(
                        offset as int,
                        offset + n,
                    )
                    &&& n == 0 ==> old(buf)@.len() == 0 || offset >= self.contents().len()
                },
                Err(_) => !self.infallible(),
            },
    ;
}

/// Clones of an input are that input: they read the same archive.
pub open spec fn clones_equal<T: Clone>() -> bool {
    forall|a: T, b: T| #[trigger] cloned(a, b) ==> a == b
}

/// Another handle to an input.
pub fn clone_input<T: Clone>(input: &T) -> (r: T)
    requires
        clones_equal::<T>(),
    ensures
        r == *input,
{
    let r = input.clone();
    proof {
        assert(cloned(*input, r));
    }
    r
}

/// Allow reading through references.
impl<'a, T: ReadAt> ReadAt for &'a T {
    open spec fn contents(&self) -> Seq<u8> {
        (*self).contents()
    }

    open spec fn infallible(&self) -> bool {
        (*self).infallible()
    }

    fn read_at(&self, buf: &mut [u8], offset: u64) -> (r: Result<usize, std::io::Error>) {
        (*self).read_at(buf, offset)
    }
}

/// Bytes in memory.
impl<'a> ReadAt for &'a [u8] {
    open spec fn contents(&self) -> Seq<u8> {
        self@
    }

    open spec fn infallible(&self) -> bool {
        true
    }

    fn read_at(&self, buf: &mut [u8], offset: u64) -> (r: Result<usize, std::io::Error>) {
        let len: usize = self.len();
        if offset >= len as u64 {
            return Ok(0);
        }
        let start: usize = offset as usize;
        let room: usize = buf.len();
        let n: usize = if room < len - start {
            room
        } else {
            len - start
        };
        let mut i: usize = 0;
        while i < n
            invariant
                i <= n <= buf@.len(),
                start + n <= len,
                len == self@.len(),
                buf@.len() == old(buf)@.len(),
                forall|j: int| 0 <= j < i ==> buf@[j] == self@[start + j],
            decreases n - i,
        {
            buf[i] = self[start + i];
            i = i + 1;
        }
        proof {
            assert(buf@.take(n as int) =~= self@.subrange(start as int, start + n));
        }
        Ok(n)
    }
}

/// Read part of what stands at `offset`.
pub fn read_at<T: ReadAt>(input: &T, buf: &mut [u8], offset: u64) -> (r: Result<usize, Error>)
    ensures
        final(buf)@.len() == old(buf)@.len(),
        match r {
            Ok(n) => {
                &&& n <= old(buf)@.len()
                &&& offset + n <= u64::MAX
                &&& n > 0 ==> offset + n <= input.contents().len()
                &&& n > 0 ==> final(buf)@.take(n as int) == input.contents().subrange(
                    offset as int,
                    offset + n,
                )
                &&& n == 0 ==> old(buf)@.len() == 0 || offset >= input.contents().len()
            },
            Err(e) => e is Io && !input.infallible(),
        },
{
    match input.read_at(buf, offset) {
        Ok(n) => Ok(n),
        Err(e) => Err(Error::Io(e)),
    }
}

/// `read_exact_at` - since that's what we _actually_ want most of the time.
pub fn read_exact_at<T: ReadAt>(input: &T, buf: &mut [u8], offset: u64) -> (r: Result<(), Error>)
    ensures
        final(buf)@.len() == old(buf)@.len(),
        match r {
            Ok(()) => {
                &&& bytes_at(input.contents(), offset, old(buf)@.len()) == Ok::<_, Error>(
                    final(buf)@,
                )
                &&& offset + old(buf)@.len() <= u64::MAX || old(buf)@.len() == 0
            },
            Err(Error::Io(_)) => !input.infallible(),
            Err(e) => bytes_at(input.contents(), offset, old(buf)@.len()) == Err::<
                Seq<u8>,
                Error,
            >(e),
        },
{
    let len: usize = buf.len();
    let mut at: usize = 0;
    let ghost all = input.contents();
    proof {
        assert(buf@.take(0) =~= all.subrange(0, 0));
    }
    while at < len
        invariant
            at <= len,
            len == buf@.len(),
            len == old(buf)@.len(),
            all == input.contents(),
            offset + at <= u64::MAX,
            at > 0 ==> offset + at <= all.len(),
            forall|i: int| 0 <= i < at ==> buf@[i] == all[offset + i],
        decreases len - at,
    {
        let ghost before = buf@;
        let got: usize;
        {
            let (_, rest) = buf.split_at_mut(at);
            got =
            match read_at(input, rest, offset + at as u64) {
                Ok(got) => got,
                Err(e) => {
                    return Err(e);
                },
            };
        }
        if got == 0 {
            return Err(Error::UnexpectedEof);
        }
        proof {
            let piece = all.subrange(offset + at, offset + at + got);
            assert(buf@.skip(at as int).take(got as int) =~= piece);
            assert forall|i: int| 0 <= i < at + got implies buf@[i] == all[offset + i] by {
                if i < at {
                    assert(buf@.take(at as int)[i] == before.take(at as int)[i]);
                } else {
                    assert(buf@.skip(at as int).take(got as int)[i - at] == piece[i - at]);
                }
            }
        }
        at = at + got;
    }
    proof {
        if len == 0 {
            assert(buf@ =~= Seq::<u8>::empty());
        } else {
            assert(buf@ =~= all.subrange(offset as int, offset + len));
        }
    }
    Ok(())
}

/// Helper to read a fixed-size value.
pub fn read_entry_at<T: ReadAt, E: Wire>(input: &T, offset: u64) -> (r: Result<E, Error>)
    ensures
        match r {
            Ok(entry) => {
                &&& bytes_at(input.contents(), offset, E::wire_size()) matches Ok(b)
                &&& entry == E::from_wire(b)
                &&& offset + E::wire_size() <= u64::MAX || E::wire_size() == 0
            },
            Err(Error::Io(_)) => !input.infallible(),
            Err(e) => bytes_at(input.contents(), offset, E::wire_size()) == Err::<Seq<u8>, Error>(
                e,
            ),
        },
{
    let mut data = util::vec_new(E::size());
    match read_exact_at(input, data.as_mut_slice(), offset) {
        Ok(()) => Ok(E::from_bytes(data.as_slice())),
        Err(e) => Err(e),
    }
}

/// Helper to read into an allocated byte vector.
pub fn read_exact_data_at<T: ReadAt>(input: &T, size: usize, offset: u64) -> (r: Result<
    Vec<u8>,
    Error,
>)
    ensures
        match r {
            Ok(data) => {
                &&& bytes_at(input.contents(), offset, size as nat) == Ok::<_, Error>(data@)
                &&& offset + size <= u64::MAX || size == 0
            },
            Err(Error::Io(_)) => !input.infallible(),
            Err(e) => bytes_at(input.contents(), offset, size as nat) == Err::<Seq<u8>, Error>(e),
        },
{
    let mut data = util::vec_new(size);
    match read_exact_at(input, data.as_mut_slice(), offset) {
        Ok(()) => Ok(data),
        Err(e) => Err(e),
    }
}

} // verus!
