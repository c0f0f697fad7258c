//! Reading the contents of a file inside an archive.

use vstd::prelude::*;
use vstd::slice::slice_subrange;

use crate::decoder::read::{lemma_advanced, starts_to, InputView, SeqRead, READ_BUFFER_SIZE};
use crate::errors::Error;
use crate::util;

verus! {

/// Reader for file contents inside a pxar archive.
pub struct Contents<'a, T: SeqRead> {
    /// The input of the decoder, somewhere in the contents of the current file.
    pub input: &'a mut T,
    /// How much of the contents has been read.
    pub at: &'a mut u64,
    /// The size of the file.
    pub len: u64,
}

impl<'a, T: SeqRead> Contents<'a, T> {
    /// How much of the contents has been read.
    pub open spec fn consumed(&self) -> u64 {
        *self.at
    }

    /// How much of the contents is still to come.
    pub open spec fn left(&self) -> nat {
        if self.consumed() < self.len {
            (self.len - self.consumed()) as nat
        } else {
            0
        }
    }

    pub fn new(input: &'a mut T, at: &'a mut u64, len: u64) -> (r: Self)
        ensures
            *r.input == *old(input),
            *final(r.input) == *final(input),
            r.consumed() == *old(at),
            *final(r.at) == *final(at),
            r.len == len,
    {
        Contents { input, at, len }
    }

    /// Read some of the contents.
    pub fn read(&mut self, buf: &mut [u8]) -> (r: Result<usize, Error>)
        ensures
            final(buf)@.len() == old(buf)@.len(),
            final(self).infallible() == old(self).infallible(),
            final(self).len == old(self).len,
            *final(final(self).input) == *final(old(self).input),
            *final(final(self).at) == *final(old(self).at),
            match r {
                Ok(n) => {
                    &&& n <= old(buf)@.len()
                    &&& n <= old(self).stream().unread.len()
                    &&& final(buf)@.take(n as int) == old(self).stream().unread.take(n as int)
                    &&& n == 0 ==> old(buf)@.len() == 0 || old(self).stream().unread.len() == 0
                    &&& final(self).stream() == old(self).stream().advanced(n as nat)
                    &&& final(self).input.stream() == old(self).input.stream().advanced(n as nat)
                    &&& final(self).consumed() == old(self).consumed() + n
                },
                Err(e) => {
                    &&& e is Io
                    &&& !old(self).infallible()
                    &&& old(buf)@.len() > 0
                    &&& old(self).left() > 0
                    &&& final(self).consumed() == old(self).consumed()
                },
            },
    {
        match self.seq_read(buf) {
            Ok(n) => Ok(n),
            Err(e) => Err(Error::Io(e)),
        }
    }

    /// Append the rest of the contents to a vector. On success, the number of bytes is returned.
    pub fn read_to_end(&mut self, out: &mut Vec<u8>) -> (r: Result<usize, Error>)
        ensures
            final(self).infallible() == old(self).infallible(),
            final(self).len == old(self).len,
            *final(final(self).input) == *final(old(self).input),
            *final(final(self).at) == *final(old(self).at),
            match r {
                Ok(n) => {
                    &&& n == old(self).stream().unread.len()
                    &&& final(out)@ == old(out)@ + old(self).stream().unread
                    &&& final(self).stream() == old(self).stream().advanced(n as nat)
                    &&& final(self).input.stream() == old(self).input.stream().advanced(n as nat)
                    &&& final(self).consumed() == old(self).consumed() + n
                },
                Err(e) => {
                    &&& e is Io
                    &&& !old(self).infallible()
                    &&& old(self).left() > 0
                    // what had been read by then is there
                    &&& exists|n: nat| #[trigger]
                        starts_to(old(self).stream().unread, n, old(out)@, final(out)@)
                            && final(self).consumed() == old(self).consumed() + n
                },
            },
    {
        let start: usize = out.len();
        let mut buf = util::vec_new(READ_BUFFER_SIZE);
        let ghost all = self.stream();
        let ghost mut at: nat = 0;
        proof {
            lemma_advanced(all, 0, 0);
            lemma_advanced(self.input.stream(), 0, 0);
            assert(out@ + all.unread.take(0) =~= out@);
        }
        loop
            invariant
                buf@.len() == READ_BUFFER_SIZE,
                start == old(out)@.len(),
                all == old(self).stream(),
                at <= all.unread.len(),
                self.infallible() == old(self).infallible(),
                self.len == old(self).len,
                *final(self.input) == *final(old(self).input),
                *final(self.at) == *final(old(self).at),
                self.stream() == all.advanced(at),
                self.input.stream() == old(self).input.stream().advanced(at),
                self.consumed() == old(self).consumed() + at,
                out@ == old(out)@ + all.unread.take(at as int),
            decreases all.unread.len() - at,
        {
            proof {
                assert(starts_to(all.unread, at, old(out)@, out@));
            }
            match self.read(buf.as_mut_slice()) {
                Ok(got) => {
                    if got == 0 {
                        proof {
                            assert(all.unread.take(at as int) =~= all.unread);
                        }
                        return Ok(out.len() - start);
                    }
                    let ghost before = out@;
                    util::extend(out, slice_subrange(buf.as_slice(), 0, got));
                    proof {
                        assert(buf@.subrange(0, got as int) =~= buf@.take(got as int));
                        assert(before + buf@.take(got as int) =~= old(out)@ + all.unread.take(
                            at + got,
                        ));
                        lemma_advanced(all, at, got as nat);
                        lemma_advanced(old(self).input.stream(), at, got as nat);
                        at = at + got as nat;
                    }
                },
                Err(e) => {
                    return Err(e);
                },
            }
        }
    }

    fn remaining(&self) -> (r: u64)
        ensures
            r == self.left(),
    {
        if *self.at < self.len {
            self.len - *self.at
        } else {
            0
        }
    }
}

impl<'a, T: SeqRead> SeqRead for Contents<'a, T> {
    /// The input of the decoder, up to the end of the file.
    open spec fn stream(&self) -> InputView {
        let all = self.input.stream();
        InputView {
            unread: if self.left() < all.unread.len() {
                all.unread.take(self.left() as int)
            } else {
                all.unread
            },
            offset: all.offset,
        }
    }

    open spec fn infallible(&self) -> bool {
        self.input.infallible()
    }

    /// Read some of the contents. The decoder's input moves on accordingly.
    fn seq_read(&mut self, buf: &mut [u8]) -> (r: Result<usize, std::io::Error>)
        ensures
            final(self).len == old(self).len,
            *final(final(self).input) == *final(old(self).input),
            *final(final(self).at) == *final(old(self).at),
            match r {
                Ok(n) => {
                    &&& n <= old(self).left()
                    &&& final(self).input.stream() == old(self).input.stream().advanced(n as nat)
                    &&& final(self).consumed() == old(self).consumed() + n
                },
                Err(_) => {
                    &&& old(buf)@.len() > 0
                    &&& old(self).left() > 0
                    &&& final(self).consumed() == old(self).consumed()
                },
            },
    {
        let remaining: u64 = self.remaining();
        let len: usize = buf.len();
        let max_read: usize = if (len as u64) < remaining {
            len
        } else {
            remaining as usize
        };
        proof {
            lemma_advanced(self.input.stream(), 0, 0);
            lemma_advanced(self.stream(), 0, 0);
        }
        if max_read == 0 {
            proof {
                assert(buf@.take(0) =~= self.stream().unread.take(0));
            }
            return Ok(0);
        }
        let got: usize;
        {
            let (front, _) = buf.split_at_mut(max_read);
            got =
            match self.input.seq_read(front) {
                Ok(n) => n,
                Err(e) => {
                    return Err(e);
                },
            };
        }
        *self.at = *self.at + got as u64;
        proof {
            assert(buf@.take(got as int) =~= buf@.take(max_read as int).take(got as int));
            assert(old(self).input.stream().unread.take(got as int) =~= old(
                self,
            ).stream().unread.take(got as int));
            assert(self.stream() =~= old(self).stream().advanced(got as nat));
        }
        Ok(got)
    }

    fn position(&mut self) -> (r: Option<Result<u64, std::io::Error>>)
        ensures
            final(self).len == old(self).len,
            final(self).consumed() == old(self).consumed(),
            *final(final(self).input) == *final(old(self).input),
            *final(final(self).at) == *final(old(self).at),
    {
        self.input.position()
    }
}

} // verus!
