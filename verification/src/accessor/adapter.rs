//! Reading a range of an archive sequentially.

use std::ops::Range;

use vstd::prelude::*;

use crate::accessor::read_at::ReadAt;
use crate::decoder::read::{lemma_advanced, InputView, SeqRead};

verus! {

/// A part of an archive, read from its start to its end.
pub open spec fn range_stream(contents: Seq<u8>, start: u64, end: u64) -> InputView {
    let stop = if end < contents.len() {
        end as int
    } else {
        contents.len() as int
    };
    InputView {
        unread: if start < stop {
            contents.subrange(start as int, stop)
        } else {
            Seq::empty()
        },
        offset: Some(start as int),
    }
}

/// Turns a positional reader into a sequential one.
pub struct SeqReadAtAdapter<T> {
    pub input: T,
    pub range: Range<u64>,
}

impl<T: ReadAt> SeqReadAtAdapter<T> {
    pub fn new(input: T, range: Range<u64>) -> (r: Self)
        requires
            range.start <= range.end,
        ensures
            r.input == input,
            r.range == range,
            r.stream() == range_stream(input.contents(), range.start, range.end),
            r.infallible() == input.infallible(),
    {
        SeqReadAtAdapter { input, range }
    }

    fn remaining(&self) -> (r: u64)
        ensures
            r == if self.range.start <= self.range.end {
                self.range.end - self.range.start
            } else {
                0
            },
    {
        if self.range.start <= self.range.end {
            self.range.end - self.range.start
        } else {
            0
        }
    }
}

impl<T: ReadAt> SeqRead for SeqReadAtAdapter<T> {
    open spec fn stream(&self) -> InputView {
        range_stream(self.input.contents(), self.range.start, self.range.end)
    }

    open spec fn infallible(&self) -> bool {
        self.input.infallible()
    }

    fn seq_read(&mut self, buf: &mut [u8]) -> (r: Result<usize, std::io::Error>)
        ensures
            final(self).input == old(self).input,
            final(self).range.end == old(self).range.end,
    {
        let remaining: u64 = self.remaining();
        let room: usize = buf.len();
        let len: usize = if (room as u64) < remaining {
            room
        } else {
            remaining as usize
        };
        proof {
            lemma_advanced(self.stream(), 0, 0);
            assert(buf@.take(0) =~= self.stream().unread.take(0));
        }
        if len == 0 {
            return Ok(0);
        }
        let start: u64 = self.range.start;
        let got: usize;
        {
            let (front, _) = buf.split_at_mut(len);
            got =
            match self.input.read_at(front, start) {
                Ok(got) => got,
                Err(e) => {
                    return Err(e);
                },
            };
        }
        if got == 0 {
            proof {
                assert(buf@.take(0) =~= self.stream().unread.take(0));
            }
            return Ok(0);
        }
        self.range.start = start + got as u64;
        proof {
            assert(buf@.take(got as int) =~= buf@.take(len as int).take(got as int));
            assert(buf@.take(got as int) =~= old(self).stream().unread.take(got as int));
            assert(self.stream() =~= old(self).stream().advanced(got as nat));
        }
        Ok(got)
    }

    fn position(&mut self) -> (r: Option<Result<u64, std::io::Error>>)
        ensures
            final(self).input == old(self).input,
    {
        Some(Ok(self.range.start))
    }
}

} // verus!
