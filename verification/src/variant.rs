//! Archives in one or in two streams.

use vstd::prelude::*;

verus! {

/// An archive keeps the contents of its files either in the archive itself or in a separate
/// payload stream.
#[derive(Debug)]
pub enum PxarVariant<T, P> {
    /// Everything is in one stream.
    Unified(T),

    /// The contents of files are in the second stream.
    Split(T, P),
}

impl<T, P> PxarVariant<T, P> {
    /// The archive stream.
    pub open spec fn archive_stream(&self) -> T {
        match *self {
            PxarVariant::Unified(a) => a,
            PxarVariant::Split(a, _) => a,
        }
    }

    /// The payload stream.
    pub open spec fn payload_stream(&self) -> Option<P> {
        match *self {
            PxarVariant::Unified(_) => None,
            PxarVariant::Split(_, p) => Some(p),
        }
    }

    /// Get the archive stream.
    pub fn archive(&self) -> (r: &T)
        ensures
            *r == self.archive_stream(),
    {
        match self {
            PxarVariant::Unified(a) => a,
            PxarVariant::Split(a, _) => a,
        }
    }

    /// Get the payload stream, if there is one.
    pub fn payload(&self) -> (r: Option<&P>)
        ensures
            match r {
                Some(p) => self.payload_stream() == Some(*p),
                None => self.payload_stream() is None,
            },
    {
        match self {
            PxarVariant::Unified(_) => None,
            PxarVariant::Split(_, p) => Some(p),
        }
    }

    /// Get the archive stream for writing.
    pub fn archive_mut(&mut self) -> (r: &mut T)
        ensures
            *r == old(self).archive_stream(),
            *final(self) == (match *old(self) {
                PxarVariant::Unified(_) => PxarVariant::Unified(*final(r)),
                PxarVariant::Split(_, p) => PxarVariant::Split(*final(r), p),
            }),
    {
        match self {
            PxarVariant::Unified(a) => a,
            PxarVariant::Split(a, _) => a,
        }
    }

    /// Get the payload stream for writing, if there is one.
    pub fn payload_mut(&mut self) -> (r: Option<&mut P>)
        ensures
            match r {
                Some(p) => old(self).payload_stream() == Some(*p) && *final(self)
                    == PxarVariant::Split(old(self).archive_stream(), *final(p)),
                None => old(self).payload_stream() is None && *final(self) == *old(self),
            },
    {
        match self {
            PxarVariant::Unified(_) => None,
            PxarVariant::Split(_, p) => Some(p),
        }
    }
}

} // verus!
