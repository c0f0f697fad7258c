//! Time stamps.

use vstd::prelude::*;

use crate::format::wire::{
    get32, get64, le32, le64, lemma_le32_len, lemma_le64_len, lemma_word32, lemma_word64, put32,
    put64, word32, word64, Wire,
};

verus! {

pub const NANOS_PER_SEC: u64 = 1_000_000_000;

/// A span of time.
#[derive(Clone, Copy, Debug, PartialEq, Eq, PartialOrd, Ord, Structural)]
pub struct Duration {
    pub secs: u64,
    pub nanos: u32,
}

impl Duration {
    /// There is less than a second in the nanoseconds.
    pub open spec fn well_formed(self) -> bool {
        self.nanos < NANOS_PER_SEC
    }

    /// The span in nanoseconds.
    pub open spec fn total_nanos(self) -> int {
        self.secs * NANOS_PER_SEC + self.nanos
    }
}

/// A difference of times: an `Ok` value is a positive duration, an `Err` value is a negative
/// duration.
pub type SignedDuration = Result<Duration, Duration>;

/// A signed duration in nanoseconds.
pub open spec fn signed_nanos(d: SignedDuration) -> int {
    match d {
        Ok(d) => d.total_nanos(),
        Err(d) => -d.total_nanos(),
    }
}

/// A point in time, as the `statx` system call reports it: `secs` seconds since the epoch, which
/// can be negative, and `nanos` nanoseconds after that.
#[derive(Clone, Copy, Debug, PartialEq, Eq, PartialOrd, Ord, Structural)]
pub struct StatxTimestamp {
    /// Seconds since the epoch (unix time).
    pub secs: i64,

    /// Nanoseconds since this timestamp's `secs`.
    pub nanos: u32,
}

impl StatxTimestamp {
    /// The time in nanoseconds since the epoch.
    pub open spec fn total_nanos(self) -> int {
        self.secs * NANOS_PER_SEC + self.nanos
    }

    /// The epoch.
    pub fn zero() -> (r: Self)
        ensures
            r.secs == 0,
            r.nanos == 0,
    {
        StatxTimestamp { secs: 0, nanos: 0 }
    }

    /// Turn a positive duration since the epoch into a time stamp.
    pub fn from_duration_since_epoch(duration: Duration) -> (r: Self)
        requires
            duration.well_formed(),
            duration.secs <= i64::MAX,
        ensures
            r.nanos < NANOS_PER_SEC,
            r.total_nanos() == duration.total_nanos(),
    {
        StatxTimestamp { secs: duration.secs as i64, nanos: duration.nanos }
    }

    /// Turn a duration *before* the epoch into a time stamp.
    pub fn from_duration_before_epoch(duration: Duration) -> (r: Self)
        requires
            duration.well_formed(),
            duration.secs <= i64::MAX,
        ensures
            r.nanos < NANOS_PER_SEC,
            r.total_nanos() == -duration.total_nanos(),
    {
        let secs: i64 = -(duration.secs as i64);
        if duration.nanos == 0 {
            StatxTimestamp { secs, nanos: 0 }
        } else {
            StatxTimestamp { secs: secs - 1, nanos: 1_000_000_000 - duration.nanos }
        }
    }

    /// Turn a signed duration since the epoch into a time stamp.
    pub fn from_signed_duration(duration: SignedDuration) -> (r: Self)
        requires
            match duration {
                Ok(d) => d.well_formed() && d.secs <= i64::MAX,
                Err(d) => d.well_formed() && d.secs <= i64::MAX,
            },
        ensures
            r.nanos < NANOS_PER_SEC,
            r.total_nanos() == signed_nanos(duration),
    {
        match duration {
            Ok(d) => Self::from_duration_since_epoch(d),
            Err(d) => Self::from_duration_before_epoch(d),
        }
    }

    /// Get the time as a signed duration since the epoch. The epoch itself is a positive duration.
    pub fn to_duration(&self) -> (r: SignedDuration)
        ensures
            signed_nanos(r) == self.total_nanos(),
            r is Ok <==> self.total_nanos() >= 0,
            match r {
                Ok(d) => d.well_formed(),
                Err(d) => d.well_formed(),
            },
    {
        let total: i128 = self.secs as i128 * 1_000_000_000 + self.nanos as i128;
        if total >= 0 {
            let t: u128 = total as u128;
            Ok(Duration { secs: (t / 1_000_000_000) as u64, nanos: (t % 1_000_000_000) as u32 })
        } else {
            let t: u128 = (-total) as u128;
            Err(Duration { secs: (t / 1_000_000_000) as u64, nanos: (t % 1_000_000_000) as u32 })
        }
    }
}

impl Wire for StatxTimestamp {
    open spec fn wire_size() -> nat {
        16
    }

    open spec fn wire(self) -> Seq<u8> {
        le64(self.secs as u64) + le32(self.nanos) + le32(0)
    }

    open spec fn from_wire(s: Seq<u8>) -> Self {
        StatxTimestamp { secs: word64(s, 0) as i64, nanos: word32(s, 8) }
    }

    proof fn lemma_wire_round_trip(self) {
        broadcast use {lemma_le64_len, lemma_le32_len};

        let s = self.wire();
        let secs = self.secs;
        assert(((secs as u64) as i64) == secs) by (bit_vector);
        assert(s.subrange(0, 8) =~= le64(secs as u64));
        assert(s.subrange(8, 12) =~= le32(self.nanos));
        lemma_word64(s, 0, secs as u64);
        lemma_word32(s, 8, self.nanos);
    }

    fn size() -> (n: usize) {
        16
    }

    fn to_bytes(&self) -> (b: Vec<u8>) {
        let mut out: Vec<u8> = Vec::new();
        put64(&mut out, self.secs as u64);
        put32(&mut out, self.nanos);
        put32(&mut out, 0);
        proof {
            assert(out@ =~= self.wire());
        }
        out
    }

    fn from_bytes(b: &[u8]) -> (v: Self) {
        StatxTimestamp { secs: get64(b, 0) as i64, nanos: get32(b, 8) }
    }
}

/// A point in time has no more than one time stamp, among those whose nanoseconds make up less than
/// a second.
pub proof fn law_time_stamps_are_unique(a: StatxTimestamp, b: StatxTimestamp)
    requires
        a.nanos < NANOS_PER_SEC,
        b.nanos < NANOS_PER_SEC,
        a.total_nanos() == b.total_nanos(),
    ensures
        a == b,
{
}

/// Time is counted in nanoseconds: a second more is a thousand million more, a nanosecond more is
/// one more, and the epoch is zero. A negative span counts backwards.
pub proof fn law_nanoseconds(a: StatxTimestamp, b: StatxTimestamp, c: Duration, d: Duration)
    ensures
        a.nanos == b.nanos && a.secs == b.secs + 1 ==> a.total_nanos() == b.total_nanos()
            + 1_000_000_000,
        a.secs == b.secs && a.nanos == b.nanos + 1 ==> a.total_nanos() == b.total_nanos() + 1,
        a.secs == 0 && a.nanos == 0 ==> a.total_nanos() == 0,
        a.secs == c.secs && a.nanos == c.nanos ==> a.total_nanos() == c.total_nanos(),
        a.total_nanos() - b.total_nanos() == (a.secs - b.secs) * 1_000_000_000 + (a.nanos
            - b.nanos),
        c.total_nanos() - d.total_nanos() == (c.secs - d.secs) * 1_000_000_000 + (c.nanos
            - d.nanos),
        c.secs == 0 && c.nanos == 0 ==> c.total_nanos() == 0,
        signed_nanos(Ok(c)) == c.total_nanos(),
        signed_nanos(Err(c)) == -c.total_nanos(),
        c.well_formed() <==> c.nanos < 1_000_000_000,
        NANOS_PER_SEC == 1_000_000_000,
{
}

} // verus!
