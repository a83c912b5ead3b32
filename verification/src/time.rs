use vstd::prelude::*;
use crate::codec::put_u64;
use crate::u256::u64_be_bytes;

verus! {

/// Nanoseconds in one second.
pub open spec fn nanos_per_second() -> int {
    1_000_000_000
}

/// A UTC point in time: whole seconds since the Unix epoch and the nanoseconds past them.
#[derive(Clone, Copy, Debug, PartialEq, Eq, Structural)]
pub struct Timestamp {
    pub secs: i64,
    pub nanos: u32,
}

/// Reads the clock with `chrono::Utc::now` and keeps its `timestamp()` and
/// `timestamp_subsec_nanos()`. Nothing is claimed of the result: it is the time.
#[verifier::external_body]
pub(crate) fn now() -> (r: Timestamp) {
    let t = chrono::Utc::now();
    Timestamp { secs: t.timestamp(), nanos: t.timestamp_subsec_nanos() }
}

impl Timestamp {
    /// Chronological order: seconds first, then nanoseconds.
    pub open spec fn is_before_or_at(self, other: Timestamp) -> bool {
        self.secs < other.secs || (self.secs == other.secs && self.nanos <= other.nanos)
    }

    /// Signed nanoseconds from `earlier` to `self`.
    pub open spec fn nanos_since(self, earlier: Timestamp) -> int {
        (self.secs - earlier.secs) * nanos_per_second() + (self.nanos - earlier.nanos)
    }

    /// Whole seconds from `earlier` to `self`, rounded toward zero.
    pub open spec fn whole_seconds_since(self, earlier: Timestamp) -> int {
        let d = self.nanos_since(earlier);
        if d >= 0 {
            d / nanos_per_second()
        } else {
            -((-d) / nanos_per_second())
        }
    }

    /// The bytes that stand for this point in time in hashed data.
    pub open spec fn encode(self) -> Seq<u8> {
        u64_be_bytes(self.secs as u64) + u64_be_bytes(self.nanos as u64)
    }

    /// `self <= other` in time.
    pub fn le(&self, other: &Timestamp) -> (b: bool)
        ensures
            b == self.is_before_or_at(*other),
    {
        self.secs < other.secs || (self.secs == other.secs && self.nanos <= other.nanos)
    }

    /// Signed nanoseconds from `earlier` to `self`.
    pub fn nanos_between(&self, earlier: &Timestamp) -> (r: i128)
        ensures
            r == self.nanos_since(*earlier),
    {
        let ds: i128 = self.secs as i128 - earlier.secs as i128;
        assert(-0x1_0000_0000_0000_0000 <= ds <= 0x1_0000_0000_0000_0000);
        let dn: i128 = self.nanos as i128 - earlier.nanos as i128;
        ds * 1_000_000_000 + dn
    }

    /// Whole seconds from `earlier` to `self`, rounded toward zero.
    pub fn seconds_between(&self, earlier: &Timestamp) -> (r: i128)
        ensures
            r == self.whole_seconds_since(*earlier),
    {
        let d = self.nanos_between(earlier);
        if d >= 0 {
            d / 1_000_000_000
        } else {
            -((-d) / 1_000_000_000)
        }
    }

    /// Appends the encoding of this point in time to a buffer.
    pub fn write_to(&self, out: &mut Vec<u8>)
        ensures
            final(out)@ == old(out)@ + self.encode(),
    {
        put_u64(out, self.secs as u64);
        put_u64(out, self.nanos as u64);
        assert(out@ =~= old(out)@ + self.encode());
    }
}

} // verus!
