//! Points in time (UTC), with nanosecond precision.
use vstd::prelude::*;

verus! {

/// Earliest second that a UTC date-time can stand for (January 1, 262144 BCE).
pub const MIN_TIMESTAMP: i64 = -8_334_601_228_800;

/// Latest second that a UTC date-time can stand for (December 31, 262142 CE, 23:59:59).
pub const MAX_TIMESTAMP: i64 = 8_210_266_876_799;

/// Nanoseconds in a second.
pub const NANOS_PER_SEC: u32 = 1_000_000_000;

/// What `DateTime::to_rfc3339_opts(SecondsFormat::AutoSi, true)` writes for the UTC
/// date-time `secs` seconds and `nanos` nanoseconds after the Unix epoch (UTF-8 bytes).
pub uninterp spec fn rfc3339_utc(secs: i64, nanos: u32) -> Seq<u8>;

/// `Utc::now()`: the current time as seconds since the Unix epoch and the nanoseconds
/// within the second. The clock reading gives nanoseconds below one second, it is not
/// before the Unix epoch (`Utc::now` reads the system time as a duration since the epoch
/// and does not return otherwise), and a UTC date-time lies at or before the latest
/// representable second. Which time it reads is left unsaid.
#[verifier::external_body]
fn clock_now() -> (r: (i64, u32))
    ensures
        r.1 < NANOS_PER_SEC,
        0 <= r.0 <= MAX_TIMESTAMP,
{
    let now = chrono::Utc::now();
    (now.timestamp(), now.timestamp_subsec_nanos())
}

/// `DateTime::to_rfc3339_opts(SecondsFormat::AutoSi, true)` for the UTC date-time given by
/// seconds and nanoseconds since the Unix epoch; this is the text that serde writes for a
/// `DateTime<Utc>`. Within the representable range the date-time exists.
#[verifier::external_body]
fn rfc3339_bytes(secs: i64, nanos: u32) -> (r: Vec<u8>)
    requires
        nanos < NANOS_PER_SEC,
        MIN_TIMESTAMP <= secs <= MAX_TIMESTAMP,
    ensures
        r@ == rfc3339_utc(secs, nanos),
{
    match chrono::DateTime::from_timestamp(secs, nanos) {
        Some(dt) => dt.to_rfc3339_opts(chrono::SecondsFormat::AutoSi, true).into_bytes(),
        None => Vec::new(),
    }
}

/// A UTC date-time: seconds since the Unix epoch and nanoseconds within the second.
#[derive(Clone, Copy, Debug, PartialEq, Eq, Structural)]
pub struct Timestamp {
    secs: i64,
    nanos: u32,
}

/// Signed number of nanoseconds from `a` to `b`.
pub open spec fn nanos_between(a: Timestamp, b: Timestamp) -> int {
    (b.spec_secs() - a.spec_secs()) * 1_000_000_000 + (b.spec_nanos() - a.spec_nanos())
}

/// Whole seconds of a signed number of nanoseconds, rounded toward zero.
pub open spec fn whole_seconds(nanos: int) -> int {
    if nanos >= 0 {
        nanos / 1_000_000_000
    } else {
        -((-nanos) / 1_000_000_000)
    }
}

impl Timestamp {
    #[verifier::type_invariant]
    spec fn in_range(self) -> bool {
        &&& self.nanos < NANOS_PER_SEC
        &&& MIN_TIMESTAMP <= self.secs <= MAX_TIMESTAMP
    }

    /// Seconds since the Unix epoch.
    pub closed spec fn spec_secs(self) -> i64 {
        self.secs
    }

    /// Nanoseconds within the second.
    pub closed spec fn spec_nanos(self) -> u32 {
        self.nanos
    }

    /// The UTF-8 text of the date-time in RFC 3339 form, as serde writes it.
    pub open spec fn spec_rfc3339(self) -> Seq<u8> {
        rfc3339_utc(self.spec_secs(), self.spec_nanos())
    }

    /// Makes a timestamp; `None` when the nanoseconds are a second or more, or the
    /// seconds lie outside the representable range.
    pub fn new(secs: i64, nanos: u32) -> (r: Option<Timestamp>)
        ensures
            r is Some <==> (nanos < NANOS_PER_SEC && MIN_TIMESTAMP <= secs <= MAX_TIMESTAMP),
            r matches Some(t) ==> t.spec_secs() == secs && t.spec_nanos() == nanos,
    {
        if nanos < NANOS_PER_SEC && MIN_TIMESTAMP <= secs && secs <= MAX_TIMESTAMP {
            Some(Timestamp { secs, nanos })
        } else {
            None
        }
    }

    /// The current time, which is not before the Unix epoch.
    pub fn now() -> (r: Timestamp)
        ensures
            r.spec_secs() >= 0,
    {
        let (secs, nanos) = clock_now();
        Timestamp { secs, nanos }
    }

    /// Seconds since the Unix epoch.
    pub fn secs(&self) -> (r: i64)
        ensures
            r == self.spec_secs(),
    {
        self.secs
    }

    /// Nanoseconds within the second.
    pub fn nanos(&self) -> (r: u32)
        ensures
            r == self.spec_nanos(),
    {
        self.nanos
    }

    /// `self` is strictly later than `other`.
    pub fn gt(&self, other: &Timestamp) -> (r: bool)
        ensures
            r == (nanos_between(*other, *self) > 0),
    {
        proof {
            use_type_invariant(self);
            use_type_invariant(other);
        }
        self.secs > other.secs || (self.secs == other.secs && self.nanos > other.nanos)
    }

    /// Whole seconds from `earlier` to `self`, rounded toward zero.
    pub fn seconds_since(&self, earlier: &Timestamp) -> (r: i64)
        ensures
            r == whole_seconds(nanos_between(*earlier, *self)),
    {
        proof {
            use_type_invariant(self);
            use_type_invariant(earlier);
        }
        let d: i128 = (self.secs as i128 - earlier.secs as i128) * 1_000_000_000 + (self.nanos as i128
            - earlier.nanos as i128);
        if d >= 0 {
            (d / 1_000_000_000) as i64
        } else {
            -(((-d) / 1_000_000_000) as i64)
        }
    }

    /// More than `limit_secs` seconds lie between `self` and the later time `now`.
    pub fn older_than(&self, now: &Timestamp, limit_secs: u64) -> (r: bool)
        requires
            limit_secs <= 1_000_000_000_000_000,
        ensures
            r == (nanos_between(*self, *now) > limit_secs * 1_000_000_000),
    {
        proof {
            use_type_invariant(self);
            use_type_invariant(now);
        }
        let d: i128 = (now.secs as i128 - self.secs as i128) * 1_000_000_000 + (now.nanos as i128
            - self.nanos as i128);
        d > (limit_secs as i128) * 1_000_000_000
    }

    /// Appends the CBOR encoding: the RFC 3339 text of the date-time.
    pub fn push_cbor(&self, out: &mut Vec<u8>)
        ensures
            final(out)@ == old(out)@ + crate::cbor::enc_text(self.spec_rfc3339()),
    {
        proof {
            use_type_invariant(self);
        }
        let text = rfc3339_bytes(self.secs, self.nanos);
        crate::cbor::push_text(out, text.as_slice());
    }
}

} // verus!
