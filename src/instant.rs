use vstd::prelude::*;

verus! {

/// Nanoseconds in one second.
pub const NANOS_PER_SECOND: u32 = 1_000_000_000;

/// Largest distance from the Unix epoch, in seconds, that an [`Instant`] may
/// hold. It lies well beyond any date that chrono can represent, and keeps the
/// difference of two instants, in seconds, inside an `i64`.
pub const MAX_UNIX_SECONDS: i64 = 1_000_000_000_000_000;

/// An absolute point in time: whole seconds since the Unix epoch (UTC) and a
/// sub-second part in nanoseconds.
#[derive(Clone, Copy, Debug, PartialEq, Eq, Structural)]
pub struct Instant {
    pub seconds: i64,
    pub nanos: u32,
}

impl Instant {
    /// The nanosecond part is below one second and the seconds lie within
    /// `MAX_UNIX_SECONDS` of the epoch.
    pub open spec fn wf(self) -> bool {
        &&& self.nanos < NANOS_PER_SECOND
        &&& -MAX_UNIX_SECONDS <= self.seconds <= MAX_UNIX_SECONDS
    }

    /// Nanoseconds since the Unix epoch.
    pub open spec fn total_nanos(self) -> int {
        self.seconds * NANOS_PER_SECOND + self.nanos
    }

    /// The instant `seconds` seconds and `nanos` nanoseconds after the epoch,
    /// when that is a valid instant.
    pub fn from_unix(seconds: i64, nanos: u32) -> (r: Option<Instant>)
        ensures
            r == (if (Instant { seconds, nanos }).wf() {
                Some(Instant { seconds, nanos })
            } else {
                None
            }),
    {
        if nanos < NANOS_PER_SECOND && -MAX_UNIX_SECONDS <= seconds && seconds <= MAX_UNIX_SECONDS {
            Some(Instant { seconds, nanos })
        } else {
            None
        }
    }

    /// Orders two instants by time.
    pub fn is_before(&self, other: &Instant) -> (r: bool)
        requires
            self.wf(),
            other.wf(),
        ensures
            r == (self.total_nanos() < other.total_nanos()),
    {
        proof {
            lemma_total_nanos_order(*self, *other);
        }
        self.seconds < other.seconds || (self.seconds == other.seconds && self.nanos < other.nanos)
    }
}

proof fn lemma_total_nanos_order(a: Instant, b: Instant)
    requires
        a.wf(),
        b.wf(),
    ensures
        a.seconds < b.seconds ==> a.total_nanos() < b.total_nanos(),
        a.seconds > b.seconds ==> a.total_nanos() > b.total_nanos(),
{
    let d = NANOS_PER_SECOND as int;
    assert(a.seconds < b.seconds ==> a.seconds * d + a.nanos < b.seconds * d + b.nanos)
        by (nonlinear_arith)
        requires
            a.nanos < d,
            b.nanos >= 0,
            d > 0,
    ;
    assert(a.seconds > b.seconds ==> a.seconds * d + a.nanos > b.seconds * d + b.nanos)
        by (nonlinear_arith)
        requires
            b.nanos < d,
            a.nanos >= 0,
            d > 0,
    ;
}

/// Unix seconds and sub-second nanoseconds of the instant that an RFC 3339
/// date-time text denotes, or `None` where the text is not one.
pub uninterp spec fn rfc3339_timestamp(s: Seq<char>) -> Option<(i64, u32)>;

/// Relies on chrono's `DateTime::parse_from_rfc3339`, read back through
/// `DateTime::timestamp` and `DateTime::timestamp_subsec_nanos`: the result
/// depends on the text alone. The parser takes four-digit years and offsets
/// under a day, so the seconds lie within `10^12` of the epoch, and
/// `NaiveTime` keeps the nanosecond part (a leap second included) below two
/// seconds.
#[verifier::external_body]
fn rfc3339_parts(s: &str) -> (r: Option<(i64, u32)>)
    ensures
        r == rfc3339_timestamp(s@),
        match r {
            Some((seconds, nanos)) => -1_000_000_000_000 <= seconds <= 1_000_000_000_000 && nanos
                < 2_000_000_000,
            None => true,
        },
{
    match chrono::DateTime::parse_from_rfc3339(s) {
        Ok(t) => Some((t.timestamp(), t.timestamp_subsec_nanos())),
        Err(_) => None,
    }
}

/// The instant at `seconds` after the epoch and `nanos` nanoseconds more. A
/// nanosecond part of a second or more marks a leap second, which counts
/// toward the next second.
pub open spec fn instant_from_parts(seconds: i64, nanos: u32) -> Option<Instant> {
    let (s, n) = if nanos >= NANOS_PER_SECOND {
        (seconds + 1, nanos - NANOS_PER_SECOND)
    } else {
        (seconds as int, nanos as int)
    };
    if n < NANOS_PER_SECOND && -MAX_UNIX_SECONDS <= s <= MAX_UNIX_SECONDS {
        Some(Instant { seconds: s as i64, nanos: n as u32 })
    } else {
        None
    }
}

/// The instant that an RFC 3339 date-time text with an explicit offset
/// denotes.
pub open spec fn instant_of_text(s: Seq<char>) -> Option<Instant> {
    match rfc3339_timestamp(s) {
        Some((seconds, nanos)) => instant_from_parts(seconds, nanos),
        None => None,
    }
}

impl Instant {
    /// Reads an RFC 3339 date-time such as `2025-07-11T16:20:00.000+01:00`.
    pub fn parse_rfc3339(text: &str) -> (r: Option<Instant>)
        ensures
            r == instant_of_text(text@),
            r is Some <==> rfc3339_timestamp(text@) is Some,
            r is Some ==> r->0.wf(),
    {
        match rfc3339_parts(text) {
            Some((seconds, nanos)) => {
                if nanos >= NANOS_PER_SECOND {
                    if seconds == i64::MAX {
                        return None;
                    }
                    Instant::from_unix(seconds + 1, nanos - NANOS_PER_SECOND)
                } else {
                    Instant::from_unix(seconds, nanos)
                }
            },
            None => None,
        }
    }
}

/// `n / d` rounded to the nearest integer, halves away from zero.
pub open spec fn div_round(n: int, d: int) -> int {
    if n >= 0 {
        (n + d / 2) / d
    } else {
        -((-n + d / 2) / d)
    }
}

/// Whole seconds from `query` to `t`, rounded to the nearest second: negative
/// when `t` lies before `query`.
pub open spec fn offset_seconds(t: Instant, query: Instant) -> int {
    div_round(t.total_nanos() - query.total_nanos(), NANOS_PER_SECOND as int)
}

proof fn bound_quotient(n: int, d: int, k: int)
    requires
        0 <= n <= k * d,
        d > 0,
    ensures
        0 <= n / d <= k,
{
    assert(0 <= n / d <= k) by (nonlinear_arith)
        requires
            0 <= n <= k * d,
            d > 0,
    ;
}

/// Seconds from `query` to `t`, rounded to the nearest second, halves away
/// from zero.
pub fn seconds_between(t: &Instant, query: &Instant) -> (r: i64)
    requires
        t.wf(),
        query.wf(),
    ensures
        r == offset_seconds(*t, *query),
{
    let ds: i128 = t.seconds as i128 - query.seconds as i128;
    assert(-2 * MAX_UNIX_SECONDS * 1_000_000_000 <= ds * 1_000_000_000 <= 2 * MAX_UNIX_SECONDS * 1_000_000_000)
        by (nonlinear_arith)
        requires
            -2 * MAX_UNIX_SECONDS <= ds <= 2 * MAX_UNIX_SECONDS,
    ;
    let n: i128 = (t.seconds as i128 - query.seconds as i128) * (NANOS_PER_SECOND as i128)
        + (t.nanos as i128 - query.nanos as i128);
    let half: i128 = (NANOS_PER_SECOND / 2) as i128;
    let d: i128 = NANOS_PER_SECOND as i128;
    if n >= 0 {
        let r: i128 = (n + half) / d;
        proof {
            bound_quotient((n + half) as int, d as int, 2 * MAX_UNIX_SECONDS + 2);
        }
        r as i64
    } else {
        let r: i128 = (-n + half) / d;
        proof {
            bound_quotient((-n + half) as int, d as int, 2 * MAX_UNIX_SECONDS + 2);
        }
        -(r as i64)
    }
}

} // verus!
