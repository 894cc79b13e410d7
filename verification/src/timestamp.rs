//! The microsecond-precision timestamp codec.
//!
//! An instant is held as whole seconds since the Unix epoch together with a
//! non-negative microsecond fraction, and travels on the wire as a single
//! signed 64-bit count of microseconds since the epoch. Every 64-bit count,
//! zero and pre-epoch values included, is representable, so decoding is
//! total and no range failure can arise.

use vstd::arithmetic::div_mod::{lemma_fundamental_div_mod, lemma_mod_division_less_than_divisor};
use vstd::prelude::*;

verus! {

/// An instant with microsecond resolution.
#[derive(Clone, Copy, Debug)]
pub struct Timestamp {
    /// Whole seconds since the Unix epoch (negative before the epoch).
    pub secs: i64,
    /// Microseconds past `secs`, always below one million.
    pub micros: u32,
}

impl Timestamp {
    /// The instant as a mathematical count of microseconds since the epoch.
    pub open spec fn as_micros(self) -> int {
        self.secs * 1_000_000 + self.micros
    }

    /// Well-formed: the fraction is below one second and the whole instant
    /// fits the wire's signed 64-bit microsecond count.
    pub open spec fn wf(self) -> bool {
        self.micros < 1_000_000 && i64::MIN <= self.as_micros() <= i64::MAX
    }

    /// The well-formed instant denoting `us` microseconds since the epoch.
    pub open spec fn spec_from_micros(us: int) -> Timestamp {
        Timestamp { secs: (us / 1_000_000) as i64, micros: (us % 1_000_000) as u32 }
    }

    /// Decode a wire microsecond count. Total over all of `i64`.
    pub fn from_micros(us: i64) -> (r: Timestamp)
        ensures
            r == Timestamp::spec_from_micros(us as int),
            r.wf(),
            r.as_micros() == us,
    {
        proof {
            lemma_spec_from_micros(us as int);
        }
        let r = if us >= 0 {
            let mag: u64 = us as u64;
            let q: u64 = mag / 1_000_000;
            let rem: u64 = mag % 1_000_000;
            Timestamp { secs: q as i64, micros: rem as u32 }
        } else {
            // Work on the magnitude to avoid overflow at `i64::MIN`.
            let below: i64 = -(us + 1);
            let mag: u64 = (below as u64) + 1;
            let q: u64 = mag / 1_000_000;
            let rem: u64 = mag % 1_000_000;
            if rem == 0 {
                Timestamp { secs: -(q as i64), micros: 0 }
            } else {
                Timestamp { secs: -(q as i64) - 1, micros: (1_000_000 - rem) as u32 }
            }
        };
        proof {
            lemma_timestamp_unique(r, Timestamp::spec_from_micros(us as int));
        }
        r
    }

    /// Encode the instant as its wire microsecond count.
    pub fn to_micros(&self) -> (r: i64)
        requires
            self.wf(),
        ensures
            r == self.as_micros(),
    {
        if self.secs >= 0 {
            self.secs * 1_000_000 + (self.micros as i64)
        } else {
            // Regroup so that each intermediate value stays in range.
            (self.secs + 1) * 1_000_000 + ((self.micros as i64) - 1_000_000)
        }
    }
}

/// Law: every wire microsecond count decodes to a well-formed instant that
/// denotes exactly that count, so re-encoding returns the original count.
pub proof fn lemma_spec_from_micros(us: int)
    requires
        i64::MIN <= us <= i64::MAX,
    ensures
        Timestamp::spec_from_micros(us).wf(),
        Timestamp::spec_from_micros(us).as_micros() == us,
{
    let q = us / 1_000_000;
    let rem = us % 1_000_000;
    lemma_fundamental_div_mod(us, 1_000_000);
    lemma_mod_division_less_than_divisor(us, 1_000_000);
    assert(i64::MIN <= q <= i64::MAX) by (nonlinear_arith)
        requires
            us == 1_000_000 * q + rem,
            0 <= rem < 1_000_000,
            i64::MIN <= us <= i64::MAX,
    {
    }
}

/// A well-formed instant is determined by its microsecond count: two
/// well-formed instants denoting the same count are the same value.
pub proof fn lemma_timestamp_unique(a: Timestamp, b: Timestamp)
    requires
        a.wf(),
        b.wf(),
        a.as_micros() == b.as_micros(),
    ensures
        a == b,
{
    assert(a.secs == b.secs && a.micros == b.micros) by (nonlinear_arith)
        requires
            a.secs * 1_000_000 + a.micros == b.secs * 1_000_000 + b.micros,
            a.micros < 1_000_000,
            b.micros < 1_000_000,
    {
    }
}

/// Law: an instant encoded to its microsecond count and decoded again is
/// returned unchanged.
pub proof fn lemma_timestamp_value_round_trip(t: Timestamp)
    requires
        t.wf(),
    ensures
        Timestamp::spec_from_micros(t.as_micros()) == t,
{
    lemma_spec_from_micros(t.as_micros());
    lemma_timestamp_unique(Timestamp::spec_from_micros(t.as_micros()), t);
}

} // verus!
