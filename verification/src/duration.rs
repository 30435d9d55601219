//! [`Roundable`] for durations.
//!
//! A duration is a pair of whole seconds and a sub-second nanosecond
//! remainder. Rounding lifts the pair to a single wide nanosecond count,
//! rounds that with the integer engine, and lowers the result back to the
//! pair, so a duration inherits the integer engine's behaviour exactly. The
//! functions [`microsecond`] through [`hour`] build the usual rounding
//! factors.

use vstd::prelude::*;
use crate::{Roundable, Tie, rounded, lemma_rounded_near_multiple};
use vstd::arithmetic::div_mod::{
    lemma_fundamental_div_mod, lemma_fundamental_div_mod_converse, lemma_div_is_ordered,
};

verus! {

/// The largest nanosecond count a [`Duration`] can hold: `u64::MAX` whole
/// seconds plus the largest sub-second remainder.
pub open spec fn duration_nanos_max() -> int {
    u64::MAX * 1_000_000_000 + 999_999_999
}

/// A span of time: whole seconds and a sub-second nanosecond remainder,
/// which is kept strictly below one second.
#[derive(Clone, Copy, Debug, PartialEq, Eq, Structural)]
pub struct Duration {
    secs: u64,
    nanos: u32,
}

impl Roundable for Duration {
    /// The total length in nanoseconds.
    closed spec fn val(self) -> int {
        self.secs * 1_000_000_000 + self.nanos
    }

    closed spec fn inv(self) -> bool {
        self.nanos < 1_000_000_000
    }

    open spec fn fits(x: int) -> bool {
        0 <= x <= duration_nanos_max()
    }

    fn try_round_to(self, factor: Self, tie: Tie) -> (r: Option<Self>) {
        let total = self.as_nanos();
        let step = factor.as_nanos();
        proof {
            lemma_rounded_near_multiple(total as int, step as int, tie);
        }
        match total.try_round_to(step, tie) {
            Some(n) => {
                let limit = u64::MAX as u128 * 1_000_000_000 + 999_999_999;
                if n <= limit {
                    Some(nanos_to_duration(n))
                } else {
                    None
                }
            }
            None => {
                // A rounded nanosecond count stays within one factor of the
                // operand, so it cannot leave the wide integer's range.
                proof {
                    assert(false);
                }
                None
            }
        }
    }
}

impl Duration {
    /// A duration of `secs` whole seconds and `nanos` further nanoseconds.
    pub fn new(secs: u64, nanos: u32) -> (d: Duration)
        requires
            nanos < 1_000_000_000,
        ensures
            d.inv(),
            d.val() == secs * 1_000_000_000 + nanos,
    {
        Duration { secs, nanos }
    }

    /// The zero-length duration.
    pub fn zero() -> (d: Duration)
        ensures
            d.inv(),
            d.val() == 0,
    {
        Duration { secs: 0, nanos: 0 }
    }

    /// The longest representable duration.
    pub fn max_value() -> (d: Duration)
        ensures
            d.inv(),
            d.val() == duration_nanos_max(),
    {
        Duration { secs: u64::MAX, nanos: 999_999_999 }
    }

    /// A duration of `secs` whole seconds.
    pub fn from_secs(secs: u64) -> (d: Duration)
        ensures
            d.inv(),
            d.val() == secs * 1_000_000_000,
    {
        Duration { secs, nanos: 0 }
    }

    /// A duration of `ms` milliseconds.
    pub fn from_millis(ms: u64) -> (d: Duration)
        ensures
            d.inv(),
            d.val() == ms * 1_000_000,
    {
        proof {
            lemma_fundamental_div_mod(ms as int, 1000);
        }
        Duration { secs: ms / 1000, nanos: (ms % 1000) as u32 * 1_000_000 }
    }

    /// A duration of `us` microseconds.
    pub fn from_micros(us: u64) -> (d: Duration)
        ensures
            d.inv(),
            d.val() == us * 1_000,
    {
        proof {
            lemma_fundamental_div_mod(us as int, 1_000_000);
        }
        Duration { secs: us / 1_000_000, nanos: (us % 1_000_000) as u32 * 1_000 }
    }

    /// A duration of `ns` nanoseconds.
    pub fn from_nanos(ns: u64) -> (d: Duration)
        ensures
            d.inv(),
            d.val() == ns,
    {
        proof {
            lemma_fundamental_div_mod(ns as int, 1_000_000_000);
        }
        Duration { secs: ns / 1_000_000_000, nanos: (ns % 1_000_000_000) as u32 }
    }

    /// The total length in nanoseconds.
    pub fn as_nanos(&self) -> (n: u128)
        ensures
            n == self.val(),
    {
        self.secs as u128 * 1_000_000_000 + self.nanos as u128
    }
}

/// A [`Duration`] holding a nanosecond count that a duration can represent.
pub fn nanos_to_duration(total: u128) -> (d: Duration)
    requires
        total <= duration_nanos_max(),
    ensures
        d.inv(),
        d.val() == total,
{
    proof {
        lemma_fundamental_div_mod(total as int, 1_000_000_000);
        lemma_div_is_ordered(total as int, duration_nanos_max(), 1_000_000_000);
        lemma_fundamental_div_mod_converse(
            duration_nanos_max(),
            1_000_000_000,
            u64::MAX as int,
            999_999_999,
        );
    }
    Duration { secs: (total / 1_000_000_000) as u64, nanos: (total % 1_000_000_000) as u32 }
}

/// One microsecond, as a rounding factor.
pub fn microsecond() -> (d: Duration)
    ensures
        d.inv(),
        d.val() == 1_000,
{
    Duration { secs: 0, nanos: 1_000 }
}

/// One millisecond, as a rounding factor.
pub fn millisecond() -> (d: Duration)
    ensures
        d.inv(),
        d.val() == 1_000_000,
{
    Duration { secs: 0, nanos: 1_000_000 }
}

/// One second, as a rounding factor.
pub fn second() -> (d: Duration)
    ensures
        d.inv(),
        d.val() == 1_000_000_000,
{
    Duration { secs: 1, nanos: 0 }
}

/// One minute, as a rounding factor.
pub fn minute() -> (d: Duration)
    ensures
        d.inv(),
        d.val() == 60 * 1_000_000_000,
{
    Duration { secs: 60, nanos: 0 }
}

/// One hour, as a rounding factor.
pub fn hour() -> (d: Duration)
    ensures
        d.inv(),
        d.val() == 3600 * 1_000_000_000,
{
    Duration { secs: 3600, nanos: 0 }
}

} // verus!
