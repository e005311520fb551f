//! Wall-clock instants and durations as plain second/nanosecond counts.

use vstd::prelude::*;
use vstd::string::StringExecFns;

use crate::text::dec_rep;
use crate::text::push_u64;

verus! {

/// Nanoseconds in one second.
pub const NANOS_PER_SEC: u32 = 1000000000;

/// Seconds in one minute.
pub const SECS_PER_MIN: u64 = 60;

/// Seconds in one day.
pub const SECS_PER_DAY: u64 = SECS_PER_MIN * 1440;

/// A wall-clock instant: seconds and nanoseconds since the Unix epoch.
#[derive(Clone, Copy, Debug, PartialEq, Eq, Structural)]
pub struct Stamp {
    pub secs: u64,
    pub nanos: u32,
}

/// A non-negative span of time: whole seconds plus a sub-second remainder.
#[derive(Clone, Copy, Debug, PartialEq, Eq, Structural)]
pub struct Span {
    pub secs: u64,
    pub nanos: u32,
}

impl Stamp {
    /// The instant is normalized: the sub-second part is less than one second.
    pub open spec fn wf(self) -> bool {
        self.nanos < NANOS_PER_SEC
    }

    /// `self` is no later than `other`, comparing seconds first.
    pub open spec fn le_spec(self, other: Stamp) -> bool {
        self.secs < other.secs || (self.secs == other.secs && self.nanos <= other.nanos)
    }

    pub fn new(secs: u64, nanos: u32) -> (r: Stamp)
        requires
            nanos < NANOS_PER_SEC,
        ensures
            r == (Stamp { secs, nanos }),
            r.wf(),
    {
        Stamp { secs, nanos }
    }

    /// `self <= other` in time order.
    pub fn le(&self, other: &Stamp) -> (r: bool)
        ensures
            r == self.le_spec(*other),
    {
        self.secs < other.secs || (self.secs == other.secs && self.nanos <= other.nanos)
    }
}

impl Span {
    /// The span is normalized: the sub-second part is less than one second.
    pub open spec fn wf(self) -> bool {
        self.nanos < NANOS_PER_SEC
    }

    /// `self >= other`, comparing seconds first.
    pub open spec fn ge_spec(self, other: Span) -> bool {
        self.secs > other.secs || (self.secs == other.secs && self.nanos >= other.nanos)
    }

    pub fn new(secs: u64, nanos: u32) -> (r: Span)
        requires
            nanos < NANOS_PER_SEC,
        ensures
            r == (Span { secs, nanos }),
            r.wf(),
    {
        Span { secs, nanos }
    }

    /// A span of whole seconds, as the staleness threshold option gives it.
    pub fn from_secs(secs: u64) -> (r: Span)
        ensures
            r == (Span { secs, nanos: 0u32 }),
            r.wf(),
    {
        Span { secs, nanos: 0 }
    }

    /// `self >= other` in duration order.
    pub fn ge(&self, other: &Span) -> (r: bool)
        ensures
            r == self.ge_spec(*other),
    {
        self.secs > other.secs || (self.secs == other.secs && self.nanos >= other.nanos)
    }
}

/// The exact span from `from` to `to`, for `from <= to`: borrow one second
/// when the earlier instant's sub-second part is the larger one.
pub open spec fn span_between(from: Stamp, to: Stamp) -> Span {
    if to.nanos >= from.nanos {
        Span { secs: (to.secs - from.secs) as u64, nanos: (to.nanos - from.nanos) as u32 }
    } else {
        Span {
            secs: (to.secs - from.secs - 1) as u64,
            nanos: (to.nanos + NANOS_PER_SEC - from.nanos) as u32,
        }
    }
}

/// Computes the elapsed time from `from` to `to`.
pub fn elapsed(from: &Stamp, to: &Stamp) -> (r: Span)
    requires
        from.wf(),
        to.wf(),
        from.le_spec(*to),
    ensures
        r == span_between(*from, *to),
        r.wf(),
{
    if to.nanos >= from.nanos {
        Span { secs: to.secs - from.secs, nanos: to.nanos - from.nanos }
    } else {
        Span { secs: to.secs - from.secs - 1, nanos: to.nanos + NANOS_PER_SEC - from.nanos }
    }
}

/// The display form of a duration's whole seconds: whole days and whole
/// minutes of the remainder only when nonzero, remaining seconds always,
/// comma-separated.
pub open spec fn spec_fmt_duration(total: u64) -> Seq<char> {
    let days = total / SECS_PER_DAY;
    let rem = total % SECS_PER_DAY;
    let minutes = rem / SECS_PER_MIN;
    let secs = rem % SECS_PER_MIN;
    (if days > 0 {
        dec_rep(days as nat) + " days, "@
    } else {
        Seq::empty()
    }) + (if minutes > 0 {
        dec_rep(minutes as nat) + " minutes, "@
    } else {
        Seq::empty()
    }) + dec_rep(secs as nat) + " seconds"@
}

/// Formats a duration for display, ignoring its sub-second part.
pub fn fmt_duration(d: &Span) -> (r: String)
    ensures
        r@ == spec_fmt_duration(d.secs),
{
    let total = d.secs;
    let days = total / SECS_PER_DAY;
    let rem = total % SECS_PER_DAY;
    let minutes = rem / SECS_PER_MIN;
    let secs = rem % SECS_PER_MIN;
    let mut out = String::new();
    let ghost a: Seq<char> = if days > 0 {
        dec_rep(days as nat) + " days, "@
    } else {
        Seq::empty()
    };
    let ghost b: Seq<char> = if minutes > 0 {
        dec_rep(minutes as nat) + " minutes, "@
    } else {
        Seq::empty()
    };
    if days > 0 {
        push_u64(&mut out, days);
        out.append(" days, ");
    }
    assert(out@ =~= a);
    if minutes > 0 {
        push_u64(&mut out, minutes);
        out.append(" minutes, ");
    }
    assert(out@ =~= a + b);
    push_u64(&mut out, secs);
    out.append(" seconds");
    proof {
        assert(out@ =~= a + b + dec_rep(secs as nat) + " seconds"@);
    }
    out
}

} // verus!
