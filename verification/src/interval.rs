//! Spans of fixed-point scalars, used to filter intersection parameters
//! and to clamp color channels.

use vstd::prelude::*;

use crate::math::T_FAR;

verus! {

/// A closed span `[min, max]` of fixed-point scalars.  `T_FAR` stands in
/// for an unbounded endpoint.
#[derive(Clone, Copy, PartialEq, Eq, Structural, Debug)]
pub struct Interval {
    pub min: i64,
    pub max: i64,
}

impl Interval {
    pub fn new(min: i64, max: i64) -> (r: Self)
        ensures
            r.min == min && r.max == max,
    {
        Interval { min, max }
    }

    /// The span that contains nothing.
    pub fn empty() -> (r: Self)
        ensures
            r.min == T_FAR && r.max == -T_FAR,
    {
        Interval { min: T_FAR, max: -T_FAR }
    }

    /// The span that contains every representable scalar.
    pub fn universe() -> (r: Self)
        ensures
            r.min == -T_FAR && r.max == T_FAR,
    {
        Interval { min: -T_FAR, max: T_FAR }
    }

    /// Strict containment: `x` lies strictly between the endpoints.
    pub fn surrounds(&self, x: i64) -> (r: bool)
        ensures
            r == (self.min < x && x < self.max),
    {
        self.min < x && self.max > x
    }

    /// Inclusive containment.
    pub fn contains(&self, x: i64) -> (r: bool)
        ensures
            r == (self.min <= x && x <= self.max),
    {
        self.min <= x && self.max >= x
    }

    /// Clamp `x` to the span.
    pub fn clamp(&self, x: i64) -> (r: i64)
        ensures
            r == clamp_m(self.min as int, self.max as int, x as int),
    {
        if x < self.min {
            self.min
        } else if x > self.max {
            self.max
        } else {
            x
        }
    }
}

/// The model of clamping: `x` pulled to the nearer endpoint.
pub open spec fn clamp_m(min: int, max: int, x: int) -> int {
    if x < min {
        min
    } else if x > max {
        max
    } else {
        x
    }
}

} // verus!
