//! Membership functions and defuzzification strategies.
//!
//! A membership function maps a domain sample point to a degree in
//! `[0, UNIT]`. The closed-form shapes here are exact over the fixed-point
//! domain; their factories mirror the classic triangular and trapezoidal
//! formulas.

use vstd::prelude::*;
use vstd::arithmetic::div_mod::{lemma_div_is_ordered, lemma_div_by_multiple, lemma_div_pos_is_pos};
use crate::{UNIT, KEY_LIMIT, valid_key};
use crate::ops::CenterOfMass;

verus! {

/// A closed-form membership function over the fixed-point domain.
#[derive(Clone, Copy, PartialEq, Eq, Debug)]
pub enum Membership {
    /// Rises from `a` to a peak at `b`, falls back to zero at `c`.
    Triangular { a: i64, b: i64, c: i64 },
    /// Rises from `a` to `b`, stays at one until `c`, falls to zero at `d`.
    Trapezoidal { a: i64, b: i64, c: i64, d: i64 },
}

impl Membership {
    /// The shape's corner points are ordered and representable.
    pub open spec fn wf(&self) -> bool {
        match *self {
            Membership::Triangular { a, b, c } => valid_key(a) && valid_key(b) && valid_key(c)
                && a <= b <= c,
            Membership::Trapezoidal { a, b, c, d } => valid_key(a) && valid_key(b) && valid_key(c)
                && valid_key(d) && a <= b <= c <= d,
        }
    }
}

/// The slope value `UNIT * num / den`, for `0 <= num <= den`.
pub open spec fn ramp(num: i64, den: i64) -> u64 {
    ((UNIT * num) as int / den as int) as u64
}

/// The degree a membership function assigns to a sample point.
pub open spec fn mem_value(m: Membership, x: i64) -> u64 {
    match m {
        Membership::Triangular { a, b, c } => {
            if x < a || x > c {
                0
            } else if x <= b {
                if a == b { UNIT } else { ramp((x - a) as i64, (b - a) as i64) }
            } else {
                if b == c { UNIT } else { ramp((c - x) as i64, (c - b) as i64) }
            }
        },
        Membership::Trapezoidal { a, b, c, d } => {
            if x < a || x > d {
                0
            } else if x < b {
                ramp((x - a) as i64, (b - a) as i64)
            } else if x <= c {
                UNIT
            } else {
                if c == d { UNIT } else { ramp((d - x) as i64, (d - c) as i64) }
            }
        },
    }
}

/// The ramp lies in `[0, UNIT]` whenever `0 <= num <= den`.
proof fn lemma_ramp_bounds(num: i64, den: i64)
    requires
        0 <= num <= den,
        0 < den,
    ensures
        ramp(num, den) <= UNIT,
        num == den ==> ramp(num, den) == UNIT,
        num == 0 ==> ramp(num, den) == 0,
{
    lemma_div_pos_is_pos(UNIT * num, den as int);
    lemma_div_is_ordered(UNIT * num, UNIT * den, den as int);
    lemma_div_by_multiple(UNIT as int, den as int);
    assert(UNIT * den == den * (UNIT as int)) by (nonlinear_arith);
    assert(UNIT * num <= UNIT * den) by (nonlinear_arith)
        requires num <= den && UNIT > 0;
}

/// The fixed-point quotient `UNIT * num / den` computed without overflow.
fn ramp_exec(num: i64, den: i64) -> (r: u64)
    requires
        0 <= num <= den,
        0 < den <= 4 * KEY_LIMIT,
    ensures
        r == ramp(num, den),
        r <= UNIT,
{
    proof {
        lemma_ramp_bounds(num, den);
        assert(UNIT * num <= UNIT * den) by (nonlinear_arith)
            requires num <= den && UNIT > 0;
        assert(UNIT * den <= 4_000_000_000_000_000_000) by (nonlinear_arith)
            requires den <= 4 * KEY_LIMIT && UNIT == 1_000_000;
    }
    let wide: u64 = UNIT * (num as u64);
    let q: u64 = wide / (den as u64);
    q
}

impl Membership {
    /// Evaluates the closed-form shape at a sample point.
    pub fn grade(&self, x: i64) -> (r: u64)
        requires
            self.wf(),
            valid_key(x),
        ensures
            r == mem_value(*self, x),
            r <= UNIT,
    {
        match *self {
            Membership::Triangular { a, b, c } => {
                if x < a || x > c {
                    0
                } else if x <= b {
                    if a == b {
                        UNIT
                    } else {
                        ramp_exec(x - a, b - a)
                    }
                } else {
                    if b == c {
                        UNIT
                    } else {
                        ramp_exec(c - x, c - b)
                    }
                }
            },
            Membership::Trapezoidal { a, b, c, d } => {
                if x < a || x > d {
                    0
                } else if x < b {
                    ramp_exec(x - a, b - a)
                } else if x <= c {
                    UNIT
                } else {
                    if c == d {
                        UNIT
                    } else {
                        ramp_exec(d - x, d - c)
                    }
                }
            },
        }
    }
}

/// Builds the closed-form membership shapes.
pub struct MembershipFactory;

impl MembershipFactory {
    /// A triangular shape rising from `a` to `b` and falling to `c`.
    pub fn triangular(a: i64, b: i64, c: i64) -> (m: Membership)
        requires
            valid_key(a) && valid_key(b) && valid_key(c),
            a <= b <= c,
        ensures
            m == (Membership::Triangular { a, b, c }),
            m.wf(),
    {
        Membership::Triangular { a, b, c }
    }

    /// A trapezoidal shape flat at one between `b` and `c`.
    pub fn trapezoidal(a: i64, b: i64, c: i64, d: i64) -> (m: Membership)
        requires
            valid_key(a) && valid_key(b) && valid_key(c) && valid_key(d),
            a <= b <= c <= d,
        ensures
            m == (Membership::Trapezoidal { a, b, c, d }),
            m.wf(),
    {
        Membership::Trapezoidal { a, b, c, d }
    }
}

/// Builds defuzzification strategies.
pub struct DefuzzFactory;

impl DefuzzFactory {
    /// The center-of-mass strategy: the degree-weighted average of the
    /// cached sample points.
    pub fn center_of_mass() -> (d: CenterOfMass)
        ensures
            d == (CenterOfMass),
    {
        CenterOfMass
    }
}

/// A well-formed shape grades every representable sample within `UNIT`.
pub proof fn lemma_mem_value_bound(m: Membership, x: i64)
    requires
        m.wf(),
        valid_key(x),
    ensures
        mem_value(m, x) <= UNIT,
{
    match m {
        Membership::Triangular { a, b, c } => {
            if a <= x <= c {
                if x <= b {
                    if a != b {
                        lemma_ramp_bounds((x - a) as i64, (b - a) as i64);
                    }
                } else {
                    if b != c {
                        lemma_ramp_bounds((c - x) as i64, (c - b) as i64);
                    }
                }
            }
        },
        Membership::Trapezoidal { a, b, c, d } => {
            if a <= x <= d {
                if x < b {
                    lemma_ramp_bounds((x - a) as i64, (b - a) as i64);
                } else if x > c {
                    if c != d {
                        lemma_ramp_bounds((d - x) as i64, (d - c) as i64);
                    }
                }
            }
        },
    }
}

/// A triangular shape whose left corner and peak coincide grades its peak
/// with a full degree of one.
pub proof fn lemma_triangular_peak(a: i64, c: i64)
    requires
        valid_key(a) && valid_key(c),
        a <= c,
    ensures
        mem_value(Membership::Triangular { a, b: a, c }, a) == UNIT,
{
}

} // verus!
