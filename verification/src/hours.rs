//! Working time and hourly rates, held in exact fixed-point form.

use vstd::prelude::*;
use crate::error::FormatError;

verus! {

/// The hourly rate at or under which a slot counts as a floater.
pub const FLOATER_RATE: i32 = 150;

/// A positive span of working time in thousandths of an hour.
#[derive(Clone, Copy, Debug)]
pub struct Hours {
    millis: u32,
}

/// Whether `packages` spread over `millis` thousandths of an hour come to
/// at most `target` packages per hour.
pub open spec fn rate_at_most(packages: int, millis: int, target: int) -> bool {
    packages * 1000 <= target * millis
}

/// The hourly rate of `packages` over `millis` thousandths of an hour in
/// whole packages: cut off toward zero, and held to what 32 bits take.
pub open spec fn whole_rate(packages: int, millis: int) -> int {
    let exact = if packages >= 0 {
        (packages * 1000) / millis
    } else {
        -((-packages * 1000) / millis)
    };
    if exact > i32::MAX {
        i32::MAX as int
    } else if exact < i32::MIN {
        i32::MIN as int
    } else {
        exact
    }
}

impl Hours {
    #[verifier::type_invariant]
    pub closed spec fn inv(self) -> bool {
        self.millis > 0
    }

    /// The span in thousandths of an hour.
    pub closed spec fn spec_millis(self) -> int {
        self.millis as int
    }

    /// Builds a span from thousandths of an hour; zero is not a span.
    pub fn from_millis(millis: u32) -> (r: Result<Hours, FormatError>)
        ensures
            millis == 0 ==> r == Err::<Hours, FormatError>(FormatError::TotalHours),
            millis > 0 ==> r is Ok && r->Ok_0.spec_millis() == millis,
    {
        if millis == 0 {
            Err(FormatError::TotalHours)
        } else {
            Ok(Hours { millis })
        }
    }

    /// The span in thousandths of an hour.
    pub fn millis(&self) -> (r: u32)
        ensures
            r == self.spec_millis(),
            r > 0,
    {
        proof {
            use_type_invariant(self);
        }
        self.millis
    }

    /// Whether `packages` over this span come to at most `target` per hour.
    pub fn at_most(&self, packages: i128, target: i32) -> (r: bool)
        ensures
            r == rate_at_most(packages as int, self.spec_millis(), target as int),
    {
        let m: u32 = self.millis();
        assert(-0x8000_0000_0000_0000 <= (target as int) * (m as int) <= 0x8000_0000_0000_0000)
            by (nonlinear_arith)
            requires
                -0x8000_0000 <= target <= 0x7fff_ffff,
                0 <= m <= 0xffff_ffff,
        ;
        let right: i128 = (target as i128) * (m as i128);
        if packages > 0x8000_0000_0000_0000 {
            false
        } else if packages < -0x8000_0000_0000_0000 {
            true
        } else {
            packages * 1000 <= right
        }
    }
}

impl Default for Hours {
    /// Six and a half hours.
    fn default() -> (r: Hours)
        ensures
            r.spec_millis() == 6500,
    {
        Hours { millis: 6500 }
    }
}

/// An hourly rate as an exact fraction: a number of packages over a span
/// of working time.
#[derive(Clone, Copy, Debug)]
pub struct Rate {
    pub packages: i128,
    pub hours: Hours,
}

impl Rate {
    /// Whether this rate is at most `target` packages per hour.
    pub open spec fn at_most_spec(self, target: int) -> bool {
        rate_at_most(self.packages as int, self.hours.spec_millis(), target)
    }

    /// Whether this rate is low enough for a floater: at most 150 per
    /// hour, 150 itself included.
    pub open spec fn is_floater_spec(self) -> bool {
        self.at_most_spec(150)
    }

    /// Whether this rate is at most `target` packages per hour.
    pub fn at_most(&self, target: i32) -> (r: bool)
        ensures
            r == self.at_most_spec(target as int),
    {
        self.hours.at_most(self.packages, target)
    }

    /// Whether this rate is at most 150 packages per hour.
    pub fn is_floater(&self) -> (r: bool)
        ensures
            r == self.is_floater_spec(),
    {
        self.hours.at_most(self.packages, FLOATER_RATE)
    }

    /// This rate in whole packages per hour.
    pub fn whole(&self) -> (r: i32)
        ensures
            r == whole_rate(self.packages as int, self.hours.spec_millis()),
    {
        let m: i128 = self.hours.millis() as i128;
        let p: i128 = self.packages;
        if p >= 0x1_0000_0000_0000_0000 {
            assert((p * 1000) / (m as int) > 0x7fff_ffff) by (nonlinear_arith)
                requires
                    p >= 0x1_0000_0000_0000_0000,
                    0 < m <= 0xffff_ffff,
            ;
            i32::MAX
        } else if p <= -0x1_0000_0000_0000_0000 {
            assert((-p * 1000) / (m as int) > 0x8000_0000) by (nonlinear_arith)
                requires
                    -p >= 0x1_0000_0000_0000_0000,
                    0 < m <= 0xffff_ffff,
            ;
            i32::MIN
        } else if p >= 0 {
            let q: i128 = (p * 1000) / m;
            if q > 0x7fff_ffff {
                i32::MAX
            } else {
                assert(q >= 0) by (nonlinear_arith)
                    requires
                        q == (p * 1000) / (m as int),
                        p >= 0,
                        m > 0,
                ;
                q as i32
            }
        } else {
            let q: i128 = ((-p) * 1000) / m;
            if q > 0x8000_0000 {
                i32::MIN
            } else {
                assert(q >= 0) by (nonlinear_arith)
                    requires
                        q == (-p * 1000) / (m as int),
                        p < 0,
                        m > 0,
                ;
                (-q) as i32
            }
        }
    }
}

} // verus!
