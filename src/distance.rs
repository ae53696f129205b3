use vstd::prelude::*;
use crate::decimal::{pow10, Decimal};
use crate::text::string_of;

verus! {

/// A unit in which a distance is shown.
#[derive(Debug, Clone, Copy, PartialEq, Eq, Structural, PartialOrd, Ord)]
pub enum DistanceUnit {
    Meters,
    Kilometers,
    AstronomicalUnits,
    Lightyears,
    Parsecs,
}

/// How many meters one of the unit holds.
pub open spec fn spec_factor(u: DistanceUnit) -> nat {
    match u {
        DistanceUnit::Meters => 1,
        DistanceUnit::Kilometers => 1000,
        DistanceUnit::AstronomicalUnits => 149_597_870_700,
        DistanceUnit::Lightyears => 9_460_730_472_580_800,
        DistanceUnit::Parsecs => 308_567_758_149_136_730,
    }
}

/// The symbol of a unit.
pub open spec fn spec_symbol(u: DistanceUnit) -> Seq<char> {
    match u {
        DistanceUnit::Meters => seq!['m'],
        DistanceUnit::Kilometers => seq!['k', 'm'],
        DistanceUnit::AstronomicalUnits => seq!['A', 'U'],
        DistanceUnit::Lightyears => seq!['l', 'y'],
        DistanceUnit::Parsecs => seq!['p', 'c'],
    }
}

/// Whether `d` is more than half of `f`, compared exactly: both sides are scaled by the
/// power of ten that makes them whole.
pub open spec fn more_than_half(d: Decimal, f: nat) -> bool {
    if d.exponent >= 0 {
        2 * d.mantissa * pow10(d.exponent as nat) > f
    } else {
        2 * d.mantissa > f * pow10((-d.exponent) as nat)
    }
}

/// The unit in which a distance of `d` meters is shown: the largest, from parsecs down to
/// kilometers, of which `d` is more than half; meters otherwise.
pub open spec fn spec_unit_for(d: Decimal) -> DistanceUnit {
    if more_than_half(d, spec_factor(DistanceUnit::Parsecs)) {
        DistanceUnit::Parsecs
    } else if more_than_half(d, spec_factor(DistanceUnit::Lightyears)) {
        DistanceUnit::Lightyears
    } else if more_than_half(d, spec_factor(DistanceUnit::AstronomicalUnits)) {
        DistanceUnit::AstronomicalUnits
    } else if more_than_half(d, spec_factor(DistanceUnit::Kilometers)) {
        DistanceUnit::Kilometers
    } else {
        DistanceUnit::Meters
    }
}

/// Whether `d` is more than half of `f`, for a factor below `10^18`.
fn exceeds_half(d: &Decimal, f: u64) -> (r: bool)
    requires
        1 <= f < 1_000_000_000_000_000_000,
    ensures
        r == more_than_half(*d, f as nat),
{
    let m = d.mantissa;
    if m <= 0 {
        proof {
            crate::decimal::lemma_pow10_positive(abs_exponent(d.exponent));
            if d.exponent >= 0 {
                assert(2 * m * pow10(d.exponent as nat) <= 0) by (nonlinear_arith)
                    requires
                        m <= 0,
                        pow10(d.exponent as nat) >= 1,
                ;
            } else {
                assert(f * pow10((-d.exponent) as nat) >= 1) by (nonlinear_arith)
                    requires
                        f >= 1,
                        pow10((-d.exponent) as nat) >= 1,
                ;
            }
        }
        return false;
    }
    let x: u128 = 2 * (m as u128);
    if d.exponent >= 0 {
        if d.exponent >= 18 {
            proof {
                crate::decimal::lemma_pow10_monotone(18, d.exponent as nat);
                crate::decimal::lemma_pow10_18();
                assert(2 * m * pow10(d.exponent as nat) > f) by (nonlinear_arith)
                    requires
                        m >= 1,
                        pow10(d.exponent as nat) >= 1_000_000_000_000_000_000,
                        f < 1_000_000_000_000_000_000,
                ;
            }
            return true;
        }
        let p = crate::decimal::pow10_exec(d.exponent as u32);
        proof {
            crate::decimal::lemma_pow10_positive(d.exponent as nat);
        }
        let q = (f as u128) / p;
        proof {
            let pp = pow10(d.exponent as nat);
            assert((x * pp > f as int) == (x as int > (f as int) / pp)) by (nonlinear_arith)
                requires
                    pp >= 1,
                    x >= 0,
                    f >= 0,
            ;
        }
        x > q
    } else {
        if d.exponent < -38 {
            proof {
                let k = (-d.exponent) as nat;
                crate::decimal::lemma_pow10_monotone(39, k);
                crate::decimal::lemma_pow10_39();
                assert(x < f * pow10(k)) by (nonlinear_arith)
                    requires
                        x < 0x1_0000_0000_0000_0000_0000_0000_0000_0000,
                        pow10(k) >= 1000000000000000000000000000000000000000,
                        f >= 1,
                ;
            }
            return false;
        }
        let p = crate::decimal::pow10_exec((-d.exponent) as u32);
        proof {
            crate::decimal::lemma_pow10_positive((-d.exponent) as nat);
        }
        let q = x / p;
        let r = x % p;
        proof {
            let pp = pow10((-d.exponent) as nat);
            assert((x > f * pp) == (q > f || (q == f && r > 0))) by (nonlinear_arith)
                requires
                    pp >= 1,
                    q == (x as int) / pp,
                    r == (x as int) % pp,
                    x >= 0,
                    f >= 0,
            ;
        }
        q > f as u128 || (q == f as u128 && r > 0)
    }
}

spec fn abs_exponent(e: i32) -> nat {
    if e >= 0 {
        e as nat
    } else {
        (-e) as nat
    }
}

impl DistanceUnit {
    /// How many meters one of this unit holds.
    pub fn factor(&self) -> (f: u64)
        ensures
            f == spec_factor(*self),
    {
        match self {
            DistanceUnit::Meters => 1,
            DistanceUnit::Kilometers => 1000,
            DistanceUnit::AstronomicalUnits => 149_597_870_700,
            DistanceUnit::Lightyears => 9_460_730_472_580_800,
            DistanceUnit::Parsecs => 308_567_758_149_136_730,
        }
    }

    /// The symbol of this unit.
    pub fn to_string(&self) -> (r: String)
        ensures
            r@ == spec_symbol(*self),
    {
        let mut out: Vec<char> = Vec::new();
        match self {
            DistanceUnit::Meters => {
                out.push('m');
            },
            DistanceUnit::Kilometers => {
                out.push('k');
                out.push('m');
            },
            DistanceUnit::AstronomicalUnits => {
                out.push('A');
                out.push('U');
            },
            DistanceUnit::Lightyears => {
                out.push('l');
                out.push('y');
            },
            DistanceUnit::Parsecs => {
                out.push('p');
                out.push('c');
            },
        }
        assert(out@ =~= spec_symbol(*self));
        string_of(&out)
    }

    /// The unit in which a distance of `value` meters is shown: the largest of which the value
    /// is more than half, from parsecs down; meters where none is.
    pub fn from_base_value(value: &Decimal) -> (u: DistanceUnit)
        ensures
            u == spec_unit_for(*value),
    {
        if exceeds_half(value, 308_567_758_149_136_730) {
            DistanceUnit::Parsecs
        } else if exceeds_half(value, 9_460_730_472_580_800) {
            DistanceUnit::Lightyears
        } else if exceeds_half(value, 149_597_870_700) {
            DistanceUnit::AstronomicalUnits
        } else if exceeds_half(value, 1000) {
            DistanceUnit::Kilometers
        } else {
            DistanceUnit::Meters
        }
    }
}

} // verus!
