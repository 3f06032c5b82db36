//! A quantity of information, tagged with its unit.

use crate::fixed::{fx_add, fx_add_spec, fx_mul, fx_mul_spec, fx_sub, fx_sub_spec, Fixed};
use crate::fixed_log::{LN_2, LOG2_E};
use vstd::prelude::*;

verus! {

/// A quantity of information in bits (logarithms to base two) or in nats
/// (natural logarithms).
///
/// Sum and difference of two quantities in the same unit keep that unit. Of
/// two quantities in different units both are first converted to bits, so the
/// result is in bits whichever operand comes first.
#[derive(Debug, Copy, Clone)]
pub enum InformationUnit {
    Bit(Fixed),
    Nat(Fixed),
}

impl InformationUnit {
    /// The magnitude, whatever the unit.
    pub open spec fn spec_value(self) -> int {
        match self {
            InformationUnit::Bit(x) => x as int,
            InformationUnit::Nat(x) => x as int,
        }
    }

    /// The magnitude in bits.
    pub open spec fn spec_bits(self) -> int {
        match self {
            InformationUnit::Bit(x) => x as int,
            InformationUnit::Nat(x) => fx_mul_spec(x as int, LOG2_E as int),
        }
    }

    /// The magnitude in nats.
    pub open spec fn spec_nats(self) -> int {
        match self {
            InformationUnit::Bit(x) => fx_mul_spec(x as int, LN_2 as int),
            InformationUnit::Nat(x) => x as int,
        }
    }

    /// The sum of two quantities.
    pub open spec fn spec_plus(self, other: InformationUnit) -> InformationUnit {
        match (self, other) {
            (InformationUnit::Nat(x), InformationUnit::Nat(y)) => InformationUnit::Nat(
                fx_add_spec(x as int, y as int) as i64,
            ),
            _ => InformationUnit::Bit(fx_add_spec(self.spec_bits(), other.spec_bits()) as i64),
        }
    }

    /// The difference of two quantities.
    pub open spec fn spec_minus(self, other: InformationUnit) -> InformationUnit {
        match (self, other) {
            (InformationUnit::Nat(x), InformationUnit::Nat(y)) => InformationUnit::Nat(
                fx_sub_spec(x as int, y as int) as i64,
            ),
            _ => InformationUnit::Bit(fx_sub_spec(self.spec_bits(), other.spec_bits()) as i64),
        }
    }

    /// The same quantity in bits.
    pub fn to_bits(&self) -> (r: InformationUnit)
        ensures
            r == InformationUnit::Bit(self.spec_bits() as i64),
    {
        match self {
            InformationUnit::Bit(x) => InformationUnit::Bit(*x),
            InformationUnit::Nat(x) => InformationUnit::Bit(fx_mul(*x, LOG2_E)),
        }
    }

    /// The same quantity in nats.
    pub fn to_nats(&self) -> (r: InformationUnit)
        ensures
            r == InformationUnit::Nat(self.spec_nats() as i64),
    {
        match self {
            InformationUnit::Bit(x) => InformationUnit::Nat(fx_mul(*x, LN_2)),
            InformationUnit::Nat(x) => InformationUnit::Nat(*x),
        }
    }

    /// The magnitude as a fixed-point number, whatever the unit.
    pub fn to_float(&self) -> (r: Fixed)
        ensures
            r == self.spec_value(),
    {
        match self {
            InformationUnit::Bit(x) => *x,
            InformationUnit::Nat(x) => *x,
        }
    }

    /// The quantity whose magnitude is `func` of this one's, in the same
    /// unit.
    pub fn apply<F: Fn(Fixed) -> Fixed>(&self, func: F) -> (r: InformationUnit)
        requires
            call_requires(func, (self.spec_value() as i64,)),
        ensures
            call_ensures(func, (self.spec_value() as i64,), r.spec_value() as i64),
            self is Bit <==> r is Bit,
    {
        match self {
            InformationUnit::Bit(x) => InformationUnit::Bit(func(*x)),
            InformationUnit::Nat(x) => InformationUnit::Nat(func(*x)),
        }
    }

    /// The sum of two quantities.
    pub fn plus(self, other: InformationUnit) -> (r: InformationUnit)
        ensures
            r == self.spec_plus(other),
    {
        match (self, other) {
            (InformationUnit::Nat(x), InformationUnit::Nat(y)) => InformationUnit::Nat(
                fx_add(x, y),
            ),
            _ => {
                let a: Fixed = self.to_bits().to_float();
                let b: Fixed = other.to_bits().to_float();
                InformationUnit::Bit(fx_add(a, b))
            },
        }
    }

    /// The difference of two quantities.
    pub fn minus(self, other: InformationUnit) -> (r: InformationUnit)
        ensures
            r == self.spec_minus(other),
    {
        match (self, other) {
            (InformationUnit::Nat(x), InformationUnit::Nat(y)) => InformationUnit::Nat(
                fx_sub(x, y),
            ),
            _ => {
                let a: Fixed = self.to_bits().to_float();
                let b: Fixed = other.to_bits().to_float();
                InformationUnit::Bit(fx_sub(a, b))
            },
        }
    }
}

impl core::ops::Add for InformationUnit {
    type Output = InformationUnit;

    fn add(self, other: InformationUnit) -> (r: InformationUnit) {
        self.plus(other)
    }
}

impl vstd::std_specs::ops::AddSpecImpl for InformationUnit {
    open spec fn obeys_add_spec() -> bool {
        true
    }

    open spec fn add_req(self, other: InformationUnit) -> bool {
        true
    }

    open spec fn add_spec(self, other: InformationUnit) -> InformationUnit {
        self.spec_plus(other)
    }
}

impl core::ops::Sub for InformationUnit {
    type Output = InformationUnit;

    fn sub(self, other: InformationUnit) -> (r: InformationUnit) {
        self.minus(other)
    }
}

impl vstd::std_specs::ops::SubSpecImpl for InformationUnit {
    open spec fn obeys_sub_spec() -> bool {
        true
    }

    open spec fn sub_req(self, other: InformationUnit) -> bool {
        true
    }

    open spec fn sub_spec(self, other: InformationUnit) -> InformationUnit {
        self.spec_minus(other)
    }
}

/// Converting one nat to bits and back gives one nat again, and likewise for
/// one bit.
pub proof fn law_unit_round_trip()
    ensures
        fx_mul_spec(fx_mul_spec(1_000_000_000_000_000, LOG2_E as int), LN_2 as int)
            == 1_000_000_000_000_000,
        fx_mul_spec(fx_mul_spec(1_000_000_000_000_000, LN_2 as int), LOG2_E as int)
            == 1_000_000_000_000_000,
{
    assert(1_000_000_000_000_000 * LOG2_E == 1_442_695_040_888_964_000_000_000_000_000)
        by (nonlinear_arith)
        requires
            LOG2_E == 1_442_695_040_888_964,
    ;
    assert(1_000_000_000_000_000 * LN_2 == 693_147_180_559_945_000_000_000_000_000)
        by (nonlinear_arith)
        requires
            LN_2 == 693_147_180_559_945,
    ;
    assert(LOG2_E * LN_2 == 999_999_999_999_999_964_392_090_946_980) by (nonlinear_arith)
        requires
            LOG2_E == 1_442_695_040_888_964,
            LN_2 == 693_147_180_559_945,
    ;
    assert(LN_2 * LOG2_E == LOG2_E * LN_2) by (nonlinear_arith);
    assert(fx_mul_spec(1_000_000_000_000_000, LOG2_E as int) == LOG2_E);
    assert(fx_mul_spec(1_000_000_000_000_000, LN_2 as int) == LN_2);
}

} // verus!
