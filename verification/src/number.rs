//! A typed numeric value: an exact rational magnitude together with a
//! dimensionality.  Its mathematical model is a `NumModel`.

use vstd::prelude::*;
use crate::rational::Numeric;
use crate::dimension::{BaseUnit, Dimensionality, sum_map, sum_fits};

verus! {

/// The mathematical reading of a `Number`: exact rational magnitude
/// (numerator and denominator) and the exponent map of its unit.
pub struct NumModel {
    pub num: int,
    pub den: int,
    pub unit: Map<Seq<char>, int>,
}

/// The exact product of two number models.
pub open spec fn model_mul(a: NumModel, b: NumModel) -> NumModel {
    NumModel { num: a.num * b.num, den: a.den * b.den, unit: sum_map(a.unit, b.unit) }
}

/// Whether the exact product of two models fits the representation.
pub open spec fn model_mul_fits(a: NumModel, b: NumModel) -> bool {
    &&& i64::MIN <= a.num * b.num <= i64::MAX
    &&& a.den * b.den <= i64::MAX
    &&& sum_fits(a.unit, b.unit)
}

/// Value equality of two numbers: equal magnitudes and equal units.
pub open spec fn number_eq(a: Number, b: Number) -> bool {
    &&& crate::rational::rat_eq(a.value, b.value)
    &&& a.unit.to_map() == b.unit.to_map()
}

/// A magnitude with a unit.
#[derive(Debug)]
pub struct Number {
    pub value: Numeric,
    pub unit: Dimensionality,
}

impl Clone for Number {
    fn clone(&self) -> (r: Self)
        ensures
            r.value == self.value,
            r.unit@ == self.unit@,
            r.model() == self.model(),
            r.wf() == self.wf(),
    {
        Number { value: self.value, unit: self.unit.clone() }
    }
}

impl Number {
    /// The mathematical value of this number.
    pub open spec fn model(&self) -> NumModel {
        NumModel {
            num: self.value.num as int,
            den: self.value.den as int,
            unit: self.unit.to_map(),
        }
    }

    /// The representation invariant.
    pub open spec fn wf(&self) -> bool {
        &&& self.value.wf()
        &&& self.unit.wf()
    }

    /// The dimensionless one.
    pub fn one() -> (r: Number)
        ensures
            r.wf(),
            r.model() == (NumModel { num: 1, den: 1, unit: Map::<Seq<char>, int>::empty() }),
            r.unit@.len() == 0,
    {
        Number { value: Numeric::one(), unit: Dimensionality::dimensionless() }
    }

    /// One unit of the given base dimension.
    pub fn one_unit(unit: BaseUnit) -> (r: Number)
        ensures
            r.wf(),
            r.model() == (NumModel {
                num: 1,
                den: 1,
                unit: Map::<Seq<char>, int>::empty().insert(unit@, 1),
            }),
    {
        Number { value: Numeric::one(), unit: Dimensionality::base_unit(unit) }
    }

    /// Whether two numbers denote the same magnitude and unit.
    pub fn eq_number(&self, other: &Number) -> (r: bool)
        requires
            self.wf(),
            other.wf(),
        ensures
            r == number_eq(*self, *other),
    {
        self.value.eq_value(&other.value) && self.unit.dim_eq(&other.unit)
    }

    /// Exact product of two numbers; `None` when the exact result does
    /// not fit the representation.
    pub fn checked_mul(&self, other: &Number) -> (r: Option<Number>)
        requires
            self.wf(),
            other.wf(),
        ensures
            match r {
                Some(p) => {
                    &&& model_mul_fits(self.model(), other.model())
                    &&& p.wf()
                    &&& p.model() == model_mul(self.model(), other.model())
                },
                None => !model_mul_fits(self.model(), other.model()),
            },
    {
        let value = match self.value.checked_mul(&other.value) {
            Some(v) => v,
            None => {
                return None;
            },
        };
        let unit = match self.unit.checked_mul(&other.unit) {
            Some(u) => u,
            None => {
                return None;
            },
        };
        Some(Number { value, unit })
    }
}

} // verus!
