use vstd::prelude::*;

verus! {

/// What a stat needs to know of a modifier: how it changes a running value and
/// where it goes when the caller names no order.
///
/// `applied` and `intrinsic_order` are the mathematical meaning of the two
/// executable methods; the stat's contracts are stated over them. An
/// implementation written outside of verified code gives all four as plain
/// functions, the first two computing what the last two do.
pub trait Modifier: Sized {
    /// The numeric type of the stat this modifier acts on.
    type Value: Copy;

    /// The value that `apply` leaves behind when it starts from `value`.
    spec fn applied(&self, value: Self::Value) -> Self::Value;

    /// The order that `default_order` returns.
    spec fn intrinsic_order(&self) -> i32;

    /// Applies the modifier to the running value in place.
    fn apply(&self, value: &mut Self::Value)
        ensures
            *final(value) == self.applied(*old(value)),
    ;

    /// The order used by `Stat::add_modifier`; lower orders apply earlier.
    fn default_order(&self) -> (order: i32)
        ensures
            order == self.intrinsic_order(),
    ;
}

/// The whole number nearest to `n` that an `i64` can hold.
pub open spec fn clamped(n: int) -> i64 {
    if n > i64::MAX {
        i64::MAX
    } else if n < i64::MIN {
        i64::MIN
    } else {
        n as i64
    }
}

/// Modifiers for stats that are counted in whole numbers. Results that an
/// `i64` cannot hold stop at its nearest bound.
#[derive(Clone, Copy, Debug)]
pub enum IntModifier {
    /// Adds the amount to the value.
    Flat(i64),
    /// Multiplies the value by the factor.
    Times(i64),
}

impl Modifier for IntModifier {
    type Value = i64;

    open spec fn applied(&self, value: i64) -> i64 {
        match *self {
            IntModifier::Flat(amount) => clamped(value + amount),
            IntModifier::Times(factor) => clamped(value * factor),
        }
    }

    /// Additions come before multiplications.
    open spec fn intrinsic_order(&self) -> i32 {
        match *self {
            IntModifier::Flat(_) => 100,
            IntModifier::Times(_) => 200,
        }
    }

    fn apply(&self, value: &mut i64) {
        let before: i64 = *value;
        match *self {
            IntModifier::Flat(amount) => {
                *value = match before.checked_add(amount) {
                    Some(sum) => sum,
                    None => if amount > 0 {
                        i64::MAX
                    } else {
                        i64::MIN
                    },
                };
            },
            IntModifier::Times(factor) => {
                proof {
                    lemma_product_sign(before as int, factor as int);
                }
                *value = match before.checked_mul(factor) {
                    Some(product) => product,
                    None => if (before > 0) == (factor > 0) {
                        i64::MAX
                    } else {
                        i64::MIN
                    },
                };
            },
        }
    }

    fn default_order(&self) -> (order: i32) {
        match *self {
            IntModifier::Flat(_) => 100,
            IntModifier::Times(_) => 200,
        }
    }
}

proof fn lemma_product_sign(a: int, b: int)
    ensures
        a * b > 0 ==> (a > 0) == (b > 0),
        a * b < 0 ==> (a > 0) != (b > 0),
{
    assert(a * b > 0 ==> (a > 0) == (b > 0)) by (nonlinear_arith);
    assert(a * b < 0 ==> (a > 0) != (b > 0)) by (nonlinear_arith);
}

} // verus!
