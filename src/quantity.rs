use crate::price::{lemma_pow10_positive, pow10};
use vstd::prelude::*;

verus! {

/// The finest scale a size may have; sums of sizes are kept at this scale.
pub const QUANTITY_SCALE: u32 = 18;

/// A non-negative decimal size: `units * 10^-scale`.
#[derive(Clone, Copy, Debug, PartialEq, Eq, Structural)]
pub struct Quantity {
    pub units: u128,
    pub scale: u32,
}

/// The size in units of `10^-QUANTITY_SCALE`.
pub open spec fn quantity_value(q: Quantity) -> nat
    recommends
        q.scale <= QUANTITY_SCALE,
{
    (q.units * pow10((QUANTITY_SCALE - q.scale) as nat)) as nat
}

/// A sum of sizes, given in units of `10^-QUANTITY_SCALE`.
pub open spec fn total_of(units: nat) -> Quantity {
    Quantity { units: units as u128, scale: QUANTITY_SCALE }
}

/// The size in units of `10^-QUANTITY_SCALE`, or `None` when its scale is finer
/// than that or the result does not fit a `u128`.
pub fn quantity_units(q: Quantity) -> (r: Option<u128>)
    ensures
        r matches Some(v) ==> q.scale <= QUANTITY_SCALE && v == quantity_value(q),
        r is None <==> q.scale > QUANTITY_SCALE || quantity_value(q) > u128::MAX,
{
    if q.scale > QUANTITY_SCALE {
        return None;
    }
    let d = QUANTITY_SCALE - q.scale;
    let m = crate::price::pow10_u128(d);
    proof {
        lemma_pow10_positive(d as nat);
    }
    let v = q.units.checked_mul(m);
    v
}

} // verus!
