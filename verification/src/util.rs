//! Integer percentages.

use vstd::prelude::*;

verus! {

/// The percentage that `num` is of `denom`, rounded down; zero when `denom`
/// is zero.
pub open spec fn percent_of(num: nat, denom: nat) -> nat {
    if denom == 0 {
        0
    } else {
        (100 * num) / denom
    }
}

/// `percent_of`, cut off at the largest `u32`.
pub open spec fn percent_capped(num: nat, denom: nat) -> nat {
    if percent_of(num, denom) > u32::MAX {
        u32::MAX as nat
    } else {
        percent_of(num, denom)
    }
}

/// The percentage that `num` is of `denom`, rounded down.
///
/// A zero `denom` gives zero, and a percentage beyond `u32::MAX` gives
/// `u32::MAX`.
pub fn percent(num: usize, denom: usize) -> (p: u32)
    ensures
        p == percent_capped(num as nat, denom as nat),
        num <= denom ==> p <= 100,
{
    if denom == 0 {
        return 0;
    }
    let wide: u128 = 100u128 * (num as u128);
    let q: u128 = wide / (denom as u128);
    proof {
        let n = num as nat;
        let d = denom as nat;
        assert(q as nat == (100 * n) / d);
        if n <= d {
            assert((100 * n) / d <= 100) by (nonlinear_arith)
                requires
                    n <= d,
                    d > 0,
            ;
        }
    }
    if q > u32::MAX as u128 {
        u32::MAX
    } else {
        q as u32
    }
}

/// Whether the percentage that `num` is of `denom`, rounded down, is less
/// than `bound`. The percentage is not cut off.
pub fn percent_below(num: usize, denom: usize, bound: usize) -> (b: bool)
    ensures
        b == (percent_of(num as nat, denom as nat) < bound),
{
    if denom == 0 {
        return 0 < bound;
    }
    let wide: u128 = 100u128 * (num as u128);
    let q: u128 = wide / (denom as u128);
    assert(q as nat == (100 * (num as nat)) / (denom as nat));
    q < bound as u128
}

} // verus!
