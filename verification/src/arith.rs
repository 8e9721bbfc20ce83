//! Small arithmetic toolkit: integer powers and the facts about them that
//! the limb and decimal models need.

use vstd::prelude::*;

verus! {

/// `b` raised to the natural power `e`.
pub open spec fn power_of(b: int, e: nat) -> int
    decreases e,
{
    if e == 0 {
        1
    } else {
        b * power_of(b, (e - 1) as nat)
    }
}

pub proof fn lemma_power_of_pos(b: int, e: nat)
    requires
        b > 0,
    ensures
        power_of(b, e) > 0,
    decreases e,
{
    if e > 0 {
        lemma_power_of_pos(b, (e - 1) as nat);
        assert(b * power_of(b, (e - 1) as nat) > 0) by (nonlinear_arith)
            requires
                b > 0,
                power_of(b, (e - 1) as nat) > 0,
        ;
    }
}

/// Powers multiply when exponents add.
pub proof fn lemma_power_of_adds(b: int, e1: nat, e2: nat)
    ensures
        power_of(b, e1 + e2) == power_of(b, e1) * power_of(b, e2),
    decreases e1,
{
    if e1 == 0 {
        assert(power_of(b, e2) == 1 * power_of(b, e2)) by (nonlinear_arith);
    } else {
        lemma_power_of_adds(b, (e1 - 1) as nat, e2);
        assert((e1 + e2 - 1) as nat == (e1 - 1) as nat + e2);
        assert(b * (power_of(b, (e1 - 1) as nat) * power_of(b, e2)) == (b * power_of(
            b,
            (e1 - 1) as nat,
        )) * power_of(b, e2)) by (nonlinear_arith);
    }
}

/// For a base of at least 1, powers grow with the exponent.
pub proof fn lemma_power_of_increases(b: int, e1: nat, e2: nat)
    requires
        b >= 1,
        e1 <= e2,
    ensures
        power_of(b, e1) <= power_of(b, e2),
    decreases e2,
{
    if e1 < e2 {
        lemma_power_of_increases(b, e1, (e2 - 1) as nat);
        lemma_power_of_pos(b, (e2 - 1) as nat);
        assert(power_of(b, (e2 - 1) as nat) <= b * power_of(b, (e2 - 1) as nat))
            by (nonlinear_arith)
            requires
                b >= 1,
                power_of(b, (e2 - 1) as nat) > 0,
        ;
    }
}

} // verus!
