use vstd::prelude::*;

verus! {

/// `x` lies in the closed interval `[a, b]`.
pub open spec fn bounded(x: int, a: int, b: int) -> bool {
    a <= x && x <= b
}

/// `x` is `b` raised to some natural power. With `b` equal to 0 or 1 only
/// `x == 1` counts, and 0 is never a power.
pub open spec fn is_power_of(x: nat, b: nat) -> bool
    decreases x,
    via is_power_of_decreases
{
    if x == 1 {
        true
    } else if x == 0 || b < 2 {
        false
    } else {
        x % b == 0 && is_power_of(x / b, b)
    }
}

#[via_fn]
proof fn is_power_of_decreases(x: nat, b: nat) {
    if x >= 2 && b >= 2 {
        lemma_quotient_smaller(x, b);
    }
}

proof fn lemma_quotient_smaller(x: nat, b: nat)
    requires
        x >= 1,
        b >= 2,
    ensures
        x / b < x,
{
    assert(x / b < x) by (nonlinear_arith)
        requires
            x >= 1,
            b >= 2,
    ;
}

/// Checks if x in [a,b].
pub fn check_bounded(x: i32, a: i32, b: i32) -> (r: bool)
    ensures
        r == bounded(x as int, a as int, b as int),
{
    x >= a && x <= b
}

/// Checks if x is a power of base b.
pub fn check_power_of_base(x: u32, b: u32) -> (r: bool)
    ensures
        r == is_power_of(x as nat, b as nat),
    decreases x,
{
    if x == 1 {
        true
    } else if x == 0 {
        false
    } else if b == 0 || b == 1 {
        false
    } else if x % b == 0 {
        proof {
            lemma_quotient_smaller(x as nat, b as nat);
        }
        check_power_of_base(x / b, b)
    } else {
        false
    }
}


/// Relies on rand's `Rng::gen_ratio` on the thread-local generator: true with
/// probability `num / den`. A ratio of 0 never gives true and a ratio of 1 always
/// does; it panics when `den` is 0 or `num > den`.
#[verifier::external_body]
pub fn flip(num: u32, den: u32) -> (r: bool)
    requires
        0 < den,
        num <= den,
    ensures
        num == 0 ==> !r,
        num == den ==> r,
{
    rand::Rng::gen_ratio(&mut rand::thread_rng(), num, den)
}

} // verus!
