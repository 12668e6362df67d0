use vstd::prelude::*;

verus! {

pub open spec fn pow(base: nat, e: nat) -> nat
    decreases e,
{
    if e == 0 { 1 } else { base * pow(base, (e - 1) as nat) }
}

/// `e` is the ceiling of the base-`base` logarithm of `x`: the least
/// exponent with `base^e >= x` (zero for `x <= 1`).
pub open spec fn is_ceil_log(base: nat, x: nat, e: nat) -> bool {
    &&& pow(base, e) >= x
    &&& e == 0 || pow(base, (e - 1) as nat) < x
}

/// The height drawn for a node: `ceil(log(m)) - ceil(log(u + 1))` capped at
/// `max_level`, where `u` is uniform in `0..m`. This is the integer form of
/// `ceil(log(m)) - ceil(log(r * m))` for `r` uniform in `[0, 1)`, since for a
/// power `p` of the base, `p >= r * m` exactly when `p > floor(r * m)`.
pub open spec fn is_level(m: nat, u: nat, base: nat, max_level: nat, h: nat) -> bool {
    exists|a: nat, b: nat|
        #[trigger] is_ceil_log(base, m, a) && #[trigger] is_ceil_log(base, u + 1, b) && b <= a && h == if a
            - b <= max_level {
            (a - b) as nat
        } else {
            max_level
        }
}

proof fn lemma_pow_monotone(base: nat, e1: nat, e2: nat)
    requires
        base >= 1,
        e1 <= e2,
    ensures
        pow(base, e1) <= pow(base, e2),
    decreases e2,
{
    if e1 < e2 {
        lemma_pow_monotone(base, e1, (e2 - 1) as nat);
        let p = pow(base, (e2 - 1) as nat);
        assert(p <= base * p) by (nonlinear_arith)
            requires base >= 1;
    }
}

/// The least `e` with `base^e >= x`.
pub fn ceil_log(base: u64, x: u64) -> (e: u64)
    requires
        base >= 2,
    ensures
        is_ceil_log(base as nat, x as nat, e as nat),
{
    let mut e: u64 = 0;
    let mut p: u128 = 1;
    while p < x as u128
        invariant
            p == pow(base as nat, e as nat),
            e == 0 || pow(base as nat, (e - 1) as nat) < x,
            p >= e + 1,
            base >= 2,
        decreases (x as int) - (e as int),
    {
        assert(p * (base as u128) <= u128::MAX) by (nonlinear_arith)
            requires p <= u64::MAX, base <= u64::MAX;
        assert(p * base >= 2 * p) by (nonlinear_arith)
            requires base >= 2, p >= 1;
        let ghost p0 = p;
        p = p * (base as u128);
        e = e + 1;
        assert(pow(base as nat, e as nat) == base * pow(base as nat, (e - 1) as nat));
        assert(p == base * p0) by (nonlinear_arith)
            requires p == p0 * base;
        assert(p >= 2 * p0) by (nonlinear_arith)
            requires p == base * p0, base >= 2, p0 >= 1;
    }
    e
}

/// The height for a node from the draw `u` out of `0..m`, with logarithm
/// base `log_base`, capped at `max_level`.
pub fn level_for_draw(m: u64, u: u64, log_base: u64, max_level: u16) -> (r: u16)
    requires
        log_base >= 2,
        u < m,
    ensures
        is_level(m as nat, u as nat, log_base as nat, max_level as nat, r as nat),
        r <= max_level,
{
    let a = ceil_log(log_base, m);
    let b = ceil_log(log_base, u + 1);
    proof {
        if b > a {
            lemma_pow_monotone(log_base as nat, a as nat, (b - 1) as nat);
        }
    }
    let d = a - b;
    let r: u16 = if d <= max_level as u64 { d as u16 } else { max_level };
    assert(is_ceil_log(log_base as nat, m as nat, a as nat) && is_ceil_log(log_base as nat, u as nat + 1, b as nat));
    r
}

} // verus!
