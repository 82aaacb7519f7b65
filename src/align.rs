//! Greatest common divisor, least common multiple and rounding up to a
//! multiple: the arithmetic of buffer alignment.
use vstd::prelude::*;
use vstd::arithmetic::div_mod::{
    lemma_fundamental_div_mod,
    lemma_mod_multiples_basic,
    lemma_div_by_multiple,
};

verus! {

/// Greatest common divisor, by Euclid's rule.
pub open spec fn gcd(a: nat, b: nat) -> nat
    decreases b,
{
    if b == 0 {
        a
    } else {
        gcd(b, a % b)
    }
}

/// Least common multiple of two positive numbers.
pub open spec fn lcm(a: nat, b: nat) -> nat {
    (a / gcd(a, b)) * b
}

/// The least multiple of `a` that is not below `x` (`a > 0`).
pub open spec fn next_multiple_of(x: nat, a: nat) -> nat {
    if x % a == 0 {
        x
    } else {
        (x + (a - x % a)) as nat
    }
}

/// `d` divides `x`.
pub open spec fn divides(d: nat, x: nat) -> bool {
    exists|k: nat| x == #[trigger] (k * d)
}

proof fn lemma_divides_mod(d: nat, x: nat)
    requires
        d > 0,
    ensures
        divides(d, x) <==> x % d == 0,
{
    if x % d == 0 {
        lemma_fundamental_div_mod(x as int, d as int);
        let k = x / d;
        assert(x == k * d) by (nonlinear_arith)
            requires
                x == d * (x / d) + x % d,
                x % d == 0,
                k == x / d,
        ;
    }
    if divides(d, x) {
        let k = choose|k: nat| x == #[trigger] (k * d);
        lemma_mod_multiples_basic(k as int, d as int);
    }
}

/// Both arguments are multiples of their greatest common divisor, which is
/// positive when the first one is.
pub proof fn lemma_gcd_divides(a: nat, b: nat)
    requires
        a > 0,
    ensures
        gcd(a, b) > 0,
        divides(gcd(a, b), a),
        divides(gcd(a, b), b),
    decreases b,
{
    if b == 0 {
        assert(a == 1 * a);
        assert(0 == 0 * a);
    } else {
        lemma_gcd_divides(b, a % b);
        let g = gcd(b, a % b);
        let p = choose|p: nat| b == #[trigger] (p * g);
        let q = choose|q: nat| a % b == #[trigger] (q * g);
        lemma_fundamental_div_mod(a as int, b as int);
        let k = (p * (a / b) + q) as nat;
        assert(a == k * g) by (nonlinear_arith)
            requires
                a == b * (a / b) + a % b,
                b == p * g,
                a % b == q * g,
                k == p * (a / b) + q,
                a / b >= 0,
        ;
    }
}

/// The least common multiple is positive and a multiple of both arguments.
pub proof fn lemma_lcm_multiple(a: nat, b: nat)
    requires
        a > 0,
        b > 0,
    ensures
        lcm(a, b) > 0,
        divides(a, lcm(a, b)),
        divides(b, lcm(a, b)),
        lcm(a, b) >= a,
        lcm(a, b) >= b,
{
    lemma_gcd_divides(a, b);
    let g = gcd(a, b);
    let p = choose|p: nat| a == #[trigger] (p * g);
    let q = choose|q: nat| b == #[trigger] (q * g);
    lemma_div_by_multiple(p as int, g as int);
    assert(a / g == p);
    assert(lcm(a, b) == p * b);
    assert(p > 0 && q > 0) by (nonlinear_arith)
        requires
            a == p * g,
            b == q * g,
            a > 0,
            b > 0,
    ;
    assert(p * b == q * a) by (nonlinear_arith)
        requires
            a == p * g,
            b == q * g,
    ;
    assert(q * a >= a) by (nonlinear_arith)
        requires
            q > 0,
    ;
    assert(p * b > 0) by (nonlinear_arith)
        requires
            p > 0,
            b > 0,
    ;
    assert(p * b >= b) by (nonlinear_arith)
        requires
            p > 0,
            b > 0,
    ;
}

/// A multiple of a multiple of `d` is a multiple of `d`.
pub proof fn lemma_divides_trans(d: nat, x: nat, y: nat)
    requires
        divides(d, x),
        divides(x, y),
    ensures
        divides(d, y),
{
    let p = choose|p: nat| x == #[trigger] (p * d);
    let q = choose|q: nat| y == #[trigger] (q * x);
    assert(y == (q * p) * d) by (nonlinear_arith)
        requires
            x == p * d,
            y == q * x,
    ;
}

/// Rounding up to a multiple gives a multiple, not below the argument and
/// less than one step above it.
pub proof fn lemma_next_multiple(x: nat, a: nat)
    requires
        a > 0,
    ensures
        divides(a, next_multiple_of(x, a)),
        x <= next_multiple_of(x, a) < x + a,
{
    let r = next_multiple_of(x, a);
    lemma_fundamental_div_mod(x as int, a as int);
    if x % a == 0 {
        lemma_divides_mod(a, x);
    } else {
        let k = (x / a + 1) as nat;
        let xi = x as int;
        let ai = a as int;
        let q = xi / ai;
        let m = xi % ai;
        assert(r as int == xi + ai - m);
        assert(xi + ai - m == (q + 1) * ai) by (nonlinear_arith)
            requires
                xi == ai * q + m,
        ;
        assert(r == k * a);
    }
}

/// The greatest common divisor of two machine integers.
pub fn gcd_usize(a: usize, b: usize) -> (r: usize)
    ensures
        r == gcd(a as nat, b as nat),
{
    let mut x = a;
    let mut y = b;
    while y != 0
        invariant
            gcd(x as nat, y as nat) == gcd(a as nat, b as nat),
        decreases y,
    {
        let t = x % y;
        x = y;
        y = t;
    }
    x
}

/// The least common multiple of two positive machine integers, or `None`
/// where it does not fit.
pub fn checked_lcm(a: usize, b: usize) -> (r: Option<usize>)
    requires
        a > 0,
        b > 0,
    ensures
        r matches Some(l) ==> l == lcm(a as nat, b as nat),
        r is None <==> lcm(a as nat, b as nat) > usize::MAX,
{
    let g = gcd_usize(a, b);
    proof {
        lemma_gcd_divides(a as nat, b as nat);
    }
    let p = a / g;
    p.checked_mul(b)
}

/// The least multiple of `a` that is not below `x`, or `None` where it
/// does not fit.
pub fn checked_next_multiple_of(x: usize, a: usize) -> (r: Option<usize>)
    requires
        a > 0,
    ensures
        r matches Some(v) ==> v == next_multiple_of(x as nat, a as nat),
        r is None <==> next_multiple_of(x as nat, a as nat) > usize::MAX,
{
    let rem = x % a;
    if rem == 0 {
        Some(x)
    } else {
        x.checked_add(a - rem)
    }
}


/// Bezout: the greatest common divisor is an integer combination of the
/// two arguments.
pub proof fn lemma_bezout(a: nat, b: nat) -> (r: (int, int))
    ensures
        r.0 * a + r.1 * b == gcd(a, b),
    decreases b,
{
    if b == 0 {
        (1, 0)
    } else {
        let (x, y) = lemma_bezout(b, a % b);
        lemma_fundamental_div_mod(a as int, b as int);
        let q = (a / b) as int;
        assert(y * a + (x - y * q) * b == gcd(a, b)) by (nonlinear_arith)
            requires
                x * b + y * (a % b) == gcd(b, a % b),
                gcd(a, b) == gcd(b, a % b),
                a == b * q + a % b,
        ;
        (y, x - y * q)
    }
}

/// The least common multiple divides every common multiple.
pub proof fn lemma_lcm_least(a: nat, b: nat, c: nat)
    requires
        a > 0,
        b > 0,
        divides(a, c),
        divides(b, c),
    ensures
        divides(lcm(a, b), c),
{
    lemma_gcd_divides(a, b);
    let g = gcd(a, b);
    let p = choose|p: nat| a == #[trigger] (p * g);
    let t = choose|t: nat| c == #[trigger] (t * a);
    let s = choose|s: nat| c == #[trigger] (s * b);
    let (x, y) = lemma_bezout(a, b);
    lemma_div_by_multiple(p as int, g as int);
    assert(lcm(a, b) == p * b);
    let k = x * s + y * t;
    assert(c * g == (p * b) * k * g) by (nonlinear_arith)
        requires
            x * a + y * b == g,
            c == t * a,
            c == s * b,
            a == p * g,
            k == x * s + y * t,
    ;
    assert(c == (p * b) * k) by (nonlinear_arith)
        requires
            c * g == (p * b) * k * g,
            g > 0,
    ;
    assert(p * b > 0) by (nonlinear_arith)
        requires
            a == p * g,
            a > 0,
            b > 0,
    ;
    assert(k >= 0) by (nonlinear_arith)
        requires
            c == (p * b) * k,
            p * b > 0,
            c >= 0,
    ;
    let kn = k as nat;
    assert(c == kn * lcm(a, b)) by (nonlinear_arith)
        requires
            c == (p * b) * k,
            kn == k,
            lcm(a, b) == p * b,
    ;
}

} // verus!
