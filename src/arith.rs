//! Integer square root and the Euclidean greatest common divisor.
use vstd::arithmetic::div_mod::{
    lemma_fundamental_div_mod,
    lemma_mod_multiples_basic,
    lemma_mod_multiples_vanish,
};
use vstd::prelude::*;

verus! {

/// `d` divides `n` (every number divides zero; zero divides only zero).
pub open spec fn divides(d: nat, n: nat) -> bool {
    if d == 0 {
        n == 0
    } else {
        n % d == 0
    }
}

/// Greatest common divisor by repeated remainder.
pub open spec fn gcd_spec(a: nat, b: nat) -> nat
    decreases b,
{
    if b == 0 {
        a
    } else {
        gcd_spec(b, a % b)
    }
}

/// Least common multiple; zero when both operands are zero.
pub open spec fn lcm_spec(a: nat, b: nat) -> nat {
    if a == 0 && b == 0 {
        0
    } else {
        (a * b) / gcd_spec(a, b)
    }
}

/// `d * k` is a multiple of `d`.
pub proof fn lemma_divides_mul(d: nat, k: nat)
    ensures
        divides(d, d * k),
        divides(d, k * d),
{
    if d > 0 {
        lemma_mod_multiples_basic(k as int, d as int);
        assert(d * k == k * d) by (nonlinear_arith);
    } else {
        assert(d * k == 0 && k * d == 0) by (nonlinear_arith)
            requires
                d == 0,
        ;
    }
}

/// Where `d` divides `n`, `n == d * (n / d)`.
pub proof fn lemma_divides_quotient(d: nat, n: nat)
    requires
        divides(d, n),
    ensures
        n == d * (n / d),
{
    if d > 0 {
        lemma_fundamental_div_mod(n as int, d as int);
    }
}

/// Divisibility is transitive.
pub proof fn lemma_divides_trans(a: nat, b: nat, c: nat)
    requires
        divides(a, b),
        divides(b, c),
    ensures
        divides(a, c),
{
    lemma_divides_quotient(a, b);
    lemma_divides_quotient(b, c);
    let k = b / a;
    let m = c / b;
    assert(c == a * (k * m)) by (nonlinear_arith)
        requires
            b == a * k,
            c == b * m,
    ;
    lemma_divides_mul(a, k * m);
}

/// A common divisor of `x` and `y` divides `x * k + y`, and one of `x` and
/// `x * k + y` divides `y`.
pub proof fn lemma_divides_linear(d: nat, x: nat, y: nat, k: nat)
    requires
        divides(d, x),
    ensures
        divides(d, y) ==> divides(d, x * k + y),
        divides(d, x * k + y) ==> divides(d, y),
{
    lemma_divides_quotient(d, x);
    if d > 0 {
        let x1 = x / d;
        assert(x * k == d * (x1 * k)) by (nonlinear_arith)
            requires
                x == d * x1,
        ;
        lemma_mod_multiples_vanish((x1 * k) as int, y as int, d as int);
    } else {
        assert(x * k == 0) by (nonlinear_arith)
            requires
                x == 0,
        ;
    }
}

/// Divisibility between positive numbers bounds the divisor.
pub proof fn lemma_divides_le(d: nat, n: nat)
    requires
        divides(d, n),
        n > 0,
    ensures
        d <= n,
{
    lemma_divides_quotient(d, n);
    let k = n / d;
    assert(d <= n) by (nonlinear_arith)
        requires
            n == d * k,
            n > 0,
    ;
}

/// Two numbers that divide each other are equal.
pub proof fn lemma_divides_antisym(a: nat, b: nat)
    requires
        divides(a, b),
        divides(b, a),
    ensures
        a == b,
{
    if a > 0 && b > 0 {
        lemma_divides_le(a, b);
        lemma_divides_le(b, a);
    }
}

/// The greatest common divisor divides both operands, and every common
/// divisor divides it.
pub proof fn lemma_gcd_divides(a: nat, b: nat)
    ensures
        divides(gcd_spec(a, b), a),
        divides(gcd_spec(a, b), b),
        forall|d: nat| divides(d, a) && divides(d, b) ==> #[trigger] divides(d, gcd_spec(a, b)),
    decreases b,
{
    if b == 0 {
        lemma_divides_mul(a, 0);
        assert(divides(a, a)) by {
            lemma_divides_mul(a, 1);
        }
    } else {
        let r = a % b;
        let q = a / b;
        lemma_fundamental_div_mod(a as int, b as int);
        assert(a == b * q + r);
        assert(b * q == q * b) by (nonlinear_arith);
        lemma_gcd_divides(b, r);
        let g = gcd_spec(b, r);
        lemma_divides_linear(g, b, r, q);
        assert forall|d: nat| divides(d, a) && divides(d, b) implies #[trigger] divides(d, gcd_spec(a, b)) by {
            lemma_divides_linear(d, b, r, q);
        }
    }
}

/// The greatest common divisor is zero exactly when both operands are.
pub proof fn lemma_gcd_zero(a: nat, b: nat)
    ensures
        (gcd_spec(a, b) == 0) == (a == 0 && b == 0),
    decreases b,
{
    if b > 0 {
        lemma_gcd_zero(b, a % b);
    }
}

/// Bezout's identity: some integer combination of `a` and `b` equals their
/// greatest common divisor.
pub proof fn lemma_bezout(a: nat, b: nat) -> (xy: (int, int))
    ensures
        a * xy.0 + b * xy.1 == gcd_spec(a, b),
    decreases b,
{
    if b == 0 {
        (1, 0)
    } else {
        let q = a / b;
        let r = a % b;
        lemma_fundamental_div_mod(a as int, b as int);
        let (x, y) = lemma_bezout(b, r);
        assert(a * y + b * (x - q * y) == b * x + r * y) by (nonlinear_arith)
            requires
                a == b * q + r,
        ;
        (y, x - q * y)
    }
}

/// A divisor of a product that shares no factor with one operand divides
/// the other.
pub proof fn lemma_coprime_divides(x: nat, y: nat, z: nat)
    requires
        gcd_spec(x, z) == 1,
        divides(x, y * z),
    ensures
        divides(x, y),
{
    if x == 0 {
        assert(gcd_spec(0, z) == z) by {
            lemma_gcd_zero_left(z);
        }
        assert(y * 1 == y);
    } else {
        let (u, v) = lemma_bezout(x, z);
        lemma_divides_quotient(x, y * z);
        let k = (y * z) / x;
        let w = y * u + k * v;
        assert(y == x * w) by (nonlinear_arith)
            requires
                x * u + z * v == 1,
                y * z == x * k,
                w == y * u + k * v,
        ;
        lemma_mod_multiples_basic(w, x as int);
        assert(w * x == x * w) by (nonlinear_arith);
    }
}

/// `gcd(0, z) == z`.
pub proof fn lemma_gcd_zero_left(z: nat)
    ensures
        gcd_spec(0, z) == z,
{
    if z > 0 {
        assert(0nat % z == 0) by {
            vstd::arithmetic::div_mod::lemma_small_mod(0, z);
        }
        assert(gcd_spec(0, z) == gcd_spec(z, 0));
    }
}

/// Scaling both operands scales their greatest common divisor.
pub proof fn lemma_gcd_scale(k: nat, x: nat, y: nat)
    ensures
        gcd_spec(k * x, k * y) == k * gcd_spec(x, y),
    decreases y,
{
    if y == 0 {
        assert(k * 0 == 0) by (nonlinear_arith);
    } else if k == 0 {
        assert(k * x == 0 && k * y == 0 && k * gcd_spec(x, y) == 0) by (nonlinear_arith)
            requires
                k == 0,
        ;
    } else {
        let q = x / y;
        let r = x % y;
        lemma_fundamental_div_mod(x as int, y as int);
        assert(k * x == q * (k * y) + k * r) by (nonlinear_arith)
            requires
                x == y * q + r,
        ;
        assert(0 <= k * r < k * y) by (nonlinear_arith)
            requires
                0 <= r < y,
                k > 0,
        ;
        assert(k * y > 0) by (nonlinear_arith)
            requires
                k > 0,
                y > 0,
        ;
        vstd::arithmetic::div_mod::lemma_fundamental_div_mod_converse(
            (k * x) as int,
            (k * y) as int,
            q as int,
            (k * r) as int,
        );
        lemma_gcd_scale(k, y, r);
    }
}

/// The least common multiple of two positive integers is a common multiple
/// of them and divides every common multiple.
pub proof fn lemma_lcm_least(a: nat, b: nat, m: nat)
    requires
        a > 0,
        b > 0,
    ensures
        lcm_spec(a, b) > 0,
        divides(a, lcm_spec(a, b)),
        divides(b, lcm_spec(a, b)),
        divides(a, m) && divides(b, m) ==> divides(lcm_spec(a, b), m),
{
    let g = gcd_spec(a, b);
    lemma_gcd_divides(a, b);
    lemma_gcd_zero(a, b);
    lemma_divides_quotient(g, a);
    lemma_divides_quotient(g, b);
    let a1 = a / g;
    let b1 = b / g;
    assert(a1 > 0 && b1 > 0) by (nonlinear_arith)
        requires
            a == g * a1,
            b == g * b1,
            a > 0,
            b > 0,
    ;
    // lcm == a * b1 == b * a1
    let l = a * b1;
    assert(a * b == g * l) by (nonlinear_arith)
        requires
            b == g * b1,
            l == a * b1,
    ;
    assert((a * b) / g == l) by {
        vstd::arithmetic::div_mod::lemma_div_multiples_vanish(l as int, g as int);
    }
    assert(l == b * a1) by (nonlinear_arith)
        requires
            a == g * a1,
            b == g * b1,
            l == a * b1,
    ;
    assert(l > 0) by (nonlinear_arith)
        requires
            l == a * b1,
            a > 0,
            b1 > 0,
    ;
    lemma_divides_mul(a, b1);
    lemma_divides_mul(b, a1);
    // a1 and b1 share no factor.
    lemma_gcd_scale(g, a1, b1);
    assert(g * gcd_spec(a1, b1) == g * 1);
    assert(gcd_spec(a1, b1) == 1) by (nonlinear_arith)
        requires
            g * gcd_spec(a1, b1) == g * 1,
            g > 0,
    ;
    if divides(a, m) && divides(b, m) {
        lemma_divides_quotient(a, m);
        lemma_divides_quotient(b, m);
        let u = m / a;
        let w = m / b;
        assert(b1 * w == a1 * u) by (nonlinear_arith)
            requires
                m == a * u,
                m == b * w,
                a == g * a1,
                b == g * b1,
                g > 0,
        ;
        lemma_divides_mul(b1, w);
        assert(divides(b1, u * a1)) by {
            assert(u * a1 == a1 * u) by (nonlinear_arith);
        }
        lemma_gcd_commutative(a1, b1);
        lemma_coprime_divides(b1, u, a1);
        lemma_divides_quotient(b1, u);
        let v = u / b1;
        assert(m == l * v) by (nonlinear_arith)
            requires
                m == a * u,
                u == b1 * v,
                l == a * b1,
        ;
        lemma_divides_mul(l, v);
    }
}

/// The greatest common divisor does not depend on the order of its operands.
pub proof fn lemma_gcd_commutative(a: nat, b: nat)
    ensures
        gcd_spec(a, b) == gcd_spec(b, a),
{
    lemma_gcd_divides(a, b);
    lemma_gcd_divides(b, a);
    lemma_divides_antisym(gcd_spec(a, b), gcd_spec(b, a));
}

proof fn lemma_sqrt_step(s: int, g: int)
    requires
        g >= 1,
        s >= 0,
        (g + 1) * (g + 1) > s,
    ensures
        ((g + s / g) / 2 + 1) * ((g + s / g) / 2 + 1) > s,
        g * g > s ==> (g + s / g) / 2 < g,
        g + s / g <= u128::MAX || s > u128::MAX || g > 0x7fff_ffff_ffff_ffff_ffff_ffff_ffff_ffff,
{
    let q = s / g;
    let u = (g + q) / 2;
    assert(s == g * q + s % g) by (nonlinear_arith)
        requires
            g >= 1,
            q == s / g,
    ;
    assert(0 <= s % g < g) by (nonlinear_arith)
        requires
            g >= 1,
    ;
    assert(q >= 0) by (nonlinear_arith)
        requires
            g >= 1,
            s >= 0,
            q == s / g,
    ;
    assert(s < g * (q + 1)) by (nonlinear_arith)
        requires
            s == g * q + s % g,
            s % g < g,
    ;
    assert((u + 1) * (u + 1) > s) by (nonlinear_arith)
        requires
            2 * (u + 1) >= g + q + 1,
            u >= 0,
            s < g * (q + 1),
            g >= 1,
            q >= 0,
    {
        assert(4 * (u + 1) * (u + 1) >= (g + q + 1) * (g + q + 1));
        assert((g + q + 1) * (g + q + 1) - 4 * g * (q + 1) == (g - q - 1) * (g - q - 1));
    }
    if g * g > s {
        assert(q < g) by (nonlinear_arith)
            requires
                g * g > s,
                s == g * q + s % g,
                s % g >= 0,
                g >= 1,
        ;
    }
    if s <= u128::MAX && g <= 0x7fff_ffff_ffff_ffff_ffff_ffff_ffff_ffff {
        if g >= 0x1_0000_0000_0000_0000 {
            assert(q <= 0x1_0000_0000_0000_0000) by (nonlinear_arith)
                requires
                    g >= 0x1_0000_0000_0000_0000,
                    s == g * q + s % g,
                    s % g >= 0,
                    s <= u128::MAX,
                    q >= 0,
            ;
        } else {
            assert(q <= g + 2) by (nonlinear_arith)
                requires
                    s < (g + 1) * (g + 1),
                    s == g * q + s % g,
                    s % g >= 0,
                    g >= 1,
            ;
        }
    }
}

/// Floor of the square root of `s`, by Newton's iteration.
pub fn u128_sqrt(s: u128) -> (r: u128)
    ensures
        r * r <= s,
        s < (r + 1) * (r + 1),
{
    let mut g: u128 = s / 2;
    if g == 0 {
        assert(s < (s + 1) * (s + 1)) by (nonlinear_arith)
            requires
                s <= 1,
        ;
        return s;
    }
    assert((g + 1) * (g + 1) > s) by (nonlinear_arith)
        requires
            g == s / 2,
            g >= 1,
    ;
    proof {
        lemma_sqrt_step(s as int, g as int);
    }
    let mut u: u128 = (g + s / g) / 2;
    while u < g
        invariant
            s >= 2,
            g >= 1,
            g <= s / 2,
            (g + 1) * (g + 1) > s,
            u == (g + s / g) / 2,
        decreases g,
    {
        proof {
            lemma_sqrt_step(s as int, g as int);
        }
        g = u;
        assert(g >= 1) by (nonlinear_arith)
            requires
                (g + 1) * (g + 1) > s,
                s >= 2,
        ;
        proof {
            lemma_sqrt_step(s as int, g as int);
        }
        u = (g + s / g) / 2;
    }
    proof {
        lemma_sqrt_step(s as int, g as int);
    }
    g
}

/// Greatest common divisor of two integers by Euclid's algorithm;
/// `u128_gcd(0, 0) == 0`.
pub fn u128_gcd(this: u128, that: u128) -> (r: u128)
    ensures
        r == gcd_spec(this as nat, that as nat),
        divides(r as nat, this as nat),
        divides(r as nat, that as nat),
        forall|d: nat| divides(d, this as nat) && divides(d, that as nat) ==> #[trigger] divides(d, r as nat),
        r == 0 <==> (this == 0 && that == 0),
{
    let mut a: u128 = this;
    let mut b: u128 = that;
    while b > 0
        invariant
            gcd_spec(a as nat, b as nat) == gcd_spec(this as nat, that as nat),
        decreases b,
    {
        let c = b;
        b = a % b;
        a = c;
    }
    proof {
        lemma_gcd_divides(this as nat, that as nat);
        lemma_gcd_zero(this as nat, that as nat);
    }
    a
}

/// Least common multiple of two integers, computed as the product divided by
/// the greatest common divisor; zero when both are zero. The product must fit.
pub fn u128_lcm(this: u128, that: u128) -> (r: u128)
    requires
        this * that <= u128::MAX,
    ensures
        r == lcm_spec(this as nat, that as nat),
        divides(this as nat, r as nat),
        divides(that as nat, r as nat),
        forall|m: nat|
            divides(this as nat, m) && divides(that as nat, m) ==> #[trigger] divides(r as nat, m),
{
    if this == 0 && that == 0 {
        return 0;
    }
    let gcd = u128_gcd(this, that);
    assert(this * that >= 0) by (nonlinear_arith);
    let r = this * that / gcd;
    proof {
        if this > 0 && that > 0 {
            assert forall|m: nat|
                divides(this as nat, m) && divides(that as nat, m) implies #[trigger] divides(
                r as nat,
                m,
            ) by {
                lemma_lcm_least(this as nat, that as nat, m);
            }
            lemma_lcm_least(this as nat, that as nat, 0);
        } else {
            // One operand is zero, the other is not: the multiple is zero.
            assert(this * that == 0) by (nonlinear_arith)
                requires
                    this == 0 || that == 0,
            ;
            assert(r == 0);
            lemma_divides_mul(this as nat, 0);
            lemma_divides_mul(that as nat, 0);
            assert forall|m: nat|
                divides(this as nat, m) && divides(that as nat, m) implies #[trigger] divides(
                r as nat,
                m,
            ) by {}
        }
    }
    r
}

} // verus!
