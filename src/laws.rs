//! Laws that relate the operations of the library to one another.
use vstd::arithmetic::power::{lemma_pow1, lemma_pow_positive, pow};
use vstd::prelude::*;

use crate::arith::{
    divides, gcd_spec, lcm_spec, lemma_divides_antisym, lemma_divides_mul, lemma_divides_quotient,
    lemma_divides_trans, lemma_gcd_commutative, lemma_gcd_divides, lemma_gcd_zero, lemma_lcm_least,
};
use crate::factors::{
    exponent_of, exponent_sum, is_factor_seq, is_factorization, is_prime_spec,
    lemma_exponent_witness, lemma_product_prefix, product, IntFactor,
};
use crate::primes::{
    lemma_divides_scale, lemma_factor_divides, lemma_prime_divisor, lemma_sub_divides,
    lemma_valuation_bound,
};

verus! {

/// Decomposing an integer of at least two and multiplying the factors back
/// gives the integer again.
pub proof fn lemma_round_trip(n: nat, s: Seq<IntFactor>)
    requires
        n >= 2,
        is_factorization(s, n),
    ensures
        product(s) == n,
{
}

/// A decomposition has exactly one prime, counted with multiplicity, exactly
/// when the integer is prime.
pub proof fn lemma_prime_iff_one_factor(n: nat, s: Seq<IntFactor>)
    requires
        is_factorization(s, n),
    ensures
        (exponent_sum(s) == 1) == is_prime_spec(n),
{
    if n >= 2 {
        let t = s.drop_last();
        assert(s.len() > 0);
        let q = s.last().integer as nat;
        let e = s.last().exponent as nat;
        assert(is_factor_seq(t));
        lemma_product_prefix(t, 0);
        lemma_pow_positive(q as int, e);
        assert(is_prime_spec(q));
        if exponent_sum(s) == 1 {
            if t.len() > 0 {
                lemma_product_prefix(t, 0);
                assert(exponent_sum(t) >= 1) by {
                    lemma_exponent_sum_pos(t);
                }
            }
            assert(t.len() == 0) by {
                if t.len() > 0 {
                    lemma_exponent_sum_pos(t);
                }
            }
            assert(e == 1);
            lemma_pow1(q as int);
            assert(product(s) == product(t) * q);
        } else {
            // The last prime divides n and is smaller than it.
            let rest = product(t) * pow(q as int, (e - 1) as nat);
            assert(pow(q as int, e) == q * pow(q as int, (e - 1) as nat)) by {
                vstd::arithmetic::power::lemma_pow_adds(q as int, 1, (e - 1) as nat);
                lemma_pow1(q as int);
            }
            assert(n == q * rest) by (nonlinear_arith)
                requires
                    n == product(t) * pow(q as int, e),
                    pow(q as int, e) == q * pow(q as int, (e - 1) as nat),
                    rest == product(t) * pow(q as int, (e - 1) as nat),
            ;
            lemma_pow_positive(q as int, (e - 1) as nat);
            if e >= 2 {
                crate::factors::lemma_pow_bound(q as int, (e - 1) as nat);
                vstd::arithmetic::power::lemma_pow_increases(2, 1, (e - 1) as nat);
                lemma_pow1(2);
            } else {
                lemma_exponent_sum_pos(t);
                vstd::arithmetic::power::lemma_pow_increases(2, 1, exponent_sum(t));
                lemma_pow1(2);
                vstd::arithmetic::power::lemma_pow0(q as int);
            }
            assert(rest >= 2) by (nonlinear_arith)
                requires
                    rest == product(t) * pow(q as int, (e - 1) as nat),
                    product(t) >= 1,
                    pow(q as int, (e - 1) as nat) >= 1,
                    product(t) >= 2 || pow(q as int, (e - 1) as nat) >= 2,
            ;
            assert(q < n) by (nonlinear_arith)
                requires
                    n == q * rest,
                    rest >= 2,
                    q >= 2,
            ;
            lemma_divides_mul(q, rest as nat);
            assert(n % q == 0);
        }
    }
}

/// A decomposition with a factor of exponent at least one counts at least
/// one prime when it is not empty, and one with several factors or a larger
/// exponent counts more than one.
proof fn lemma_exponent_sum_pos(s: Seq<IntFactor>)
    requires
        is_factor_seq(s),
    ensures
        s.len() > 0 ==> exponent_sum(s) >= 1,
        s.len() > 0 ==> exponent_sum(s) >= s.len(),
        s.len() > 0 ==> product(s) >= 2 || exponent_sum(s) == 0,
    decreases s.len(),
{
    if s.len() > 0 {
        let t = s.drop_last();
        assert(is_factor_seq(t));
        lemma_exponent_sum_pos(t);
        lemma_product_prefix(s, 0);
        vstd::arithmetic::power::lemma_pow_increases(2, 1, exponent_sum(s));
        lemma_pow1(2);
    }
}

/// The least common multiple does not depend on the order of its operands.
pub proof fn lemma_lcm_commutative(a: nat, b: nat)
    ensures
        lcm_spec(a, b) == lcm_spec(b, a),
{
    lemma_gcd_commutative(a, b);
    assert(a * b == b * a) by (nonlinear_arith);
}

/// An integer is its own greatest common divisor and least common multiple.
pub proof fn lemma_gcd_lcm_idempotent(a: nat)
    requires
        a > 0,
    ensures
        gcd_spec(a, a) == a,
        lcm_spec(a, a) == a,
{
    assert(a % a == 0) by {
        vstd::arithmetic::div_mod::lemma_mod_self_0(a as int);
    }
    assert(gcd_spec(a, a) == gcd_spec(a, 0));
    assert((a * a) / a == a) by {
        vstd::arithmetic::div_mod::lemma_div_multiples_vanish(a as int, a as int);
    }
}

/// `gcd(a, a * k) == a`: an integer is the greatest common divisor of itself
/// and any of its multiples.
proof fn lemma_gcd_of_multiple(a: nat, k: nat)
    requires
        a > 0,
    ensures
        gcd_spec(a, a * k) == a,
{
    lemma_gcd_divides(a, a * k);
    lemma_divides_mul(a, 1);
    assert(a * 1 == a);
    lemma_divides_mul(a, k);
    lemma_gcd_zero(a, a * k);
    lemma_divides_antisym(gcd_spec(a, a * k), a);
}

/// With `g = gcd(a, b)` and `a, b > 0`: `g > 0`, `g` divides both, and
/// `lcm(a, b) == a * (b / g)`.
proof fn lemma_lcm_shape(a: nat, b: nat)
    requires
        a > 0,
        b > 0,
    ensures
        gcd_spec(a, b) > 0,
        divides(gcd_spec(a, b), a),
        divides(gcd_spec(a, b), b),
        lcm_spec(a, b) == a * (b / gcd_spec(a, b)),
        gcd_spec(a, b) * lcm_spec(a, b) == a * b,
{
    let g = gcd_spec(a, b);
    lemma_gcd_divides(a, b);
    lemma_gcd_zero(a, b);
    lemma_divides_quotient(g, b);
    let k = b / g;
    assert(a * b == g * (a * k)) by (nonlinear_arith)
        requires
            b == g * k,
    ;
    assert((a * b) / g == a * k) by {
        vstd::arithmetic::div_mod::lemma_div_multiples_vanish((a * k) as int, g as int);
    }
}

/// Absorption: `gcd(a, lcm(a, b)) == a` and `lcm(a, gcd(a, b)) == a`.
pub proof fn lemma_absorption(a: nat, b: nat)
    requires
        a > 0,
        b > 0,
    ensures
        gcd_spec(a, lcm_spec(a, b)) == a,
        lcm_spec(a, gcd_spec(a, b)) == a,
{
    let g = gcd_spec(a, b);
    lemma_lcm_shape(a, b);
    lemma_gcd_of_multiple(a, b / g);
    lemma_divides_quotient(g, a);
    let m = a / g;
    assert(a == g * m);
    assert(m > 0) by (nonlinear_arith)
        requires
            a == g * m,
            a > 0,
    ;
    assert(a == m * g) by (nonlinear_arith)
        requires
            a == g * m,
    ;
    lemma_gcd_of_multiple(g, m);
    lemma_gcd_commutative(a, g);
    assert(gcd_spec(a, g) == g);
    lemma_lcm_shape(a, g);
    lemma_gcd_lcm_idempotent(g);
    assert(g / g == 1) by {
        vstd::arithmetic::div_mod::lemma_div_multiples_vanish(1, g as int);
    }
}

/// Associativity of the greatest common divisor.
pub proof fn lemma_gcd_associative(a: nat, b: nat, c: nat)
    ensures
        gcd_spec(a, gcd_spec(b, c)) == gcd_spec(gcd_spec(a, b), c),
{
    let l = gcd_spec(a, gcd_spec(b, c));
    let r = gcd_spec(gcd_spec(a, b), c);
    lemma_gcd_divides(a, gcd_spec(b, c));
    lemma_gcd_divides(b, c);
    lemma_gcd_divides(gcd_spec(a, b), c);
    lemma_gcd_divides(a, b);
    lemma_divides_trans(l, gcd_spec(b, c), b);
    lemma_divides_trans(l, gcd_spec(b, c), c);
    lemma_divides_trans(r, gcd_spec(a, b), a);
    lemma_divides_trans(r, gcd_spec(a, b), b);
    assert(divides(l, gcd_spec(a, b)));
    assert(divides(r, gcd_spec(b, c)));
    lemma_divides_antisym(l, r);
}

/// The product of the greatest common divisor and the least common multiple
/// is the product of the operands.
pub proof fn lemma_gcd_times_lcm(a: nat, b: nat)
    requires
        a > 0,
        b > 0,
    ensures
        gcd_spec(a, b) * lcm_spec(a, b) == a * b,
{
    lemma_lcm_shape(a, b);
}

/// Associativity of the least common multiple.
pub proof fn lemma_lcm_associative(a: nat, b: nat, c: nat)
    requires
        a > 0,
        b > 0,
        c > 0,
    ensures
        lcm_spec(a, lcm_spec(b, c)) == lcm_spec(lcm_spec(a, b), c),
{
    let ab = lcm_spec(a, b);
    let bc = lcm_spec(b, c);
    lemma_lcm_least(a, b, 0);
    lemma_lcm_least(b, c, 0);
    let l1 = lcm_spec(a, bc);
    let l2 = lcm_spec(ab, c);
    lemma_lcm_least(a, bc, 0);
    lemma_lcm_least(ab, c, 0);
    // Each is a common multiple of a, b and c, so the other divides it.
    lemma_divides_trans(b, bc, l1);
    lemma_divides_trans(c, bc, l1);
    lemma_lcm_least(a, b, l1);
    lemma_lcm_least(ab, c, l1);
    lemma_divides_trans(a, ab, l2);
    lemma_divides_trans(b, ab, l2);
    lemma_lcm_least(b, c, l2);
    lemma_lcm_least(a, bc, l2);
    lemma_divides_antisym(l1, l2);
}

/// The decomposition built from two decompositions by keeping each common
/// base with the smaller exponent is worth the greatest common divisor of
/// the two integers, and it is empty exactly when that divisor is one.
pub proof fn lemma_gcd_factored_agrees(
    a: nat,
    b: nat,
    s: Seq<IntFactor>,
    t: Seq<IntFactor>,
    r: Seq<IntFactor>,
)
    requires
        a > 0,
        b > 0,
        is_factorization(s, a),
        is_factorization(t, b),
        is_factor_seq(r),
        forall|p: nat|
            #[trigger] exponent_of(r, p) == if exponent_of(s, p) <= exponent_of(t, p) {
                exponent_of(s, p)
            } else {
                exponent_of(t, p)
            },
    ensures
        product(r) == gcd_spec(a, b),
        (r.len() == 0) == (gcd_spec(a, b) == 1),
{
    assert(product(s) == a && product(t) == b) by {
        if a < 2 {
            assert(s.len() == 0);
        }
        if b < 2 {
            assert(t.len() == 0);
        }
    }
    assert forall|p: nat| #[trigger] exponent_of(r, p) <= exponent_of(s, p) by {
        assert(exponent_of(r, p) == exponent_of(r, p));
    }
    assert forall|p: nat| #[trigger] exponent_of(r, p) <= exponent_of(t, p) by {
        assert(exponent_of(r, p) == exponent_of(r, p));
    }
    lemma_sub_divides(r, s);
    lemma_sub_divides(r, t);
    lemma_product_prefix(r, 0);
    let g = product(r) as nat;
    let h = gcd_spec(a, b);
    lemma_gcd_divides(a, b);
    lemma_gcd_zero(a, b);
    assert(divides(g, h));
    lemma_divides_quotient(g, h);
    let h1 = h / g;
    assert(h1 >= 1) by (nonlinear_arith)
        requires
            h == g * h1,
            h > 0,
    ;
    if h1 >= 2 {
        let w = lemma_prime_divisor(h1);
        let m = exponent_of(r, w);
        // w^m divides g.
        if m > 0 {
            let k = lemma_exponent_witness(r, w);
            lemma_factor_divides(r, k);
        } else {
            reveal(pow);
            lemma_divides_mul(1, g);
            assert(1 * g == g);
        }
        lemma_pow_positive(w as int, m);
        let wm = pow(w as int, m) as nat;
        // w^(m+1) divides g * w, which divides h.
        vstd::arithmetic::power::lemma_pow_adds(w as int, m, 1);
        lemma_pow1(w as int);
        lemma_divides_scale(w, wm, g);
        assert(w * wm == pow(w as int, m + 1) && w * g == g * w) by (nonlinear_arith)
            requires
                pow(w as int, m + 1) == wm * w,
        ;
        assert(g > 0);
        lemma_divides_scale(g, w, h1);
        lemma_divides_trans(pow(w as int, m + 1) as nat, g * w, h);
        lemma_divides_trans(pow(w as int, m + 1) as nat, h, a);
        lemma_divides_trans(pow(w as int, m + 1) as nat, h, b);
        lemma_valuation_bound(w, m + 1, s);
        lemma_valuation_bound(w, m + 1, t);
        assert(false);
    }
    assert(h == g * 1);
    if r.len() > 0 {
        lemma_exponent_sum_pos(r);
    }
}

} // verus!
