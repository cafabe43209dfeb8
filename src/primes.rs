//! Prime divisors, Euclid's lemma, and what they say about the factors of a
//! decomposition.
use vstd::arithmetic::power::{lemma_pow_adds, lemma_pow_positive, pow};
use vstd::prelude::*;

use crate::arith::{
    divides, gcd_spec, lemma_coprime_divides, lemma_divides_le, lemma_divides_mul,
    lemma_divides_quotient, lemma_divides_trans, lemma_gcd_divides, lemma_gcd_zero,
};
use crate::factors::{
    exponent_of, factor_value, is_factor_seq, is_prime_spec, lemma_exponent_absent,
    lemma_exponent_witness, lemma_product_prefix, product, IntFactor,
};

verus! {

/// Every integer of at least two has a prime divisor.
pub proof fn lemma_prime_divisor(n: nat) -> (p: nat)
    requires
        n >= 2,
    ensures
        is_prime_spec(p),
        divides(p, n),
    decreases n,
{
    if is_prime_spec(n) {
        lemma_divides_mul(n, 1);
        assert(n * 1 == n);
        n
    } else {
        let d = choose|d: nat| 2 <= d < n && #[trigger] (n % d) == 0;
        let p = lemma_prime_divisor(d);
        lemma_divides_trans(p, d, n);
        p
    }
}

/// A prime that divides a prime is that prime.
pub proof fn lemma_prime_divides_prime(q: nat, p: nat)
    requires
        is_prime_spec(q),
        is_prime_spec(p),
        divides(q, p),
    ensures
        q == p,
{
    lemma_divides_le(q, p);
    if q < p {
        assert(p % q == 0);
    }
}

/// Euclid's lemma: a prime that divides a product divides one of its
/// operands.
pub proof fn lemma_euclid(p: nat, x: nat, y: nat)
    requires
        is_prime_spec(p),
        divides(p, x * y),
    ensures
        divides(p, x) || divides(p, y),
{
    if !divides(p, x) {
        let g = gcd_spec(p, x);
        lemma_gcd_divides(p, x);
        lemma_gcd_zero(p, x);
        lemma_divides_le(g, p);
        if 2 <= g && g < p {
            assert(p % g == 0);
        }
        assert(g == 1);
        assert(y * x == x * y) by (nonlinear_arith);
        lemma_coprime_divides(p, y, x);
    }
}

/// A prime that divides a power of `b` divides `b`.
pub proof fn lemma_prime_divides_power(q: nat, b: nat, e: nat)
    requires
        is_prime_spec(q),
        divides(q, pow(b as int, e) as nat),
        pow(b as int, e) >= 0,
    ensures
        divides(q, b),
    decreases e,
{
    reveal(pow);
    if e == 0 {
        lemma_divides_le(q, 1);
    } else {
        let w = pow(b as int, (e - 1) as nat);
        if b == 0 {
            assert(divides(q, 0nat)) by {
                lemma_divides_mul(q, 0);
            }
        } else {
            lemma_pow_positive(b as int, (e - 1) as nat);
            lemma_euclid(q, b, w as nat);
            if !divides(q, b) {
                lemma_prime_divides_power(q, b, (e - 1) as nat);
            }
        }
    }
}

/// Multiplying both sides by a positive number keeps divisibility, both
/// ways.
pub proof fn lemma_divides_scale(c: nat, x: nat, y: nat)
    requires
        c > 0,
    ensures
        divides(x, y) == divides(c * x, c * y),
{
    if divides(x, y) {
        lemma_divides_quotient(x, y);
        let k = y / x;
        assert(c * y == (c * x) * k) by (nonlinear_arith)
            requires
                y == x * k,
        ;
        lemma_divides_mul(c * x, k);
    }
    if divides(c * x, c * y) {
        lemma_divides_quotient(c * x, c * y);
        let k = (c * y) / (c * x);
        assert(y == x * k) by (nonlinear_arith)
            requires
                c * y == (c * x) * k,
                c > 0,
        ;
        lemma_divides_mul(x, k);
    }
}

/// A factor's value divides the product of a decomposition.
pub proof fn lemma_factor_divides(s: Seq<IntFactor>, k: int)
    requires
        is_factor_seq(s),
        0 <= k < s.len(),
    ensures
        divides(factor_value(s[k]) as nat, product(s) as nat),
    decreases s.len(),
{
    let t = s.drop_last();
    assert(is_factor_seq(t));
    lemma_product_prefix(t, 0);
    lemma_pow_positive(s.last().integer as int, s.last().exponent as nat);
    let pt = product(t) as nat;
    let fl = factor_value(s.last()) as nat;
    assert(product(s) == pt * fl);
    if k == s.len() - 1 {
        lemma_divides_mul(fl, pt);
        assert(fl * pt == pt * fl) by (nonlinear_arith);
    } else {
        lemma_factor_divides(t, k);
        lemma_pow_positive(s[k].integer as int, s[k].exponent as nat);
        lemma_divides_mul(pt, fl);
        lemma_divides_trans(factor_value(s[k]) as nat, pt, pt * fl);
    }
}

/// A prime that divides the product of a decomposition is one of its bases.
pub proof fn lemma_prime_in_product(q: nat, s: Seq<IntFactor>)
    requires
        is_prime_spec(q),
        is_factor_seq(s),
        divides(q, product(s) as nat),
    ensures
        exponent_of(s, q) >= 1,
    decreases s.len(),
{
    if s.len() == 0 {
        lemma_divides_le(q, 1);
    } else {
        let t = s.drop_last();
        assert(is_factor_seq(t));
        lemma_product_prefix(t, 0);
        let p = s.last().integer as nat;
        let e = s.last().exponent as nat;
        lemma_pow_positive(p as int, e);
        assert(product(s) == product(t) * pow(p as int, e));
        lemma_euclid(q, product(t) as nat, pow(p as int, e) as nat);
        if divides(q, pow(p as int, e) as nat) {
            lemma_prime_divides_power(q, p, e);
            lemma_prime_divides_prime(q, p);
        } else {
            lemma_prime_in_product(q, t);
            let k = lemma_exponent_witness(t, q);
            assert(t[k].integer < s.last().integer);
        }
    }
}

/// A power of a prime that divides `x * z`, where the prime does not divide
/// `z`, divides `x`.
pub proof fn lemma_cancel_prime_power(q: nat, k: nat, x: nat, z: nat)
    requires
        is_prime_spec(q),
        !divides(q, z),
        divides(pow(q as int, k) as nat, x * z),
    ensures
        divides(pow(q as int, k) as nat, x),
    decreases k,
{
    reveal(pow);
    if k == 0 {
        lemma_divides_mul(1, x);
        assert(1 * x == x);
    } else {
        let w = pow(q as int, (k - 1) as nat);
        lemma_pow_positive(q as int, (k - 1) as nat);
        lemma_divides_mul(q, w as nat);
        lemma_divides_trans(q, pow(q as int, k) as nat, x * z);
        lemma_euclid(q, x, z);
        lemma_divides_quotient(q, x);
        let x1 = x / q;
        assert(x * z == q * (x1 * z)) by (nonlinear_arith)
            requires
                x == q * x1,
        ;
        lemma_divides_scale(q, w as nat, x1 * z);
        lemma_cancel_prime_power(q, (k - 1) as nat, x1, z);
        lemma_divides_scale(q, w as nat, x1);
    }
}

/// The exponent of a prime in a decomposition bounds every power of it that
/// divides the product.
pub proof fn lemma_valuation_bound(q: nat, k: nat, s: Seq<IntFactor>)
    requires
        is_prime_spec(q),
        is_factor_seq(s),
        divides(pow(q as int, k) as nat, product(s) as nat),
    ensures
        k <= exponent_of(s, q),
    decreases s.len(),
{
    lemma_pow_positive(q as int, k);
    if k > 0 {
        reveal(pow);
        let w = pow(q as int, (k - 1) as nat);
        lemma_pow_positive(q as int, (k - 1) as nat);
        lemma_divides_mul(q, w as nat);
        lemma_divides_trans(q, pow(q as int, k) as nat, product(s) as nat);
        lemma_prime_in_product(q, s);
        let t = s.drop_last();
        assert(is_factor_seq(t));
        lemma_product_prefix(t, 0);
        let p = s.last().integer as nat;
        let e = s.last().exponent as nat;
        let pe = pow(p as int, e);
        lemma_pow_positive(p as int, e);
        assert(product(s) == product(t) * pe);
        if p != q {
            if divides(q, pe as nat) {
                lemma_prime_divides_power(q, p, e);
                lemma_prime_divides_prime(q, p);
            }
            lemma_cancel_prime_power(q, k, product(t) as nat, pe as nat);
            lemma_valuation_bound(q, k, t);
        } else if k > e {
            // q^k = q^(k-e) * q^e divides product(t) * q^e.
            lemma_pow_adds(q as int, (k - e) as nat, e);
            let u = pow(q as int, (k - e) as nat);
            lemma_pow_positive(q as int, (k - e) as nat);
            assert(pow(q as int, k) == pe * u && product(s) == pe * product(t)) by (nonlinear_arith)
                requires
                    pow(q as int, k) == u * pe,
                    product(s) == product(t) * pe,
            ;
            lemma_divides_scale(pe as nat, u as nat, product(t) as nat);
            reveal(pow);
            let u1 = pow(q as int, (k - e - 1) as nat);
            lemma_pow_positive(q as int, (k - e - 1) as nat);
            assert(u == q * u1);
            lemma_divides_mul(q, u1 as nat);
            lemma_divides_trans(q, u as nat, product(t) as nat);
            lemma_prime_in_product(q, t);
            let j = lemma_exponent_witness(t, q);
            assert(t[j].integer < s.last().integer);
        }
    }
}

/// Two divisors of `a` that share no factor divide it together.
pub proof fn lemma_coprime_mul_divides(x: nat, y: nat, a: nat)
    requires
        gcd_spec(y, x) == 1,
        divides(x, a),
        divides(y, a),
    ensures
        divides(x * y, a),
{
    lemma_divides_quotient(x, a);
    let u = a / x;
    assert(a == u * x) by (nonlinear_arith)
        requires
            a == x * u,
    ;
    lemma_coprime_divides(y, u, x);
    lemma_divides_quotient(y, u);
    let v = u / y;
    assert(a == (x * y) * v) by (nonlinear_arith)
        requires
            a == x * u,
            u == y * v,
    ;
    lemma_divides_mul(x * y, v);
}

/// A decomposition whose exponents are all at most those of another divides
/// it.
pub proof fn lemma_sub_divides(r: Seq<IntFactor>, s: Seq<IntFactor>)
    requires
        is_factor_seq(r),
        is_factor_seq(s),
        forall|p: nat| #[trigger] exponent_of(r, p) <= exponent_of(s, p),
    ensures
        divides(product(r) as nat, product(s) as nat),
    decreases r.len(),
{
    lemma_product_prefix(s, 0);
    if r.len() == 0 {
        lemma_divides_mul(1, product(s) as nat);
        assert(1 * (product(s) as nat) == product(s));
    } else {
        let r1 = r.drop_last();
        assert(is_factor_seq(r1));
        let q = r.last().integer as nat;
        let e = r.last().exponent as nat;
        assert forall|k: int| 0 <= k < r1.len() implies #[trigger] r1[k].integer != q by {
            assert(r[k].integer < r[r.len() - 1].integer);
        }
        lemma_exponent_absent(r1, q);
        assert forall|p: nat| #[trigger] exponent_of(r1, p) <= exponent_of(s, p) by {
            assert(exponent_of(r, p) <= exponent_of(s, p));
        }
        lemma_sub_divides(r1, s);
        lemma_product_prefix(r1, 0);
        // q^e divides q^(exponent in s), a factor of s.
        assert(exponent_of(r, q) <= exponent_of(s, q));
        let k = lemma_exponent_witness(s, q);
        let es = s[k].exponent as nat;
        lemma_factor_divides(s, k);
        lemma_pow_adds(q as int, e, (es - e) as nat);
        lemma_pow_positive(q as int, e);
        lemma_pow_positive(q as int, (es - e) as nat);
        lemma_divides_mul(pow(q as int, e) as nat, pow(q as int, (es - e) as nat) as nat);
        lemma_divides_trans(pow(q as int, e) as nat, factor_value(s[k]) as nat, product(s) as nat);
        // q^e shares no factor with product(r1).
        let g = gcd_spec(factor_value(r.last()) as nat, product(r1) as nat);
        lemma_gcd_divides(factor_value(r.last()) as nat, product(r1) as nat);
        lemma_gcd_zero(factor_value(r.last()) as nat, product(r1) as nat);
        if g != 1 {
            let w = lemma_prime_divisor(g);
            lemma_divides_trans(w, g, factor_value(r.last()) as nat);
            lemma_divides_trans(w, g, product(r1) as nat);
            lemma_prime_divides_power(w, q, e);
            assert(is_prime_spec(q));
            lemma_prime_divides_prime(w, q);
            lemma_prime_in_product(w, r1);
        }
        lemma_coprime_mul_divides(
            product(r1) as nat,
            factor_value(r.last()) as nat,
            product(s) as nat,
        );
    }
}

} // verus!
