//! Prime-power decompositions and the operations on them.
use vstd::arithmetic::power::{lemma_pow_adds, lemma_pow_increases, lemma_pow_positive, pow};
use vstd::arithmetic::power2::{lemma2_to64, lemma_pow2};
use vstd::prelude::*;

use crate::arith::{divides, lemma_divides_mul, lemma_divides_trans, u128_sqrt};
use crate::candidates::{
    is_pw210_candidate, is_wheel210_member, lemma_wheel30_gap, lemma_wheel30_step, wheel30, PrimeWheel30,
};

verus! {

/// `n` is prime: at least 2, and no integer from 2 up to `n - 1` divides it.
pub open spec fn is_prime_spec(n: nat) -> bool {
    n >= 2 && forall|d: nat| 2 <= d < n ==> #[trigger] (n % d) != 0
}

/// One factor `integer ^ exponent` of a decomposition.
#[derive(Clone, Copy, Debug, PartialEq, Eq, PartialOrd, Ord)]
pub struct IntFactor {
    pub integer: u128,
    pub exponent: u32,
}

impl IntFactor {
    /// The base repeated once per unit of the exponent.
    pub fn to_vec(&self) -> (r: Vec<u128>)
        ensures
            r@ == Seq::new(self.exponent as nat, |i: int| self.integer),
    {
        let mut r: Vec<u128> = Vec::new();
        let mut k: u32 = 0;
        while k < self.exponent
            invariant
                k <= self.exponent,
                r@ == Seq::new(k as nat, |i: int| self.integer),
            decreases self.exponent - k,
        {
            r.push(self.integer);
            k = k + 1;
            assert(r@ =~= Seq::new(k as nat, |i: int| self.integer));
        }
        r
    }
}

/// The value `integer ^ exponent` of one factor.
pub open spec fn factor_value(f: IntFactor) -> int {
    pow(f.integer as int, f.exponent as nat)
}

/// The product of the values of the factors.
pub open spec fn product(s: Seq<IntFactor>) -> int
    decreases s.len(),
{
    if s.len() == 0 {
        1
    } else {
        product(s.drop_last()) * factor_value(s.last())
    }
}

/// The sum of the exponents: how many primes, counted with multiplicity.
pub open spec fn exponent_sum(s: Seq<IntFactor>) -> nat
    decreases s.len(),
{
    if s.len() == 0 {
        0
    } else {
        exponent_sum(s.drop_last()) + s.last().exponent as nat
    }
}

/// The exponent of `p` in the decomposition, or zero where `p` is absent.
pub open spec fn exponent_of(s: Seq<IntFactor>, p: nat) -> nat
    decreases s.len(),
{
    if s.len() == 0 {
        0
    } else if s.last().integer == p {
        s.last().exponent as nat
    } else {
        exponent_of(s.drop_last(), p)
    }
}

/// Every prime with its multiplicity, in the order of the factors.
pub open spec fn expand(s: Seq<IntFactor>) -> Seq<u128>
    decreases s.len(),
{
    if s.len() == 0 {
        seq![]
    } else {
        expand(s.drop_last()) + Seq::new(s.last().exponent as nat, |i: int| s.last().integer)
    }
}

/// A decomposition proper: prime bases in strictly increasing order, each
/// with an exponent of at least one.
pub open spec fn is_factor_seq(s: Seq<IntFactor>) -> bool {
    &&& forall|i: int| 0 <= i < s.len() ==> is_prime_spec(#[trigger] s[i].integer as nat)
    &&& forall|i: int| 0 <= i < s.len() ==> #[trigger] s[i].exponent >= 1
    &&& forall|i: int, j: int| 0 <= i < j < s.len() ==> #[trigger] s[i].integer < #[trigger] s[j].integer
}

/// A power of a base of at least two is at least the same power of two, and
/// one that fits in 128 bits has an exponent below 128.
pub proof fn lemma_pow_bound(b: int, e: nat)
    requires
        b >= 2,
    ensures
        pow(b, e) >= pow(2, e),
        pow(b, e) <= u128::MAX ==> e < 128,
    decreases e,
{
    reveal(pow);
    if e > 0 {
        lemma_pow_bound(b, (e - 1) as nat);
        lemma_pow_positive(2, (e - 1) as nat);
        assert(b * pow(b, (e - 1) as nat) >= 2 * pow(2, (e - 1) as nat)) by (nonlinear_arith)
            requires
                b >= 2,
                pow(b, (e - 1) as nat) >= pow(2, (e - 1) as nat),
                pow(2, (e - 1) as nat) > 0,
        ;
    }
    if e >= 128 {
        lemma_pow_128();
        lemma_pow_increases(2, 128, e);
    }
}

/// Two to the 128th is beyond the 128-bit range.
proof fn lemma_pow_128()
    ensures
        pow(2, 128) > u128::MAX,
{
    lemma2_to64();
    lemma_pow2(64);
    lemma_pow_adds(2, 64, 64);
    assert(pow(2, 64) == 0x1_0000_0000_0000_0000);
    assert(pow(2, 128) == 0x1_0000_0000_0000_0000 * 0x1_0000_0000_0000_0000int);
}

/// A factor of a decomposition is worth at least one.
proof fn lemma_factor_value_pos(f: IntFactor)
    requires
        f.integer >= 2,
    ensures
        factor_value(f) >= 1,
        factor_value(f) >= pow(2, f.exponent as nat),
{
    lemma_pow_positive(f.integer as int, f.exponent as nat);
    lemma_pow_bound(f.integer as int, f.exponent as nat);
}

/// The product of a prefix of a decomposition is at most the whole product,
/// and the whole product is at least two to the sum of the exponents.
pub proof fn lemma_product_prefix(s: Seq<IntFactor>, i: int)
    requires
        is_factor_seq(s),
        0 <= i <= s.len(),
    ensures
        1 <= product(s.take(i)) <= product(s),
        product(s) >= pow(2, exponent_sum(s)),
        exponent_sum(s.take(i)) <= exponent_sum(s),
    decreases s.len(),
{
    if s.len() > 0 {
        let t = s.drop_last();
        assert(is_factor_seq(t));
        lemma_factor_value_pos(s.last());
        if i == s.len() {
            assert(s.take(i) =~= s);
            lemma_product_prefix(t, t.len() as int);
            assert(t.take(t.len() as int) =~= t);
        } else {
            lemma_product_prefix(t, i);
            assert(t.take(i) =~= s.take(i));
        }
        lemma_product_prefix(t, 0);
        lemma_pow_adds(2, exponent_sum(t), s.last().exponent as nat);
        lemma_pow_positive(2, exponent_sum(t));
        lemma_pow_positive(2, s.last().exponent as nat);
        assert(product(t) * factor_value(s.last()) >= product(t)) by (nonlinear_arith)
            requires
                product(t) >= 1,
                factor_value(s.last()) >= 1,
        ;
        assert(product(t) * factor_value(s.last()) >= pow(2, exponent_sum(t)) * pow(
            2,
            s.last().exponent as nat,
        )) by (nonlinear_arith)
            requires
                product(t) >= pow(2, exponent_sum(t)),
                factor_value(s.last()) >= pow(2, s.last().exponent as nat),
                pow(2, exponent_sum(t)) >= 0,
                pow(2, s.last().exponent as nat) >= 0,
        ;
        assert(product(s) == product(t) * factor_value(s.last()));
        assert(exponent_sum(s) == exponent_sum(t) + s.last().exponent as nat);
        assert(pow(2, exponent_sum(s)) == pow(2, exponent_sum(t)) * pow(2, s.last().exponent as nat));
        lemma_pow_positive(2, exponent_sum(t));
    } else {
        reveal(pow);
        assert(s.take(i) =~= s);
    }
}

/// The exponents of a decomposition whose product fits in 128 bits sum to
/// less than 128.
pub proof fn lemma_exponent_sum_bound(s: Seq<IntFactor>)
    requires
        is_factor_seq(s),
        product(s) <= u128::MAX,
    ensures
        exponent_sum(s) < 128,
{
    lemma_product_prefix(s, 0);
    if exponent_sum(s) >= 128 {
        lemma_pow_128();
        lemma_pow_increases(2, 128, exponent_sum(s));
    }
}

/// No integer from 2 up to `c - 1` divides `x`.
pub open spec fn no_divisor_below(x: nat, c: int) -> bool {
    forall|d: nat| 2 <= d < c ==> #[trigger] (x % d) != 0
}

/// A number of at least two with no divisor below `f` and smaller than
/// `f * f` is prime.
pub proof fn lemma_prime_below_square(x: nat, f: nat)
    requires
        x >= 2,
        no_divisor_below(x, f as int),
        x < f * f,
    ensures
        is_prime_spec(x),
{
    assert forall|d: nat| 2 <= d < x implies #[trigger] (x % d) != 0 by {
        if x % d == 0 {
            let q = x / d;
            assert(x == d * q) by {
                vstd::arithmetic::div_mod::lemma_fundamental_div_mod(x as int, d as int);
            }
            assert(q >= 2) by (nonlinear_arith)
                requires
                    x == d * q,
                    d < x,
                    d >= 2,
            ;
            if d >= f && q >= f {
                assert(d * q >= f * f) by (nonlinear_arith)
                    requires
                        d >= f,
                        q >= f,
                ;
            } else if d < f {
            } else {
                assert(x == q * d) by (nonlinear_arith)
                    requires
                        x == d * q,
                ;
                vstd::arithmetic::div_mod::lemma_mod_multiples_basic(d as int, q as int);
                assert(x % q == 0);
            }
        }
    }
}

/// What divides a divisor of `m` divides `m`: no divisor below `c` is kept
/// when passing to a divisor.
proof fn lemma_no_divisor_of_divisor(x: nat, m: nat, k: nat, c: int)
    requires
        m == x * k,
        no_divisor_below(m, c),
    ensures
        no_divisor_below(x, c),
{
    assert forall|d: nat| 2 <= d < c implies #[trigger] (x % d) != 0 by {
        if x % d == 0 {
            lemma_divides_mul(x, k);
            lemma_divides_trans(d, x, m);
        }
    }
}

/// Past a candidate that does not divide `x`, the next wheel candidate is
/// the new bound below which `x` has no divisor.
proof fn lemma_no_divisor_next(x: nat, k: nat)
    requires
        no_divisor_below(x, wheel30(k)),
        x % (wheel30(k) as nat) != 0,
    ensures
        no_divisor_below(x, wheel30(k + 1)),
{
    assert forall|d: nat| 2 <= d < wheel30(k + 1) implies #[trigger] (x % d) != 0 by {
        if d > wheel30(k) {
            lemma_wheel30_gap(k, d as int);
            if x % d == 0 {
                let p: nat = if d % 2 == 0 {
                    2
                } else if d % 3 == 0 {
                    3
                } else {
                    5
                };
                assert(divides(p, d));
                lemma_divides_trans(p, d, x);
            }
        }
    }
}

/// One more factor of the prefix changes the exponent of its own base only.
proof fn lemma_exponent_take(s: Seq<IntFactor>, i: int, p: nat)
    requires
        0 <= i < s.len(),
    ensures
        exponent_of(s.take(i + 1), p) == if s[i].integer == p {
            s[i].exponent as nat
        } else {
            exponent_of(s.take(i), p)
        },
{
    assert(s.take(i + 1).drop_last() =~= s.take(i));
}

/// A base that no factor has has exponent zero.
pub proof fn lemma_exponent_absent(s: Seq<IntFactor>, p: nat)
    requires
        forall|k: int| 0 <= k < s.len() ==> #[trigger] s[k].integer != p,
    ensures
        exponent_of(s, p) == 0,
    decreases s.len(),
{
    if s.len() > 0 {
        lemma_exponent_absent(s.drop_last(), p);
    }
}

/// A base with a positive exponent is the base of some factor.
pub proof fn lemma_exponent_witness(s: Seq<IntFactor>, p: nat) -> (a: int)
    requires
        exponent_of(s, p) > 0,
    ensures
        0 <= a < s.len(),
        s[a].integer == p,
        s[a].exponent == exponent_of(s, p),
    decreases s.len(),
{
    if s.last().integer == p {
        s.len() - 1
    } else {
        lemma_exponent_witness(s.drop_last(), p)
    }
}

/// The factors from index `i` on do not change the exponent of a base that
/// none of them has.
proof fn lemma_exponent_suffix(s: Seq<IntFactor>, i: int, p: nat)
    requires
        0 <= i <= s.len(),
        forall|k: int| i <= k < s.len() ==> #[trigger] s[k].integer != p,
    ensures
        exponent_of(s, p) == exponent_of(s.take(i), p),
    decreases s.len(),
{
    if s.len() == i {
        assert(s.take(i) =~= s);
    } else {
        lemma_exponent_suffix(s.drop_last(), i, p);
        assert(s.drop_last().take(i) =~= s.take(i));
    }
}

/// In a decomposition, the exponent of the base of a factor is that
/// factor's exponent.
pub proof fn lemma_exponent_present(s: Seq<IntFactor>, k: int)
    requires
        is_factor_seq(s),
        0 <= k < s.len(),
    ensures
        exponent_of(s, s[k].integer as nat) == s[k].exponent,
{
    let p = s[k].integer as nat;
    assert forall|m: int| k + 1 <= m < s.len() implies #[trigger] s[m].integer != p by {
        assert(s[k].integer < s[m].integer);
    }
    lemma_exponent_suffix(s, k + 1, p);
    lemma_exponent_take(s, k, p);
}

/// The prime-power decomposition of an integer.
#[derive(Debug, PartialEq, Eq, PartialOrd, Ord)]
pub struct PrimeFactors {
    factors: Vec<IntFactor>,
}

impl View for PrimeFactors {
    type V = Seq<IntFactor>;

    closed spec fn view(&self) -> Seq<IntFactor> {
        self.factors@
    }
}

impl PrimeFactors {
    /// The factors form a decomposition whose value fits in 128 bits.
    #[verifier::type_invariant]
    closed spec fn inv(self) -> bool {
        is_factor_seq(self.factors@) && product(self.factors@) <= u128::MAX
    }

    /// The integer that the decomposition stands for: the product of its
    /// factors (one for the empty decomposition).
    pub fn value(&self) -> (r: u128)
        ensures
            r == product(self@),
    {
        proof {
            use_type_invariant(self);
        }
        let mut acc: u128 = 1;
        let mut i: usize = 0;
        while i < self.factors.len()
            invariant
                is_factor_seq(self.factors@),
                product(self.factors@) <= u128::MAX,
                0 <= i <= self.factors@.len(),
                acc == product(self.factors@.take(i as int)),
            decreases self.factors@.len() - i,
        {
            let f = self.factors[i];
            proof {
                lemma_product_prefix(self.factors@, i + 1);
                assert(self.factors@.take(i + 1).drop_last() =~= self.factors@.take(i as int));
                lemma_pow_positive(f.integer as int, f.exponent as nat);
                lemma_product_prefix(self.factors@, i as int);
            }
            let mut j: u32 = 0;
            proof {
                reveal(pow);
            }
            while j < f.exponent
                invariant
                    f == self.factors@[i as int],
                    f.integer >= 2,
                    j <= f.exponent,
                    acc == product(self.factors@.take(i as int)) * pow(f.integer as int, j as nat),
                    product(self.factors@.take(i as int)) >= 1,
                    product(self.factors@.take(i as int)) * factor_value(f) <= u128::MAX,
                decreases f.exponent - j,
            {
                proof {
                    lemma_pow_increases(f.integer as int as nat, (j + 1) as nat, f.exponent as nat);
                    lemma_pow_positive(f.integer as int, (j + 1) as nat);
                    reveal(pow);
                    assert(pow(f.integer as int, (j + 1) as nat) == f.integer * pow(
                        f.integer as int,
                        j as nat,
                    ));
                    let p = product(self.factors@.take(i as int));
                    assert(p * pow(f.integer as int, (j + 1) as nat) <= p * factor_value(f))
                        by (nonlinear_arith)
                        requires
                            p >= 1,
                            pow(f.integer as int, (j + 1) as nat) <= factor_value(f),
                    ;
                    assert(p * pow(f.integer as int, (j + 1) as nat) == acc * f.integer)
                        by (nonlinear_arith)
                        requires
                            acc == p * pow(f.integer as int, j as nat),
                            pow(f.integer as int, (j + 1) as nat) == f.integer * pow(
                                f.integer as int,
                                j as nat,
                            ),
                    ;
                }
                acc = acc * f.integer;
                j = j + 1;
            }
            i = i + 1;
        }
        proof {
            assert(self.factors@.take(i as int) =~= self.factors@);
        }
        acc
    }

    /// The number of distinct primes.
    pub fn len(&self) -> (r: usize)
        ensures
            r == self@.len(),
    {
        self.factors.len()
    }

    /// The number of primes counted with multiplicity.
    pub fn count_factors(&self) -> (r: u32)
        ensures
            r == exponent_sum(self@),
    {
        proof {
            use_type_invariant(self);
            lemma_exponent_sum_bound(self@);
        }
        let mut sum: u32 = 0;
        let mut i: usize = 0;
        while i < self.factors.len()
            invariant
                is_factor_seq(self.factors@),
                exponent_sum(self.factors@) < 128,
                0 <= i <= self.factors@.len(),
                sum == exponent_sum(self.factors@.take(i as int)),
            decreases self.factors@.len() - i,
        {
            proof {
                lemma_product_prefix(self.factors@, i + 1);
                assert(self.factors@.take(i + 1).drop_last() =~= self.factors@.take(i as int));
            }
            sum = sum + self.factors[i].exponent;
            i = i + 1;
        }
        proof {
            assert(self.factors@.take(i as int) =~= self.factors@);
        }
        sum
    }

    /// No factors: the decomposition of zero and of one.
    pub fn is_empty(&self) -> (r: bool)
        ensures
            r == (self@.len() == 0),
    {
        self.factors.len() == 0
    }

    /// Exactly one prime, with exponent one.
    pub fn is_prime(&self) -> (r: bool)
        ensures
            r == (exponent_sum(self@) == 1),
    {
        self.count_factors() == 1
    }

    /// Every prime with its multiplicity, in increasing order.
    pub fn to_vec(&self) -> (r: Vec<u128>)
        ensures
            r@ == expand(self@),
    {
        let mut r: Vec<u128> = Vec::new();
        let mut i: usize = 0;
        while i < self.factors.len()
            invariant
                0 <= i <= self.factors@.len(),
                r@ == expand(self.factors@.take(i as int)),
            decreases self.factors@.len() - i,
        {
            let mut part = self.factors[i].to_vec();
            r.append(&mut part);
            proof {
                assert(self.factors@.take(i + 1).drop_last() =~= self.factors@.take(i as int));
            }
            i = i + 1;
        }
        proof {
            assert(self.factors@.take(i as int) =~= self.factors@);
        }
        r
    }

    /// A cursor over the factors, from the smallest base.
    pub fn iter(&self) -> (r: PrimeFactorsIter<'_>)
        ensures
            r.items() == self@,
            r.position() == 0,
    {
        PrimeFactorsIter { vec: &self.factors, ndx: 0 }
    }

    /// The factors themselves.
    pub fn to_factor_vec(&self) -> (r: &Vec<IntFactor>)
        ensures
            r@ == self@,
    {
        &self.factors
    }
    /// The decomposition of the greatest common divisor: the bases that both
    /// have, each with the smaller of its two exponents, found by one sorted
    /// merge of the two factor lists.
    pub fn gcd(&self, other: &PrimeFactors) -> (r: PrimeFactors)
        ensures
            is_factor_seq(r@),
            forall|p: nat|
                #[trigger] exponent_of(r@, p) == if exponent_of(self@, p) <= exponent_of(other@, p) {
                    exponent_of(self@, p)
                } else {
                    exponent_of(other@, p)
                },
            product(r@) <= product(self@),
    {
        proof {
            use_type_invariant(self);
            use_type_invariant(other);
        }
        let ghost a = self.factors@;
        let ghost b = other.factors@;
        let mut v: Vec<IntFactor> = Vec::new();
        let mut i: usize = 0;
        let mut j: usize = 0;
        proof {
            assert(product(v@) == 1);
            assert(a.take(0) =~= Seq::<IntFactor>::empty());
            assert(b.take(0) =~= Seq::<IntFactor>::empty());
        }
        while i < self.factors.len() && j < other.factors.len()
            invariant
                a == self.factors@,
                b == other.factors@,
                is_factor_seq(a),
                is_factor_seq(b),
                product(a) <= u128::MAX,
                0 <= i <= a.len(),
                0 <= j <= b.len(),
                is_factor_seq(v@),
                forall|k: int|
                    0 <= k < v@.len() ==> (i < a.len() ==> #[trigger] v@[k].integer < a[i as int].integer)
                        && (j < b.len() ==> v@[k].integer < b[j as int].integer),
                forall|k: int| 0 <= k < i ==> (j < b.len() ==> #[trigger] a[k].integer < b[j as int].integer),
                forall|k: int| 0 <= k < j ==> (i < a.len() ==> #[trigger] b[k].integer < a[i as int].integer),
                forall|p: nat|
                    #[trigger] exponent_of(v@, p) == if exponent_of(a.take(i as int), p) <= exponent_of(
                        b.take(j as int),
                        p,
                    ) {
                        exponent_of(a.take(i as int), p)
                    } else {
                        exponent_of(b.take(j as int), p)
                    },
                product(v@) <= product(a.take(i as int)),
            decreases a.len() + b.len() - i - j,
        {
            let s = self.factors[i];
            let o = other.factors[j];
            proof {
                lemma_product_prefix(a, i + 1);
                assert(a.take(i + 1).drop_last() =~= a.take(i as int));
                lemma_factor_value_pos(s);
                lemma_product_prefix(v@, 0);
            }
            if s.integer < o.integer {
                proof {
                    assert forall|p: nat| #[trigger] exponent_of(v@, p) == if exponent_of(a.take(i + 1), p)
                        <= exponent_of(b.take(j as int), p) {
                        exponent_of(a.take(i + 1), p)
                    } else {
                        exponent_of(b.take(j as int), p)
                    } by {
                        lemma_exponent_take(a, i as int, p);
                        if p == s.integer {
                            lemma_exponent_absent(b.take(j as int), p);
                            lemma_exponent_absent(v@, p);
                        }
                    }
                    assert(product(v@) <= product(a.take(i + 1))) by (nonlinear_arith)
                        requires
                            product(v@) <= product(a.take(i as int)),
                            product(a.take(i + 1)) == product(a.take(i as int)) * factor_value(s),
                            factor_value(s) >= 1,
                            product(a.take(i as int)) >= 1,
                    ;
                }
                i = i + 1;
            } else if s.integer > o.integer {
                proof {
                    assert forall|p: nat| #[trigger] exponent_of(v@, p) == if exponent_of(a.take(i as int), p)
                        <= exponent_of(b.take(j + 1), p) {
                        exponent_of(a.take(i as int), p)
                    } else {
                        exponent_of(b.take(j + 1), p)
                    } by {
                        lemma_exponent_take(b, j as int, p);
                        if p == o.integer {
                            lemma_exponent_absent(a.take(i as int), p);
                            lemma_exponent_absent(v@, p);
                        }
                    }
                }
                j = j + 1;
            } else {
                let e: u32 = if o.exponent < s.exponent {
                    o.exponent
                } else {
                    s.exponent
                };
                let fac = IntFactor { integer: s.integer, exponent: e };
                proof {
                    assert(v@.push(fac).drop_last() =~= v@);
                    assert forall|p: nat| #[trigger] exponent_of(v@.push(fac), p) == if exponent_of(
                        a.take(i + 1),
                        p,
                    ) <= exponent_of(b.take(j + 1), p) {
                        exponent_of(a.take(i + 1), p)
                    } else {
                        exponent_of(b.take(j + 1), p)
                    } by {
                        lemma_exponent_take(a, i as int, p);
                        lemma_exponent_take(b, j as int, p);
                        assert(exponent_of(v@.push(fac), p) == if p == s.integer {
                            e as nat
                        } else {
                            exponent_of(v@, p)
                        });
                    }
                    lemma_pow_increases(s.integer as nat, e as nat, s.exponent as nat);
                    lemma_pow_positive(s.integer as int, e as nat);
                    assert(product(v@.push(fac)) == product(v@) * factor_value(fac));
                    assert(product(v@) * factor_value(fac) <= product(a.take(i as int)) * factor_value(s))
                        by (nonlinear_arith)
                        requires
                            product(v@) <= product(a.take(i as int)),
                            product(v@) >= 1,
                            factor_value(fac) <= factor_value(s),
                            factor_value(fac) >= 1,
                    ;
                }
                v.push(fac);
                i = i + 1;
                j = j + 1;
            }
        }
        proof {
            assert forall|p: nat|
                #[trigger] exponent_of(v@, p) == if exponent_of(a, p) <= exponent_of(b, p) {
                    exponent_of(a, p)
                } else {
                    exponent_of(b, p)
                } by {
                if i == a.len() {
                    assert(a.take(i as int) =~= a);
                    if j < b.len() && exponent_of(a, p) > 0 {
                        let w = lemma_exponent_witness(a, p);
                        lemma_exponent_suffix(b, j as int, p);
                    }
                    if j == b.len() {
                        assert(b.take(j as int) =~= b);
                    }
                } else {
                    assert(b.take(j as int) =~= b);
                    if exponent_of(b, p) > 0 {
                        let w = lemma_exponent_witness(b, p);
                        lemma_exponent_suffix(a, i as int, p);
                    }
                }
            }
            lemma_product_prefix(a, i as int);
        }
        PrimeFactors { factors: v }
    }
}

/// Splits `n` into prime powers by trial division over the {2, 3, 5} wheel,
/// stopping at the square root of what remains. Zero and one have no
/// factors.
pub fn factorize(n: u128) -> (r: PrimeFactors)
    ensures
        is_factorization(r@, n as nat),
{
    let mut v: Vec<IntFactor> = Vec::new();
    if n < 2 {
        return PrimeFactors { factors: v };
    }
    let root = u128_sqrt(n);
    assert(root < 0x1_0000_0000_0000_0000) by (nonlinear_arith)
        requires
            root * root <= n,
            n <= u128::MAX,
    ;
    // A factor of n is at most its square root.
    let mut maxf: u128 = root + 1;
    let mut wheel = PrimeWheel30::new();
    let mut x: u128 = n;
    proof {
        assert(product(v@) == 1);
        lemma_wheel30_step(0);
    }
    loop
        invariant_except_break
            wheel.wf(),
            n >= 2,
            x >= 1,
            product(v@) * x == n,
            is_factor_seq(v@),
            forall|i: int| 0 <= i < v@.len() ==> #[trigger] v@[i].integer < wheel30(wheel.pos()),
            no_divisor_below(x as nat, wheel30(wheel.pos())),
            1 <= maxf <= 0x1_0000_0000_0000_0000,
            (maxf - 1) * (maxf - 1) <= x < maxf * maxf,
            wheel30(wheel.pos()) <= 0x1_0000_0000_0000_0006,
            wheel30(wheel.pos()) >= wheel.pos() + 2,
        ensures
            x >= 1,
            product(v@) * x == n,
            is_factor_seq(v@),
            x == 1 || (is_prime_spec(x as nat) && forall|i: int|
                0 <= i < v@.len() ==> #[trigger] v@[i].integer < x),
        decreases 0x1_0000_0000_0000_0010 - wheel.pos(),
    {
        let ghost k = wheel.pos();
        let f = match wheel.next() {
            Some(f) => f,
            None => {
                assert(false);
                break;
            },
        };
        if f >= maxf {
            proof {
                if x >= 2 {
                    assert(x < f * f) by (nonlinear_arith)
                        requires
                            x < maxf * maxf,
                            f >= maxf,
                            maxf >= 1,
                    ;
                    lemma_prime_below_square(x as nat, f as nat);
                    assert(x >= f) by {
                        if x < f {
                            vstd::arithmetic::div_mod::lemma_mod_self_0(x as int);
                        }
                    }
                }
            }
            break;
        }
        let ghost x0 = x;
        let mut c: u32 = 0;
        proof {
            reveal(pow);
            lemma_wheel30_step(k);
        }
        while x % f == 0
            invariant
                f >= 2,
                x >= 1,
                x0 == x * pow(f as int, c as nat),
                x0 <= u128::MAX,
            decreases x,
        {
            proof {
                let q = x / f;
                vstd::arithmetic::div_mod::lemma_fundamental_div_mod(x as int, f as int);
                assert(x == f * q);
                assert(q >= 1) by (nonlinear_arith)
                    requires
                        x == f * q,
                        x >= 1,
                        f >= 2,
                ;
                reveal(pow);
                assert(pow(f as int, (c + 1) as nat) == f * pow(f as int, c as nat));
                assert(x0 == q * pow(f as int, (c + 1) as nat)) by (nonlinear_arith)
                    requires
                        x0 == x * pow(f as int, c as nat),
                        x == f * q,
                        pow(f as int, (c + 1) as nat) == f * pow(f as int, c as nat),
                ;
                lemma_pow_positive(f as int, (c + 1) as nat);
                assert(pow(f as int, (c + 1) as nat) <= x0) by (nonlinear_arith)
                    requires
                        x0 == q * pow(f as int, (c + 1) as nat),
                        q >= 1,
                        pow(f as int, (c + 1) as nat) >= 1,
                ;
                lemma_pow_bound(f as int, (c + 1) as nat);
                assert(q < x) by (nonlinear_arith)
                    requires
                        x == f * q,
                        f >= 2,
                        q >= 1,
                ;
            }
            x = x / f;
            c = c + 1;
        }
        proof {
            lemma_pow_positive(f as int, c as nat);
            lemma_no_divisor_of_divisor(x as nat, x0 as nat, pow(f as int, c as nat) as nat, f as int);
            lemma_no_divisor_next(x as nat, k);
            lemma_wheel30_step(wheel.pos());
        }
        if c > 0 {
            let root = u128_sqrt(x);
            proof {
                assert(root < 0x1_0000_0000_0000_0000) by (nonlinear_arith)
                    requires
                        root * root <= x,
                        x <= u128::MAX,
                ;
                assert forall|d: nat| 2 <= d < f implies #[trigger] ((f as nat) % d) != 0 by {
                    if (f as nat) % d == 0 {
                        assert(divides(f as nat, x0 as nat)) by {
                            reveal(pow);
                            let w = pow(f as int, (c - 1) as nat);
                            lemma_pow_positive(f as int, (c - 1) as nat);
                            assert(x0 == f * (x * w)) by (nonlinear_arith)
                                requires
                                    x0 == x * pow(f as int, c as nat),
                                    pow(f as int, c as nat) == f * w,
                            ;
                            lemma_divides_mul(f as nat, (x * w) as nat);
                        }
                        lemma_divides_trans(d, f as nat, x0 as nat);
                    }
                }
                let fac = IntFactor { integer: f, exponent: c };
                assert(factor_value(fac) == pow(f as int, c as nat));
                assert(product(v@.push(fac)) == product(v@) * pow(f as int, c as nat)) by {
                    assert(v@.push(fac).drop_last() =~= v@);
                }
                assert(product(v@) * pow(f as int, c as nat) * x == n) by (nonlinear_arith)
                    requires
                        product(v@) * x0 == n,
                        x0 == x * pow(f as int, c as nat),
                ;
            }
            maxf = root + 1;
            v.push(IntFactor { integer: f, exponent: c });
        } else {
            proof {
                vstd::arithmetic::power::lemma_pow0(f as int);
                assert(x0 == x * 1);
            }
        }
        if x == 1 {
            break;
        }
    }
    if x > 1 || v.len() == 0 {
        proof {
            if x == 1 {
                assert(product(v@) == n);
            }
            let fac = IntFactor { integer: x, exponent: 1 };
            vstd::arithmetic::power::lemma_pow1(x as int);
            assert(factor_value(fac) == x);
            assert(v@.push(fac).drop_last() =~= v@);
            assert(product(v@.push(fac)) == product(v@) * x);
        }
        v.push(IntFactor { integer: x, exponent: 1 });
    } else {
        assert(x == 1);
        assert(product(v@) * 1 == product(v@));
    }
    PrimeFactors { factors: v }
}

/// Cursor over the factors of a decomposition.
pub struct PrimeFactorsIter<'a> {
    vec: &'a Vec<IntFactor>,
    ndx: usize,
}

impl<'a> PrimeFactorsIter<'a> {
    /// The factors that the cursor walks.
    pub closed spec fn items(&self) -> Seq<IntFactor> {
        self.vec@
    }

    /// How many factors the cursor has handed out.
    pub closed spec fn position(&self) -> nat {
        self.ndx as nat
    }

    /// The next factor, or `None` past the last one.
    pub fn next(&mut self) -> (r: Option<IntFactor>)
        ensures
            final(self).items() == old(self).items(),
            old(self).position() < old(self).items().len() ==> r == Some(
                old(self).items()[old(self).position() as int],
            ) && final(self).position() == old(self).position() + 1,
            old(self).position() >= old(self).items().len() ==> r is None && final(self).position()
                == old(self).position(),
    {
        if self.ndx >= self.vec.len() {
            return None;
        }
        let pf = self.vec[self.ndx];
        self.ndx = self.ndx + 1;
        Some(pf)
    }
}

/// The character of a decimal digit.
pub open spec fn digit_char(d: nat) -> char {
    seq!['0', '1', '2', '3', '4', '5', '6', '7', '8', '9'][d as int]
}

/// The decimal notation of `n`, without leading zeros.
pub open spec fn decimal(n: nat) -> Seq<char>
    decreases n,
{
    if n < 10 {
        seq![digit_char(n)]
    } else {
        decimal(n / 10).push(digit_char(n % 10))
    }
}

/// A factor as text: the base alone for exponent one or less, else
/// `base^exponent`.
pub open spec fn factor_text(f: IntFactor) -> Seq<char> {
    if f.exponent > 1 {
        decimal(f.integer as nat) + seq!['^'] + decimal(f.exponent as nat)
    } else {
        decimal(f.integer as nat)
    }
}

/// The factors as text, joined by `" * "`.
pub open spec fn factors_text(s: Seq<IntFactor>) -> Seq<char>
    decreases s.len(),
{
    if s.len() == 0 {
        seq![]
    } else if s.len() == 1 {
        factor_text(s[0])
    } else {
        factors_text(s.drop_last()) + seq![' ', '*', ' '] + factor_text(s.last())
    }
}

fn digit_at(d: u128) -> (r: char)
    requires
        d < 10,
    ensures
        r == digit_char(d as nat),
{
    if d == 0 {
        '0'
    } else if d == 1 {
        '1'
    } else if d == 2 {
        '2'
    } else if d == 3 {
        '3'
    } else if d == 4 {
        '4'
    } else if d == 5 {
        '5'
    } else if d == 6 {
        '6'
    } else if d == 7 {
        '7'
    } else if d == 8 {
        '8'
    } else {
        '9'
    }
}

fn push_decimal(out: &mut Vec<char>, n: u128)
    ensures
        final(out)@ == old(out)@ + decimal(n as nat),
    decreases n,
{
    if n >= 10 {
        push_decimal(out, n / 10);
    }
    out.push(digit_at(n % 10));
    proof {
        if n < 10 {
            assert(n % 10 == n);
        }
        assert(final(out)@ =~= old(out)@ + decimal(n as nat));
    }
}

fn push_factor(out: &mut Vec<char>, f: IntFactor)
    ensures
        final(out)@ == old(out)@ + factor_text(f),
{
    push_decimal(out, f.integer);
    if f.exponent > 1 {
        out.push('^');
        push_decimal(out, f.exponent as u128);
    }
    assert(final(out)@ =~= old(out)@ + factor_text(f));
}

/// Relies on `String`'s `FromIterator<&char>` (through `Iterator::collect`):
/// the string holds the characters in order.
#[verifier::external_body]
fn string_from_chars(v: &Vec<char>) -> (r: String)
    ensures
        r@ == v@,
{
    v.iter().collect()
}

impl IntFactor {
    /// The factor as text: `7` or `2^3`.
    pub fn to_string(&self) -> (r: String)
        ensures
            r@ == factor_text(*self),
    {
        let mut out: Vec<char> = Vec::new();
        push_factor(&mut out, *self);
        assert(out@ =~= factor_text(*self));
        string_from_chars(&out)
    }
}

impl PrimeFactors {
    /// The decomposition as text, for instance `2^3 * 3^2 * 5` for 360.
    pub fn to_string(&self) -> (r: String)
        ensures
            r@ == factors_text(self@),
    {
        let mut out: Vec<char> = Vec::new();
        let mut i: usize = 0;
        while i < self.factors.len()
            invariant
                0 <= i <= self.factors@.len(),
                out@ == factors_text(self.factors@.take(i as int)),
            decreases self.factors@.len() - i,
        {
            if i > 0 {
                out.push(' ');
                out.push('*');
                out.push(' ');
            }
            push_factor(&mut out, self.factors[i]);
            proof {
                let t = self.factors@.take(i + 1);
                assert(t.drop_last() =~= self.factors@.take(i as int));
                if i == 0 {
                    assert(out@ =~= factor_text(t[0]));
                } else {
                    assert(out@ =~= factors_text(t.drop_last()) + seq![' ', '*', ' '] + factor_text(t.last()));
                }
            }
            i = i + 1;
        }
        proof {
            assert(self.factors@.take(i as int) =~= self.factors@);
        }
        string_from_chars(&out)
    }
}

impl From<u128> for PrimeFactors {
    /// The decomposition of `n`, as `factorize` gives it.
    fn from(n: u128) -> (r: Self)
        ensures
            is_factorization(r@, n as nat),
    {
        factorize(n)
    }
}

impl vstd::std_specs::convert::FromSpecImpl<u128> for PrimeFactors {
    open spec fn obeys_from_spec() -> bool {
        false
    }

    open spec fn from_spec(v: u128) -> Self {
        arbitrary()
    }
}

/// `s` is the decomposition of `n`: empty for zero and one, otherwise prime
/// powers in increasing order whose product is `n`.
pub open spec fn is_factorization(s: Seq<IntFactor>, n: nat) -> bool {
    &&& is_factor_seq(s)
    &&& n < 2 ==> s.len() == 0
    &&& n >= 2 ==> product(s) == n
}

/// Primality by trial division over the {2, 3, 5} wheel up to the square
/// root, after a test of membership in the {2, 3, 5, 7} wheel.
pub fn u128_is_prime(n: u128) -> (r: bool)
    ensures
        r == is_prime_spec(n as nat),
{
    if n < 2 {
        return false;
    }
    if n > 210 && !is_pw210_candidate(n) {
        proof {
            assert(!is_wheel210_member(n as int));
            let d: nat = if n % 2 == 0 {
                2
            } else if n % 3 == 0 {
                3
            } else if n % 5 == 0 {
                5
            } else {
                7
            };
            assert((n as nat) % d == 0);
        }
        return false;
    }
    let root = u128_sqrt(n);
    assert(root < 0x1_0000_0000_0000_0000) by (nonlinear_arith)
        requires
            root * root <= n,
            n <= u128::MAX,
    ;
    // A factor of n is at most its square root.
    let maxf: u128 = root + 1;
    let mut wheel = PrimeWheel30::new();
    proof {
        lemma_wheel30_step(0);
    }
    loop
        invariant_except_break
            wheel.wf(),
            n >= 2,
            no_divisor_below(n as nat, wheel30(wheel.pos())),
            1 <= maxf <= 0x1_0000_0000_0000_0000,
            (maxf - 1) * (maxf - 1) <= n < maxf * maxf,
            wheel30(wheel.pos()) < maxf + 6,
            wheel30(wheel.pos()) >= wheel.pos() + 2,
        ensures
            is_prime_spec(n as nat),
        decreases 0x1_0000_0000_0000_0010 - wheel.pos(),
    {
        let ghost k = wheel.pos();
        let f = match wheel.next() {
            Some(f) => f,
            None => {
                assert(false);
                break;
            },
        };
        if f >= maxf {
            proof {
                assert(n < f * f) by (nonlinear_arith)
                    requires
                        n < maxf * maxf,
                        f >= maxf,
                        maxf >= 1,
                ;
                lemma_prime_below_square(n as nat, f as nat);
            }
            break;
        }
        proof {
            lemma_wheel30_step(k);
        }
        if n % f == 0 {
            proof {
                assert(f < n) by (nonlinear_arith)
                    requires
                        f < maxf,
                        (maxf - 1) * (maxf - 1) <= n,
                        f >= 2,
                ;
            }
            return false;
        }
        proof {
            lemma_no_divisor_next(n as nat, k);
            lemma_wheel30_step(wheel.pos());
        }
    }
    true
}

/// The decomposition of the greatest common divisor of two integers, from
/// their own decompositions; empty where either is zero or one.
pub fn primefactor_gcd(this: u128, that: u128) -> (r: PrimeFactors)
    ensures
        is_factor_seq(r@),
        exists|a: Seq<IntFactor>, b: Seq<IntFactor>|
            is_factorization(a, this as nat) && is_factorization(b, that as nat) && forall|p: nat|
                #[trigger] exponent_of(r@, p) == if exponent_of(a, p) <= exponent_of(b, p) {
                    exponent_of(a, p)
                } else {
                    exponent_of(b, p)
                },
        this < 2 || that < 2 ==> r@.len() == 0,
{
    let pf_this = factorize(this);
    let pf_that = factorize(that);
    let r = pf_this.gcd(&pf_that);
    proof {
        if this < 2 || that < 2 {
            if r@.len() > 0 {
                let p = r@[0].integer as nat;
                lemma_exponent_present(r@, 0);
                lemma_exponent_absent(pf_this@, p);
                lemma_exponent_absent(pf_that@, p);
            }
        }
    }
    assert(is_factorization(pf_this@, this as nat));
    assert(is_factorization(pf_that@, that as nat));
    r
}

} // verus!
