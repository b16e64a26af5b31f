//! Two small computations on numbers: the greatest common divisor of two
//! numbers, by Euclid's algorithm, and the smallest of a list of numbers.

use vstd::prelude::*;
use vstd::arithmetic::div_mod::{lemma_fundamental_div_mod, lemma_mod_multiples_vanish};

verus! {

/// `d` is a positive number that divides both `n` and `m`.
pub open spec fn common_divisor(d: int, n: int, m: int) -> bool {
    d > 0 && n % d == 0 && m % d == 0
}

/// `g` divides both `n` and `m`, and no common divisor is larger.
pub open spec fn is_gcd(g: int, n: int, m: int) -> bool {
    &&& common_divisor(g, n, m)
    &&& forall|d: int| #[trigger] common_divisor(d, n, m) ==> d <= g
}

/// Replacing `m` by `m % n` keeps divisibility by any divisor of `n`.
proof fn lemma_remainder_keeps_divisors(d: int, n: int, m: int)
    requires
        d > 0,
        n > 0,
        m >= 0,
        n % d == 0,
    ensures
        (m % d == 0) <==> ((m % n) % d == 0),
{
    let k = n / d;
    let q = m / n;
    lemma_fundamental_div_mod(n, d);
    lemma_fundamental_div_mod(m, n);
    assert(n == d * k);
    assert(m == n * q + m % n);
    assert(n * q == d * (k * q)) by (nonlinear_arith)
        requires
            n == d * k,
    ;
    lemma_mod_multiples_vanish(k * q, m % n, d);
}

/// A positive divisor of a positive number does not exceed it.
proof fn lemma_divisor_bounded(d: int, n: int)
    requires
        d > 0,
        n > 0,
        n % d == 0,
    ensures
        d <= n,
{
    if d > n {
        vstd::arithmetic::div_mod::lemma_small_mod(n as nat, d as nat);
    }
}

/// The greatest common divisor of two positive numbers.
pub fn gcd(n: u64, m: u64) -> (g: u64)
    requires
        n != 0,
        m != 0,
    ensures
        is_gcd(g as int, n as int, m as int),
{
    let mut a: u64 = n;
    let mut b: u64 = m;
    while b != 0
        invariant
            a != 0,
            forall|d: int| #[trigger]
                common_divisor(d, a as int, b as int) <==> common_divisor(d, n as int, m as int),
        decreases b,
    {
        let ghost a0 = a;
        let ghost b0 = b;
        if b < a {
            let t: u64 = b;
            b = a;
            a = t;
        }
        proof {
            assert forall|d: int| #[trigger]
                common_divisor(d, a as int, (b % a) as int) <==> common_divisor(
                    d,
                    n as int,
                    m as int,
                ) by {
                assert(common_divisor(d, a0 as int, b0 as int) <==> common_divisor(
                    d,
                    n as int,
                    m as int,
                ));
                if d > 0 && (a as int) % d == 0 {
                    lemma_remainder_keeps_divisors(d, a as int, b as int);
                }
            }
        }
        b = b % a;
    }
    proof {
        assert(common_divisor(a as int, a as int, b as int)) by {
            vstd::arithmetic::div_mod::lemma_mod_self_0(a as int);
        }
        assert forall|d: int| #[trigger] common_divisor(d, n as int, m as int) implies d <= a by {
            assert(common_divisor(d, a as int, b as int));
            lemma_divisor_bounded(d, a as int);
        }
    }
    a
}

/// `x` occurs in `v`, and no element of `v` is smaller.
pub open spec fn is_smallest(x: i32, v: Seq<i32>) -> bool {
    &&& exists|i: int| 0 <= i < v.len() && v[i] == x
    &&& forall|i: int| 0 <= i < v.len() ==> x <= v[i]
}

/// The smallest element of a list that is not empty.
pub fn smallest(v: &[i32]) -> (x: &i32)
    requires
        v@.len() > 0,
    ensures
        is_smallest(*x, v@),
{
    let mut at: usize = 0;
    let mut i: usize = 1;
    while i < v.len()
        invariant
            0 <= at < i <= v@.len(),
            forall|k: int| 0 <= k < i ==> v@[at as int] <= v@[k],
        decreases v@.len() - i,
    {
        if v[i] < v[at] {
            at = i;
        }
        i = i + 1;
    }
    &v[at]
}

} // verus!
