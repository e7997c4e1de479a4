//! Deterministic primality testing by trial division with 6k±1 wheel skipping.

use vstd::prelude::*;
use vstd::arithmetic::div_mod::{
    lemma_fundamental_div_mod, lemma_fundamental_div_mod_converse_mod,
    lemma_mod_add_multiples_vanish, lemma_mod_multiples_basic,
};

verus! {

/// A number is prime when it is at least 2 and no value strictly between
/// 1 and it divides it.
pub open spec fn is_prime_spec(n: int) -> bool {
    &&& n >= 2
    &&& forall|d: int| 2 <= d < n ==> (#[trigger] (n % d)) != 0
}

/// Integer square root: the largest `r` with `r * r <= n`.
///
/// Computed with 128-bit intermediates so the squaring in the search
/// cannot wrap for any `usize` input.
pub fn isqrt(n: usize) -> (r: usize)
    ensures
        r * r <= n,
        n < (r + 1) * (r + 1),
{
    let m: u128 = n as u128;
    let mut r: u128 = 0;
    loop
        invariant
            m == n as u128,
            r * r <= m,
            r <= m,
            r < 0x1_0000_0000,
        ensures
            r * r <= m,
            m < (r + 1) * (r + 1),
            r <= m,
        decreases m - r,
    {
        let s: u128 = r + 1;
        proof {
            assert(s * s <= 0x1_0000_0000_0000_0000) by (nonlinear_arith)
                requires
                    s <= 0x1_0000_0000,
                    s >= 0,
            ;
        }
        if s * s > m {
            break;
        }
        r = s;
        proof {
            assert(r <= m) by (nonlinear_arith)
                requires
                    r >= 1,
                    r * r <= m,
            ;
            assert(r < 0x1_0000_0000) by (nonlinear_arith)
                requires
                    r * r <= m,
                    m < 0x1_0000_0000_0000_0000,
            ;
        }
    }
    r as usize
}

/// Divisibility is transitive: if `k` divides `d` and `d` divides `n`,
/// then `k` divides `n`.
proof fn lemma_divisor_transfer(n: int, d: int, k: int)
    requires
        n >= 1,
        d >= 1,
        k >= 1,
        d % k == 0,
        n % d == 0,
    ensures
        n % k == 0,
{
    lemma_fundamental_div_mod(n, d);
    lemma_fundamental_div_mod(d, k);
    let qd = n / d;
    let qk = d / k;
    assert(n == (qk * qd) * k) by (nonlinear_arith)
        requires
            n == d * qd,
            d == k * qk,
    ;
    lemma_mod_multiples_basic(qk * qd, k);
}

/// A number at least 2 with no divisor between 2 and its integer square
/// root has no nontrivial divisor at all: any divisor above the root
/// would pair with a cofactor at or below it.
proof fn lemma_prime_from_sqrt_search(n: int, b: int)
    requires
        n >= 2,
        b >= 1,
        n < (b + 1) * (b + 1),
        forall|d: int| 2 <= d <= b ==> (#[trigger] (n % d)) != 0,
    ensures
        is_prime_spec(n),
{
    assert forall|d: int| 2 <= d < n implies (#[trigger] (n % d)) != 0 by {
        if n % d == 0 && d > b {
            let e = n / d;
            lemma_fundamental_div_mod(n, d);
            assert(e >= 2) by (nonlinear_arith)
                requires
                    n == d * e,
                    2 <= d < n,
            ;
            assert(e <= b) by (nonlinear_arith)
                requires
                    n == d * e,
                    n < (b + 1) * (b + 1),
                    d >= b + 1,
                    e >= 2,
                    b >= 1,
            ;
            lemma_mod_multiples_basic(d, e);
            assert(n % e == 0);
            assert(false);
        }
    };
}

/// After the two wheel candidates `c` and `c + 2` are ruled out (with
/// `c` congruent to 5 modulo 6), the four skipped values in between are
/// multiples of 2 or 3, so the search may advance by 6.
proof fn lemma_wheel_step(n: int, c: int)
    requires
        n >= 2,
        n % 2 != 0,
        n % 3 != 0,
        c >= 5,
        c % 6 == 5,
        n % c != 0,
        n % (c + 2) != 0,
        forall|d: int| 2 <= d < c ==> (#[trigger] (n % d)) != 0,
    ensures
        forall|d: int| 2 <= d < c + 6 ==> (#[trigger] (n % d)) != 0,
{
    let q = c / 6;
    lemma_fundamental_div_mod(c, 6);
    assert((c + 1) % 2 == 0) by {
        lemma_fundamental_div_mod_converse_mod(c + 1, 2, 3 * q + 3, 0);
    };
    assert((c + 3) % 2 == 0) by {
        lemma_fundamental_div_mod_converse_mod(c + 3, 2, 3 * q + 4, 0);
    };
    assert((c + 5) % 2 == 0) by {
        lemma_fundamental_div_mod_converse_mod(c + 5, 2, 3 * q + 5, 0);
    };
    assert((c + 4) % 3 == 0) by {
        lemma_fundamental_div_mod_converse_mod(c + 4, 3, 2 * q + 3, 0);
    };
    assert forall|d: int| 2 <= d < c + 6 implies (#[trigger] (n % d)) != 0 by {
        if n % d == 0 {
            if d == c + 1 || d == c + 3 || d == c + 5 {
                lemma_divisor_transfer(n, d, 2);
            } else if d == c + 4 {
                lemma_divisor_transfer(n, d, 3);
            }
            assert(false);
        }
    };
}

/// Decides primality by trial division. Multiples of 2 and 3 are ruled
/// out first; the remaining candidate divisors are of the form 6k−1 and
/// 6k+1 and are tested in pairs up to one past the integer square root.
pub fn is_prime(n: usize) -> (r: bool)
    ensures
        r == is_prime_spec(n as int),
{
    if n <= 1 {
        return false;
    }
    if n <= 3 {
        return true;
    }
    if n % 2 == 0 || n % 3 == 0 {
        return false;
    }
    let root = isqrt(n);
    proof {
        assert(root < n) by (nonlinear_arith)
            requires
                root * root <= n,
                n >= 5,
        ;
        assert forall|d: int| 2 <= d < 5 implies (#[trigger] ((n as int) % d)) != 0 by {
            if d == 4 && (n as int) % 4 == 0 {
                lemma_divisor_transfer(n as int, 4, 2);
            }
        };
    }
    let upper_limit: usize = root + 1;
    let mut curr: usize = 5;
    while curr <= upper_limit
        invariant
            n >= 5,
            (n as int) % 2 != 0,
            (n as int) % 3 != 0,
            root * root <= n,
            n < (root + 1) * (root + 1),
            root < n,
            upper_limit == root + 1,
            curr >= 5,
            (curr as int) % 6 == 5,
            curr <= upper_limit + 6,
            forall|d: int| 2 <= d < curr as int ==> (#[trigger] ((n as int) % d)) != 0,
        decreases upper_limit + 6 - curr,
    {
        proof {
            assert(root + 7 <= n) by (nonlinear_arith)
                requires
                    root >= 4,
                    root * root <= n,
            ;
        }
        if n % curr == 0 || n % (curr + 2) == 0 {
            return false;
        }
        proof {
            lemma_wheel_step(n as int, curr as int);
        }
        curr = curr + 6;
        proof {
            lemma_mod_add_multiples_vanish(curr as int - 6, 6);
        }
    }
    proof {
        assert(root >= 2) by (nonlinear_arith)
            requires
                n >= 5,
                n < (root + 1) * (root + 1),
                root >= 0,
        ;
        lemma_prime_from_sqrt_search(n as int, root as int);
    }
    true
}

} // verus!
