//! The primality oracle: trial division up to the integer square root,
//! testing only candidates of the shape 6k + 5 and 6k + 7 once 2 and 3
//! have been ruled out.

use vstd::prelude::*;

verus! {

use vstd::arithmetic::div_mod::{lemma_fundamental_div_mod, lemma_mod_multiples_basic};

/// A number is prime when it is at least 2 and no number from 2 up to
/// (but excluding) itself divides it.
pub open spec fn is_prime_spec(n: int) -> bool {
    n >= 2 && forall|d: int| 2 <= d < n ==> #[trigger] (n % d) != 0
}

/// Divisibility carries down through a factor: when `k` divides `d` and
/// `d` divides `n`, then `k` divides `n`.
proof fn lemma_divides_transitive(k: int, d: int, n: int)
    requires
        0 < k,
        0 < d,
        d % k == 0,
        n % d == 0,
    ensures
        n % k == 0,
{
    let qd = d / k;
    let qn = n / d;
    lemma_fundamental_div_mod(d, k);
    lemma_fundamental_div_mod(n, d);
    assert(n == (qd * qn) * k) by (nonlinear_arith)
        requires
            d == k * qd,
            n == d * qn,
    ;
    lemma_mod_multiples_basic(qd * qn, k);
}

/// A composite number has a divisor whose square does not exceed it: of
/// any factor pair, the lesser factor is at most the square root.
proof fn lemma_composite_has_small_divisor(n: int)
    requires
        n >= 2,
        !is_prime_spec(n),
    ensures
        exists|d: int| 2 <= d && d * d <= n && #[trigger] (n % d) == 0,
{
    let d = choose|d: int| 2 <= d < n && #[trigger] (n % d) == 0;
    lemma_fundamental_div_mod(n, d);
    let e = n / d;
    assert(n == d * e);
    assert(e >= 2) by (nonlinear_arith)
        requires
            n == d * e,
            2 <= d < n,
    ;
    lemma_mod_multiples_basic(d, e);
    assert(n % e == 0);
    if d * d <= n {
        assert(2 <= d && d * d <= n && n % d == 0);
    } else {
        assert(e * e <= n) by (nonlinear_arith)
            requires
                n == d * e,
                d * d > n,
                d >= 2,
                e >= 2,
        ;
        assert(2 <= e && e * e <= n && n % e == 0);
    }
}

/// A stride of six from a base congruent to five modulo six only has to
/// test the two candidates `i` and `i + 2`: the four numbers in between
/// that the stride skips are multiples of 2 or of 3.
proof fn lemma_stride_covers(n: int, i: int)
    requires
        n >= 2,
        n % 2 != 0,
        n % 3 != 0,
        i >= 5,
        i % 6 == 5,
        forall|d: int| 2 <= d < i ==> #[trigger] (n % d) != 0,
        n % i != 0,
        n % (i + 2) != 0,
    ensures
        forall|d: int| 2 <= d < i + 6 ==> #[trigger] (n % d) != 0,
{
    assert((i + 1) % 2 == 0 && (i + 3) % 2 == 0 && (i + 5) % 2 == 0 && (i + 4) % 3 == 0)
        by (nonlinear_arith)
        requires
            i % 6 == 5,
    ;
    assert forall|d: int| 2 <= d < i + 6 implies #[trigger] (n % d) != 0 by {
        if d == i + 4 {
            if n % d == 0 {
                lemma_divides_transitive(3, d, n);
            }
        } else if d == i + 1 || d == i + 3 || d == i + 5 {
            if n % d == 0 {
                lemma_divides_transitive(2, d, n);
            }
        }
    }
}

/// Decides whether `n` is prime by trial division. After the special
/// cases for 2 and 3 and the screens for their multiples, it tests the
/// divisors 5, 7, 11, 13, ... (the numbers congruent to 1 or 5 modulo 6)
/// while their square is at most `n`.
pub fn is_prime(n: u64) -> (r: bool)
    ensures
        r == is_prime_spec(n as int),
{
    if n < 2 {
        return false;
    }
    if n == 2 || n == 3 {
        return true;
    }
    if n % 2 == 0 {
        proof {
            assert((n as int) % 2 == 0);
            assert(!is_prime_spec(n as int));
        }
        return false;
    }
    if n % 3 == 0 {
        proof {
            assert((n as int) % 3 == 0);
            assert(!is_prime_spec(n as int));
        }
        return false;
    }
    proof {
        assert forall|d: int| 2 <= d < 5 implies #[trigger] ((n as int) % d) != 0 by {
            if d == 4 && (n as int) % 4 == 0 {
                lemma_divides_transitive(2, 4, n as int);
            }
        }
    }
    let mut i: u64 = 5;
    while i <= n / i
        invariant
            n >= 5,
            (n as int) % 2 != 0,
            (n as int) % 3 != 0,
            5 <= i,
            i % 6 == 5,
            forall|d: int| 2 <= d < i ==> #[trigger] ((n as int) % d) != 0,
        decreases n - i,
    {
        proof {
            lemma_fundamental_div_mod(n as int, i as int);
            assert((i as int) * (i as int) <= n as int) by (nonlinear_arith)
                requires
                    i as int <= (n as int) / (i as int),
                    n as int == (i as int) * ((n as int) / (i as int)) + (n as int) % (i as int),
                    0 <= (n as int) % (i as int) < i as int,
                    i as int >= 5,
            ;
            assert(i as int + 6 <= n as int) by (nonlinear_arith)
                requires
                    (i as int) * (i as int) <= n as int,
                    i as int >= 5,
            ;
            assert(i as int <= 0xFFFF_FFFF) by (nonlinear_arith)
                requires
                    (i as int) * (i as int) <= n as int,
                    i as int >= 5,
                    n as int <= u64::MAX,
            ;
        }
        if n % i == 0 {
            proof {
                assert((n as int) % (i as int) == 0);
                assert(!is_prime_spec(n as int));
            }
            return false;
        }
        if n % (i + 2) == 0 {
            proof {
                assert((n as int) % (i as int + 2) == 0);
                assert(!is_prime_spec(n as int));
            }
            return false;
        }
        proof {
            lemma_stride_covers(n as int, i as int);
        }
        i = i + 6;
    }
    proof {
        lemma_fundamental_div_mod(n as int, i as int);
        assert((i as int) * (i as int) > n as int) by (nonlinear_arith)
            requires
                i as int > (n as int) / (i as int),
                n as int == (i as int) * ((n as int) / (i as int)) + (n as int) % (i as int),
                0 <= (n as int) % (i as int) < i as int,
                i as int >= 5,
        ;
        if !is_prime_spec(n as int) {
            lemma_composite_has_small_divisor(n as int);
            let d = choose|d: int| 2 <= d && d * d <= n as int && #[trigger] ((n as int) % d) == 0;
            assert(d < i as int) by (nonlinear_arith)
                requires
                    d * d <= n as int,
                    (i as int) * (i as int) > n as int,
                    d >= 2,
                    i as int >= 5,
            ;
            assert(false);
        }
    }
    true
}

} // verus!
