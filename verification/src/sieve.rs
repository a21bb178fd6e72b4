//! The range collector: scans an inclusive range of 64-bit integers in
//! parallel and returns the primes it holds, ascending.

use vstd::prelude::*;

use rayon::iter::{IntoParallelIterator, ParallelIterator};

use crate::ascending;
use crate::primality::{is_prime, is_prime_spec};

verus! {

/// The ascending sequence of every prime in `[start, end]`.
pub open spec fn prime_seq(start: int, end: int) -> Seq<u64>
    decreases end - start + 1,
{
    if start > end {
        Seq::empty()
    } else if is_prime_spec(end) {
        prime_seq(start, end - 1).push(end as u64)
    } else {
        prime_seq(start, end - 1)
    }
}

/// The sequence holds a value exactly when it is a prime inside the
/// bounds.
proof fn lemma_prime_seq_contains(start: int, end: int, v: u64)
    requires
        end <= u64::MAX,
    ensures
        prime_seq(start, end).contains(v) <==> (start <= v as int <= end && is_prime_spec(
            v as int,
        )),
    decreases end - start + 1,
{
    if start > end {
        assert(!prime_seq(start, end).contains(v));
    } else {
        lemma_prime_seq_contains(start, end - 1, v);
        let s = prime_seq(start, end - 1);
        let t = prime_seq(start, end);
        if is_prime_spec(end) {
            if t.contains(v) {
                let k = choose|k: int| 0 <= k < t.len() && t[k] == v;
                if k < s.len() {
                    assert(s[k] == v);
                    assert(s.contains(v));
                } else {
                    assert(v == end as u64);
                }
            }
            if s.contains(v) {
                let k = choose|k: int| 0 <= k < s.len() && s[k] == v;
                assert(t[k] == v);
                assert(t.contains(v));
            }
            if v as int == end {
                assert(t[s.len() as int] == v);
                assert(t.contains(v));
            }
        } else {
            assert(t == s);
        }
    }
}

/// Every entry of the sequence lies inside the bounds, and the entries
/// strictly ascend.
proof fn lemma_prime_seq_bounds(start: int, end: int)
    requires
        end <= u64::MAX,
    ensures
        forall|k: int|
            0 <= k < prime_seq(start, end).len() ==> start <= #[trigger] prime_seq(start, end)[k]
                 as int <= end,
        ascending(prime_seq(start, end)),
    decreases end - start + 1,
{
    if start > end {
    } else {
        lemma_prime_seq_bounds(start, end - 1);
        let s = prime_seq(start, end - 1);
        let t = prime_seq(start, end);
        if is_prime_spec(end) {
            assert(t == s.push(end as u64));
            assert forall|k: int| 0 <= k < t.len() implies start <= #[trigger] t[k] as int
                <= end by {
                if k < s.len() {
                    assert(t[k] == s[k]);
                } else {
                    assert(t[k] == end as u64);
                }
            }
            assert forall|i: int, j: int| 0 <= i < j < t.len() implies t[i] < t[j] by {
                if j < s.len() {
                    assert(t[i] == s[i] && t[j] == s[j]);
                } else {
                    assert(t[i] == s[i] && t[j] == end as u64);
                    assert(s[i] as int <= end - 1);
                }
            }
        } else {
            assert(t == s);
        }
    }
}

/// Relies on rayon: `into_par_iter` over an inclusive `u64` range visits
/// every value in it, `filter` keeps exactly the values the predicate
/// accepts, and `collect` into a `Vec` preserves the range's ascending
/// order. The predicate is this library's verified `is_prime`.
#[verifier::external_body]
fn par_filter_primes(start: u64, end: u64) -> (r: Vec<u64>)
    ensures
        r@ == prime_seq(start as int, end as int),
{
    (start..=end).into_par_iter().filter(|&n| is_prime(n)).collect()
}

/// Collects, in parallel, every prime in the inclusive range
/// `[start, end]`, ascending. A reversed range yields the empty
/// sequence.
pub fn collect_primes(start: u64, end: u64) -> (r: Vec<u64>)
    ensures
        r@ == prime_seq(start as int, end as int),
        forall|k: int|
            0 <= k < r@.len() ==> start <= #[trigger] r@[k] <= end && is_prime_spec(r@[k] as int),
        forall|v: u64| start <= v <= end && is_prime_spec(v as int) ==> #[trigger] r@.contains(v),
        ascending(r@),
        start > end ==> r@ =~= Seq::<u64>::empty(),
{
    let r = par_filter_primes(start, end);
    proof {
        lemma_prime_seq_bounds(start as int, end as int);
        assert forall|v: u64|
            start <= v <= end && is_prime_spec(v as int) implies #[trigger] r@.contains(v) by {
            lemma_prime_seq_contains(start as int, end as int, v);
        }
        assert forall|k: int| 0 <= k < r@.len() implies start <= #[trigger] r@[k] <= end
            && is_prime_spec(r@[k] as int) by {
            assert(r@.contains(r@[k]));
            lemma_prime_seq_contains(start as int, end as int, r@[k]);
        }
    }
    r
}

/// Law: the primes collected from a range are a function of the bounds
/// alone, so two calls of `collect_primes` with equal bounds return
/// equal sequences.
pub proof fn lemma_collect_primes_repeatable(start: u64, end: u64, r1: Seq<u64>, r2: Seq<u64>)
    requires
        r1 == prime_seq(start as int, end as int),
        r2 == prime_seq(start as int, end as int),
    ensures
        r1 == r2,
{
}

} // verus!
