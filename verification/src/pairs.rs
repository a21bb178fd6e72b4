//! The pair factorizer: every unordered pair of distinct members of a
//! prime sequence, as a canonical (product, lesser, greater) triple,
//! computed with parallel nested iteration.

use vstd::prelude::*;

use rayon::iter::{IntoParallelRefIterator, ParallelIterator};

use crate::ascending;

verus! {

/// The product of two 64-bit numbers, wrapped to 64 bits.
pub open spec fn wide_product(a: u64, b: u64) -> u64 {
    ((a as nat * b as nat) % (0x1_0000_0000_0000_0000 as nat)) as u64
}

/// The canonical triple for one ordered pair: `Some((a * b, a, b))` when
/// the first member is the lesser, `None` otherwise.
pub open spec fn triple_for(a: u64, b: u64) -> Option<(u64, u64, u64)> {
    if a < b {
        Some((wide_product(a, b), a, b))
    } else {
        None
    }
}

/// When the true product fits in 64 bits, the wrapped product is exact.
pub proof fn lemma_wide_product_exact(a: u64, b: u64)
    requires
        a as int * b as int <= u64::MAX as int,
    ensures
        wide_product(a, b) == a as int * b as int,
{
    vstd::arithmetic::div_mod::lemma_small_mod(
        a as nat * b as nat,
        0x1_0000_0000_0000_0000 as nat,
    );
}

/// Builds the canonical triple for one ordered pair; the pair is dropped
/// unless the first member is the lesser. The product wraps on overflow.
pub fn pair_triple(a: u64, b: u64) -> (r: Option<(u64, u64, u64)>)
    ensures
        r == triple_for(a, b),
{
    if a < b {
        Some((a.wrapping_mul(b), a, b))
    } else {
        None
    }
}

/// The triples one left member `a` forms with every greater member of
/// `s`, in the order `s` lists them.
pub open spec fn row(a: u64, s: Seq<u64>) -> Seq<(u64, u64, u64)>
    decreases s.len(),
{
    if s.len() == 0 {
        Seq::empty()
    } else if a < s.last() {
        row(a, s.drop_last()).push((wide_product(a, s.last()), a, s.last()))
    } else {
        row(a, s.drop_last())
    }
}

/// The rows of every member of `left`, in order, each paired against the
/// whole sequence `s`.
pub open spec fn rows(left: Seq<u64>, s: Seq<u64>) -> Seq<(u64, u64, u64)>
    decreases left.len(),
{
    if left.len() == 0 {
        Seq::empty()
    } else {
        rows(left.drop_last(), s) + row(left.last(), s)
    }
}

/// Every canonical triple drawn from two members of `s`, row by row.
pub open spec fn all_pairs(s: Seq<u64>) -> Seq<(u64, u64, u64)> {
    rows(s, s)
}

proof fn lemma_push_contains<A>(s: Seq<A>, e: A, x: A)
    ensures
        s.push(e).contains(x) <==> (s.contains(x) || x == e),
{
    let t = s.push(e);
    if t.contains(x) {
        let k = choose|k: int| 0 <= k < t.len() && t[k] == x;
        if k < s.len() {
            assert(s[k] == x);
            assert(s.contains(x));
        } else {
            assert(x == e);
        }
    }
    if s.contains(x) {
        let k = choose|k: int| 0 <= k < s.len() && s[k] == x;
        assert(t[k] == x);
        assert(t.contains(x));
    }
    if x == e {
        assert(t[s.len() as int] == x);
        assert(t.contains(x));
    }
}

proof fn lemma_add_contains<A>(x: Seq<A>, y: Seq<A>, t: A)
    ensures
        (x + y).contains(t) <==> (x.contains(t) || y.contains(t)),
{
    let c = x + y;
    if c.contains(t) {
        let k = choose|k: int| 0 <= k < c.len() && c[k] == t;
        if k < x.len() {
            assert(x[k] == t);
            assert(x.contains(t));
        } else {
            assert(y[k - x.len()] == t);
            assert(y.contains(t));
        }
    }
    if x.contains(t) {
        let k = choose|k: int| 0 <= k < x.len() && x[k] == t;
        assert(c[k] == t);
        assert(c.contains(t));
    }
    if y.contains(t) {
        let k = choose|k: int| 0 <= k < y.len() && y[k] == t;
        assert(c[x.len() + k] == t);
        assert(c.contains(t));
    }
}

proof fn lemma_unsnoc_contains<A>(s: Seq<A>, x: A)
    requires
        s.len() > 0,
    ensures
        s.contains(x) <==> (s.drop_last().contains(x) || x == s.last()),
{
    let d = s.drop_last();
    if s.contains(x) {
        let k = choose|k: int| 0 <= k < s.len() && s[k] == x;
        if k < d.len() {
            assert(d[k] == x);
            assert(d.contains(x));
        } else {
            assert(x == s.last());
        }
    }
    if d.contains(x) {
        let k = choose|k: int| 0 <= k < d.len() && d[k] == x;
        assert(s[k] == x);
        assert(s.contains(x));
    }
    if x == s.last() {
        assert(s[s.len() - 1] == x);
        assert(s.contains(x));
    }
}

/// A row holds exactly the triples whose left member is `a` and whose
/// right member is a greater member of `s`.
proof fn lemma_row_contains(a: u64, s: Seq<u64>, t: (u64, u64, u64))
    ensures
        row(a, s).contains(t) <==> (t.1 == a && s.contains(t.2) && a < t.2 && t.0 == wide_product(
            a,
            t.2,
        )),
    decreases s.len(),
{
    if s.len() == 0 {
        assert(!row(a, s).contains(t));
        assert(!s.contains(t.2));
    } else {
        lemma_row_contains(a, s.drop_last(), t);
        lemma_unsnoc_contains(s, t.2);
        if a < s.last() {
            lemma_push_contains(
                row(a, s.drop_last()),
                (wide_product(a, s.last()), a, s.last()),
                t,
            );
        }
    }
}

/// The rows over `left` hold exactly the triples whose left member is in
/// `left` and whose right member is a greater member of `s`.
proof fn lemma_rows_contains(left: Seq<u64>, s: Seq<u64>, t: (u64, u64, u64))
    ensures
        rows(left, s).contains(t) <==> (left.contains(t.1) && s.contains(t.2) && t.1 < t.2
            && t.0 == wide_product(t.1, t.2)),
    decreases left.len(),
{
    if left.len() == 0 {
        assert(!rows(left, s).contains(t));
        assert(!left.contains(t.1));
    } else {
        lemma_rows_contains(left.drop_last(), s, t);
        lemma_add_contains(rows(left.drop_last(), s), row(left.last(), s), t);
        lemma_row_contains(left.last(), s, t);
        lemma_unsnoc_contains(left, t.1);
    }
}

proof fn lemma_ascending_drop_last(s: Seq<u64>)
    requires
        s.len() > 0,
        ascending(s),
    ensures
        ascending(s.drop_last()),
{
    let d = s.drop_last();
    assert forall|i: int, j: int| 0 <= i < j < d.len() implies d[i] < d[j] by {
        assert(d[i] == s[i] && d[j] == s[j]);
    }
}

/// A row over a sequence with no greater member is empty.
proof fn lemma_row_len_none(a: u64, s: Seq<u64>)
    requires
        forall|k: int| 0 <= k < s.len() ==> #[trigger] s[k] <= a,
    ensures
        row(a, s).len() == 0,
    decreases s.len(),
{
    if s.len() > 0 {
        assert forall|k: int| 0 <= k < s.drop_last().len() implies #[trigger] s.drop_last()[k]
            <= a by {
            assert(s.drop_last()[k] == s[k]);
        }
        lemma_row_len_none(a, s.drop_last());
        assert(s.last() == s[s.len() - 1]);
    }
}

/// In an ascending sequence, the row of the member at position `i` holds
/// one triple for each of the members after it.
proof fn lemma_row_len_at(s: Seq<u64>, i: int)
    requires
        ascending(s),
        0 <= i < s.len(),
    ensures
        row(s[i], s).len() == s.len() - 1 - i,
    decreases s.len(),
{
    let a = s[i];
    if i == s.len() - 1 {
        assert forall|k: int| 0 <= k < s.drop_last().len() implies #[trigger] s.drop_last()[k]
            <= a by {
            assert(s.drop_last()[k] == s[k]);
        }
        lemma_row_len_none(a, s.drop_last());
    } else {
        assert(a < s.last());
        lemma_ascending_drop_last(s);
        assert(s.drop_last()[i] == a);
        lemma_row_len_at(s.drop_last(), i);
    }
}

/// The total count of triples over the first `k` members of an ascending
/// sequence: each position `m < k` contributes the members after it.
proof fn lemma_rows_len(s: Seq<u64>, k: int)
    requires
        ascending(s),
        0 <= k <= s.len(),
    ensures
        2 * rows(s.take(k), s).len() == k * (2 * s.len() - k - 1),
    decreases k,
{
    if k == 0 {
        assert(s.take(0).len() == 0);
    } else {
        lemma_rows_len(s, k - 1);
        let left = s.take(k);
        assert(left.drop_last() =~= s.take(k - 1));
        assert(left.last() == s[k - 1]);
        lemma_row_len_at(s, k - 1);
        let n = s.len() as int;
        let prev = rows(s.take(k - 1), s).len() as int;
        assert(rows(left, s).len() == prev + (n - k));
        assert(2 * (prev + (n - k)) == k * (2 * n - k - 1)) by (nonlinear_arith)
            requires
                2 * prev == (k - 1) * (2 * n - (k - 1) - 1),
        ;
    }
}

proof fn lemma_push_no_dup<A>(s: Seq<A>, e: A)
    requires
        s.no_duplicates(),
        !s.contains(e),
    ensures
        s.push(e).no_duplicates(),
{
    let t = s.push(e);
    assert forall|i: int, j: int|
        0 <= i < t.len() && 0 <= j < t.len() && i != j implies t[i] != t[j] by {
        if i < s.len() && j < s.len() {
            assert(t[i] == s[i] && t[j] == s[j]);
        } else if i < s.len() {
            assert(t[i] == s[i] && t[j] == e);
            if s[i] == e {
                assert(s.contains(e));
            }
        } else if j < s.len() {
            assert(t[j] == s[j] && t[i] == e);
            if s[j] == e {
                assert(s.contains(e));
            }
        }
    }
}

proof fn lemma_add_no_dup<A>(x: Seq<A>, y: Seq<A>)
    requires
        x.no_duplicates(),
        y.no_duplicates(),
        x.disjoint(y),
    ensures
        (x + y).no_duplicates(),
{
    let c = x + y;
    assert forall|i: int, j: int|
        0 <= i < c.len() && 0 <= j < c.len() && i != j implies c[i] != c[j] by {
        if i < x.len() && j < x.len() {
            assert(c[i] == x[i] && c[j] == x[j]);
        } else if i < x.len() {
            assert(c[i] == x[i] && c[j] == y[j - x.len()]);
        } else if j < x.len() {
            assert(c[j] == x[j] && c[i] == y[i - x.len()]);
        } else {
            assert(c[i] == y[i - x.len()] && c[j] == y[j - x.len()]);
        }
    }
}

/// A row over an ascending sequence repeats no triple.
proof fn lemma_row_no_dup(a: u64, s: Seq<u64>)
    requires
        ascending(s),
    ensures
        row(a, s).no_duplicates(),
    decreases s.len(),
{
    if s.len() > 0 {
        lemma_ascending_drop_last(s);
        lemma_row_no_dup(a, s.drop_last());
        if a < s.last() {
            let t = (wide_product(a, s.last()), a, s.last());
            lemma_row_contains(a, s.drop_last(), t);
            if row(a, s.drop_last()).contains(t) {
                let k = choose|k: int|
                    0 <= k < s.drop_last().len() && s.drop_last()[k] == t.2;
                assert(s[k] == s[s.len() - 1]);
                assert(false);
            }
            lemma_push_no_dup(row(a, s.drop_last()), t);
        }
    }
}

/// The rows over the first `k` members of an ascending sequence repeat
/// no triple: rows of different members differ in the left member.
proof fn lemma_rows_no_dup(s: Seq<u64>, k: int)
    requires
        ascending(s),
        0 <= k <= s.len(),
    ensures
        rows(s.take(k), s).no_duplicates(),
    decreases k,
{
    if k == 0 {
        assert(s.take(0).len() == 0);
    } else {
        lemma_rows_no_dup(s, k - 1);
        let left = s.take(k);
        assert(left.drop_last() =~= s.take(k - 1));
        assert(left.last() == s[k - 1]);
        let prev = rows(s.take(k - 1), s);
        let rw = row(s[k - 1], s);
        lemma_row_no_dup(s[k - 1], s);
        assert forall|i: int, j: int|
            0 <= i < prev.len() && 0 <= j < rw.len() implies prev[i] != rw[j] by {
            assert(prev.contains(prev[i]));
            assert(rw.contains(rw[j]));
            lemma_rows_contains(s.take(k - 1), s, prev[i]);
            lemma_row_contains(s[k - 1], s, rw[j]);
            if prev[i] == rw[j] {
                let m = choose|m: int|
                    0 <= m < s.take(k - 1).len() && #[trigger] s.take(k - 1)[m] == prev[i].1;
                assert(s[m] == prev[i].1);
                assert(s[m] < s[k - 1]);
                assert(false);
            }
        }
        assert(prev.disjoint(rw));
        lemma_add_no_dup(prev, rw);
    }
}

/// Relies on rayon's `par_iter`, `filter_map`, and `collect` into `Vec`:
/// the collect keeps exactly the `Some` results of `pair_triple` over
/// the members of `s`, in the order `s` lists them (rayon's collect into
/// a vector preserves the input order).
#[verifier::external_body]
fn par_row_triples(a: u64, s: &Vec<u64>) -> (r: Vec<(u64, u64, u64)>)
    ensures
        r@ == row(a, s@),
{
    s.par_iter().filter_map(|&b| pair_triple(a, b)).collect()
}

/// Relies on rayon's `par_iter`, `flat_map`, and `collect` into `Vec`:
/// the collect concatenates the per-member rows in the order `s` lists
/// the members (rayon's collect into a vector preserves the input
/// order).
#[verifier::external_body]
fn par_all_triples(s: &Vec<u64>) -> (r: Vec<(u64, u64, u64)>)
    ensures
        r@ == all_pairs(s@),
{
    s.par_iter().flat_map(|&a| par_row_triples(a, s)).collect()
}

/// Pairs every two distinct members of `primes`, in parallel, into the
/// canonical triple (product, lesser, greater); the product wraps on
/// overflow. The result holds exactly the canonical triples of the
/// members of `primes`; when `primes` ascends, no triple repeats and
/// their count is `p * (p - 1) / 2` for `p` members.
pub fn factorize(primes: Vec<u64>) -> (r: Vec<(u64, u64, u64)>)
    ensures
        r@ == all_pairs(primes@),
        forall|t: (u64, u64, u64)| #[trigger]
            r@.contains(t) <==> (primes@.contains(t.1) && primes@.contains(t.2) && t.1 < t.2
                && t.0 == wide_product(t.1, t.2)),
        ascending(primes@) ==> r@.len() == primes@.len() * (primes@.len() - 1) / 2,
        ascending(primes@) ==> r@.no_duplicates(),
{
    let r = par_all_triples(&primes);
    proof {
        let s = primes@;
        assert forall|t: (u64, u64, u64)| #[trigger]
            r@.contains(t) <==> (s.contains(t.1) && s.contains(t.2) && t.1 < t.2 && t.0
                == wide_product(t.1, t.2)) by {
            lemma_rows_contains(s, s, t);
        }
        if ascending(s) {
            let n = s.len() as int;
            assert(s.take(n) =~= s);
            lemma_rows_len(s, n);
            assert(2 * r@.len() == n * (n - 1));
            vstd::arithmetic::div_mod::lemma_div_multiples_vanish(r@.len() as int, 2);
            lemma_rows_no_dup(s, n);
        }
    }
    r
}

/// Law: of two distinct members of the input, exactly one ordering is in
/// the output — the triple that puts the lesser member first appears,
/// and the swapped one never does.
pub proof fn lemma_canonical_ordering(s: Seq<u64>, a: u64, b: u64)
    requires
        s.contains(a),
        s.contains(b),
        a != b,
    ensures
        all_pairs(s).contains((wide_product(a, b), a, b)) <==> a < b,
        all_pairs(s).contains((wide_product(b, a), b, a)) <==> b < a,
{
    lemma_rows_contains(s, s, (wide_product(a, b), a, b));
    lemma_rows_contains(s, s, (wide_product(b, a), b, a));
}

} // verus!
