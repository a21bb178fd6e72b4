//! Prime pairs: sieve a range of 64-bit integers for primes, then pair
//! every two distinct primes into a canonical (product, lesser, greater)
//! triple. The numeric logic is verified; the data-parallel fan-out runs
//! through rayon behind trusted wrappers.

use vstd::prelude::*;

pub mod pairs;
pub mod primality;
pub mod sieve;

pub use pairs::factorize;
pub use primality::is_prime;
pub use sieve::collect_primes;

verus! {

/// A strictly increasing sequence: distinct values, lesser first.
pub open spec fn ascending(s: Seq<u64>) -> bool {
    forall|i: int, j: int| 0 <= i < j < s.len() ==> s[i] < s[j]
}

} // verus!
