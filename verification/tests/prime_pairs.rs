use std::collections::HashSet;

use prime_pairs::{collect_primes, factorize, is_prime};

#[test]
fn all_prime() {
    let primes: [u64; 25] = [
        2, 3, 5, 7, 11, 13, 17, 19, 23, 29, 31, 37, 41, 43, 47, 53, 59, 61, 67, 71, 73, 79, 83,
        89, 97,
    ];
    assert!(primes.into_iter().all(is_prime));
}

#[test]
fn no_prime() {
    let non_primes: [u64; 25] = [
        4, 6, 8, 10, 44, 46, 410, 412, 56, 512, 64, 68, 610, 74, 76, 710, 86, 812, 94, 104, 106,
        1012, 116, 1112, 1210,
    ];

    assert!(!non_primes.into_iter().all(is_prime));
}

#[test]
fn collect_prime() {
    let primes: [u64; 25] = [
        2, 3, 5, 7, 11, 13, 17, 19, 23, 29, 31, 37, 41, 43, 47, 53, 59, 61, 67, 71, 73, 79, 83,
        89, 97,
    ];

    assert_eq!(Vec::from(primes), collect_primes(0, 100));
}

#[test]
fn factorized() {
    let primes: Vec<u64> = vec![2, 3, 5, 7];
    let factors: HashSet<(u64, u64, u64)> = HashSet::from([
        (6, 2, 3),
        (10, 2, 5),
        (14, 2, 7),
        (15, 3, 5),
        (21, 3, 7),
        (35, 5, 7),
    ]);

    let got: HashSet<(u64, u64, u64)> = factorize(primes).into_iter().collect();
    assert_eq!(factors, got);
}

#[test]
fn none_of_the_composites_below_ten_is_prime() {
    for n in [0u64, 1, 4, 6, 8, 9] {
        assert!(!is_prime(n));
    }
}

#[test]
fn small_primes_are_prime() {
    for n in [2u64, 3, 5, 7] {
        assert!(is_prime(n));
    }
}

#[test]
fn larger_values() {
    assert!(is_prime(104_729)); // the ten-thousandth prime
    assert!(!is_prime(104_730));
    assert!(!is_prime(91)); // 7 * 13, the least composite with no factor below 7
    assert!(is_prime(4_294_967_291)); // the greatest prime below 2^32
}

#[test]
fn reversed_range_is_empty() {
    assert_eq!(collect_primes(10, 5), Vec::<u64>::new());
    assert_eq!(collect_primes(u64::MAX, 0), Vec::<u64>::new());
}

#[test]
fn single_value_ranges() {
    assert_eq!(collect_primes(7, 7), vec![7]);
    assert_eq!(collect_primes(8, 8), Vec::<u64>::new());
}

#[test]
fn range_not_starting_at_zero() {
    assert_eq!(collect_primes(90, 110), vec![97, 101, 103, 107, 109]);
}

#[test]
fn repeated_collection_is_identical() {
    let first = collect_primes(0, 1000);
    let second = collect_primes(0, 1000);
    assert_eq!(first, second);
}

#[test]
fn factorize_lists_each_pair_lesser_first_once() {
    let triples = factorize(vec![2, 3, 5, 7]);
    for &(p, a, b) in &triples {
        assert!(a < b);
        assert_eq!(p, a * b);
    }
    assert!(triples.contains(&(6, 2, 3)));
    assert!(!triples.contains(&(6, 3, 2)));
}

#[test]
fn factorize_count_is_pairs_of_distinct_members() {
    let primes = collect_primes(0, 100);
    assert_eq!(primes.len(), 25);
    let triples = factorize(primes);
    assert_eq!(triples.len(), 25 * 24 / 2);
    let distinct: HashSet<(u64, u64, u64)> = triples.iter().copied().collect();
    assert_eq!(distinct.len(), triples.len());
}

#[test]
fn factorize_few_members() {
    assert_eq!(factorize(Vec::new()), Vec::new());
    assert_eq!(factorize(vec![5]), Vec::<(u64, u64, u64)>::new());
    assert_eq!(factorize(vec![2, 3]), vec![(6, 2, 3)]);
}

#[test]
fn factorize_equal_members_form_no_pair() {
    assert_eq!(factorize(vec![3, 3]), Vec::<(u64, u64, u64)>::new());
}

#[test]
fn factorize_product_wraps_on_overflow() {
    let triples = factorize(vec![2, u64::MAX]);
    assert_eq!(triples, vec![(u64::MAX.wrapping_mul(2), 2, u64::MAX)]);
    assert_eq!(triples[0].0, 0xFFFF_FFFF_FFFF_FFFE);
}
