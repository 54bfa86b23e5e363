use ad::hash::mod_hash::mod_hash;
use ad::heap::heap_sort::heap_sort;
use ad::numbers::eratos::{eratos, prime_factors};
use ad::numbers::gcd::{gcd_euclid, gcd_using_prime_factors};
use ad::sort::mergesort::mergesort;
use ad::sort::simple_sort::{bubble_sort, insertion_sort, selection_sort};
use ad::string_matching::kmp::{compute_prefix_map, kmp_find};

#[test]
pub fn simple_sort_test() {
    let start: Vec<i64> = vec![1, 5, 7, 3, 2, 4, 9, 10, 8, 6];
    let mut goal = start.clone();
    goal.sort();

    let mut array = start.clone();
    selection_sort(&mut array);
    assert_eq!(array, goal);

    array = start.clone();
    insertion_sort(&mut array);
    assert_eq!(array, goal);

    array = start.clone();
    bubble_sort(&mut array);
    assert_eq!(array, goal);
}

#[test]
pub fn mergesort_test() {
    let start: Vec<i64> = vec![1, 5, 7, 3, 2, 4, 9, 10, 8, 6];
    let mut goal = start.clone();
    goal.sort();

    let mut array = start.clone();
    mergesort(&mut array);
    assert_eq!(array, goal);
}

#[test]
pub fn mergesort_edges_test() {
    let mut empty: Vec<i64> = Vec::new();
    mergesort(&mut empty);
    assert_eq!(empty, Vec::<i64>::new());

    let mut one: Vec<i64> = vec![9];
    mergesort(&mut one);
    assert_eq!(one, vec![9]);

    let mut dup: Vec<i64> = vec![2, 1, 2, 1];
    mergesort(&mut dup);
    assert_eq!(dup, vec![1, 1, 2, 2]);

    let mut single: Vec<i64> = vec![4, 4];
    insertion_sort(&mut single);
    assert_eq!(single, vec![4, 4]);

    let mut empty2: Vec<i64> = Vec::new();
    insertion_sort(&mut empty2);
    assert_eq!(empty2, Vec::<i64>::new());
}

#[test]
pub fn heap_sort_test() {
    let mut start: Vec<i64> = vec![1, 5, 7, 3, 2, 4, 9, 10, 8, 6];
    let mut goal = start.clone();
    goal.sort();

    heap_sort(&mut start);
    assert_eq!(start, goal);
}

#[test]
pub fn mod_hash_test() {
    assert_eq!(mod_hash(vec![97], 5), 97 % 5);
    assert_eq!(mod_hash(123_456_789u32.to_be_bytes().into(), 27), 123_456_789u32 % 27);
    assert_eq!(mod_hash(vec![0x01, 0x1C, 0x4D, 0xFA, 0xF1], 97), 75);
}

#[test]
pub fn mod_hash_empty_test() {
    assert_eq!(mod_hash(Vec::new(), 97), 0);
    assert_eq!(mod_hash(vec![0, 0, 7], 2), 1);
}

#[test]
pub fn gcd_euclid_test() {
    assert_eq!(gcd_euclid(8, 12), 4);
    assert_eq!(gcd_euclid(84, 231), 21);
    assert_eq!(gcd_euclid(233, 144), 1);
}

#[test]
pub fn gcd_euclid_zero_test() {
    assert_eq!(gcd_euclid(0, 12), 12);
    assert_eq!(gcd_euclid(0, 0), 0);
    assert_eq!(gcd_euclid(7, 7), 7);
}

#[test]
pub fn eratos_test() {
    let primes_below_100 =
        vec![2, 3, 5, 7, 11, 13, 17, 19, 23, 29, 31, 37, 41, 43, 47, 53, 59, 61, 67, 71, 73, 79, 83, 89, 97];
    let mut sieve = eratos(100);
    for p in primes_below_100 {
        assert!(sieve[p]);
        sieve[p] = false;
    }
    for b in sieve {
        assert!(!b);
    }
}

#[test]
pub fn eratos_edges_test() {
    let sieve = eratos(0);
    assert_eq!(sieve, vec![false]);
    let sieve = eratos(1);
    assert_eq!(sieve, vec![false, false]);
    let sieve = eratos(10);
    assert!(!sieve[4]);
    assert!(sieve[7]);
}

#[test]
pub fn prime_factors_test() {
    assert_eq!(prime_factors(1), vec![]);
    assert_eq!(prime_factors(2), vec![2]);
    assert_eq!(prime_factors(6), vec![2, 3]);
    assert_eq!(prime_factors(22), vec![2, 11]);
    assert_eq!(prime_factors(152), vec![2, 2, 2, 19]);
    assert_eq!(prime_factors(200), vec![2, 2, 2, 5, 5]);
}

#[test]
pub fn test_compute_prefix_map() {
    assert_eq!(compute_prefix_map("ababaca"), vec![0, 0, 1, 2, 3, 0, 1]);
    assert_eq!(compute_prefix_map("gegend"), vec![0, 0, 1, 2, 0, 0]);
}

#[test]
pub fn test_kmp_find() {
    assert_eq!(kmp_find("aaab", "aaab"), Some(0));
    assert_eq!(kmp_find("aaaaaaaaaaaaaaaaaaaaab", "ab"), Some(20));
    assert_eq!(kmp_find("the quick brown fox jumps over the lazy dog", "laz"), Some(35));
    assert_eq!(kmp_find("foobar", "baz"), None);
}

#[test]
pub fn kmp_edges_test() {
    assert_eq!(kmp_find("", "a"), None);
    assert_eq!(kmp_find("abc", "abc"), Some(0));
    assert_eq!(kmp_find("aaa", "aa"), Some(0));
}

#[test]
pub fn gcd_using_prime_factors_test() {
    assert_eq!(gcd_using_prime_factors(8, 12), 4);
    assert_eq!(gcd_using_prime_factors(84, 231), 21);
    assert_eq!(gcd_using_prime_factors(233, 144), 1);
}

#[test]
pub fn gcd_agreement_test() {
    for (u, v) in [(1, 1), (1, 9), (12, 18), (100, 75), (17, 17), (360, 48)] {
        assert_eq!(gcd_using_prime_factors(u, v), gcd_euclid(u, v));
    }
}
