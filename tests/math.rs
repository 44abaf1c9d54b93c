use prime_sieve::math::{
    best_max_for_sieve, best_partitioning, find_candidates, init_primes, sieve_page,
    CheckedSquare, SAFE_MAX,
};
use prime_sieve::partition::Partition;

fn is_prime(n: u64) -> bool {
    n >= 2 && (2..n).all(|d| n % d != 0)
}

#[test]
fn best_partitioning_works_for_even() {
    let ans = best_partitioning(2, 8, 2);
    let expected = vec![Some(Partition { from: 2, delta: 3 }), Some(Partition { from: 5, delta: 3 })];
    assert_eq!(ans, expected);
}

#[test]
fn best_partitioning_works_for_odd() {
    let ans = best_partitioning(7, 24, 3);
    let expected = vec![
        Some(Partition { from: 7, delta: 6 }),
        Some(Partition { from: 13, delta: 6 }),
        Some(Partition { from: 19, delta: 5 }),
    ];
    assert_eq!(ans, expected);
}

#[test]
fn best_partitioning_works_for_overflow() {
    let ans = best_partitioning(2, 7, 4);
    let expected = vec![
        Some(Partition { from: 2, delta: 2 }),
        Some(Partition { from: 4, delta: 2 }),
        Some(Partition { from: 6, delta: 1 }),
        None,
    ];
    assert_eq!(ans, expected);
}

#[test]
fn best_max_for_sieve_works_for_2() {
    let ans = best_max_for_sieve(2, 100).ok().unwrap();
    assert_eq!(ans, 4)
}

#[test]
fn best_max_for_sieve_works_for_trivial() {
    let ans = best_max_for_sieve(11, 500).ok().unwrap();
    assert_eq!(ans, 121)
}

#[test]
fn best_max_for_sieve_works_for_max() {
    let ans = best_max_for_sieve(11, 100).ok().unwrap();
    assert_eq!(ans, 100)
}

#[test]
fn best_max_for_sieve_refuses_unsafe_square() {
    assert!(best_max_for_sieve(SAFE_MAX, u64::MAX).is_err());
    assert!(best_max_for_sieve(u64::MAX, 7).is_err());
    let largest = SAFE_MAX - 1;
    assert_eq!(best_max_for_sieve(largest, u64::MAX).ok(), Some(largest * largest));
}

#[test]
fn checked_square_of_values() {
    assert_eq!(3u64.checked_square(), Some(9));
    assert_eq!(SAFE_MAX.checked_square(), None);
    assert_eq!((SAFE_MAX - 1).checked_square(), Some((SAFE_MAX - 1) * (SAFE_MAX - 1)));
}

#[test]
fn best_partitioning_more_parts_than_values() {
    let ans = best_partitioning(0, 3, 5);
    let expected = vec![
        Some(Partition { from: 0, delta: 1 }),
        Some(Partition { from: 1, delta: 1 }),
        Some(Partition { from: 2, delta: 1 }),
        None,
        None,
    ];
    assert_eq!(ans, expected);
}

#[test]
fn best_partitioning_covers_range_without_gaps() {
    for parts in 1..9usize {
        for to in 1..40usize {
            let ps = best_partitioning(3, 3 + to, parts);
            assert_eq!(ps.len(), parts);
            let mut next = 3;
            let mut exhausted = false;
            for p in ps {
                match p {
                    Some(p) => {
                        assert!(!exhausted);
                        assert!(p.delta > 0);
                        assert_eq!(p.from, next);
                        next = p.from + p.delta;
                    }
                    None => exhausted = true,
                }
            }
            assert_eq!(next, 3 + to);
        }
    }
}

#[test]
fn best_partitioning_empty_and_zero_parts() {
    assert_eq!(best_partitioning(5, 5, 3), vec![None, None, None]);
    assert_eq!(best_partitioning(5, 9, 0), vec![]);
}

#[test]
fn init_primes_is_bootstrap_list() {
    assert_eq!(init_primes(), vec![2, 3, 5, 7, 11]);
}

#[test]
fn first_pass_keeps_primes_up_to_121_and_drops_121() {
    let known = init_primes();
    let found = find_candidates(&known, Partition { from: 11, delta: 111 }).ok().unwrap();
    assert!(!found.contains(&121));
    let expected: Vec<u64> = (11..=121).filter(|&n| is_prime(n)).collect();
    assert_eq!(found, expected);
    for p in 12..=121u64 {
        if is_prime(p) {
            assert!(found.contains(&p));
        }
    }
}

#[test]
fn find_candidates_small_range() {
    let known = vec![2, 3];
    let found = find_candidates(&known, Partition { from: 3, delta: 7 }).ok().unwrap();
    assert_eq!(found, vec![3, 5, 7]);
    let none = find_candidates(&known, Partition { from: 30, delta: 0 }).ok().unwrap();
    assert!(none.is_empty());
}

#[test]
fn find_candidates_refuses_unsafe_values() {
    let known = init_primes();
    let edge = SAFE_MAX as usize;
    assert!(find_candidates(&known, Partition { from: edge, delta: 1 }).is_ok());
    assert!(find_candidates(&known, Partition { from: edge, delta: 2 }).is_err());
    assert!(find_candidates(&known, Partition { from: edge + 5, delta: 0 }).is_ok());
}

#[test]
fn sieve_page_drops_multiples_of_the_page() {
    let page = vec![13, 17];
    let candidates = vec![169, 173, 179, 221, 289, 293];
    let kept = sieve_page(&page, &candidates).ok().unwrap();
    assert_eq!(kept, vec![173, 179, 293]);
}

#[test]
fn sieve_page_again_changes_nothing() {
    let page = vec![13, 17];
    let candidates = vec![169, 173, 179, 221];
    let kept = sieve_page(&page, &candidates).ok().unwrap();
    assert_eq!(sieve_page(&page, &kept).ok().unwrap(), kept);
    let more = vec![169, 173, 179, 181, 221, 223];
    let kept_more = sieve_page(&page, &more).ok().unwrap();
    assert!(!kept_more.contains(&169));
    assert!(!kept_more.contains(&221));
    assert_eq!(kept_more, vec![173, 179, 181, 223]);
}

#[test]
fn sieve_page_refuses_unsafe_candidates() {
    let page = vec![2, 3];
    assert!(sieve_page(&page, &vec![5, SAFE_MAX + 1]).is_err());
    assert!(sieve_page(&page, &vec![5, SAFE_MAX]).is_ok());
    assert_eq!(sieve_page(&page, &vec![]).ok().unwrap(), Vec::<u64>::new());
}

#[test]
fn excluded_values_have_divisor_in_list() {
    let list = vec![2, 3, 5, 7, 11, 13];
    let candidates: Vec<u64> = (2..200).collect();
    let kept = sieve_page(&list, &candidates).ok().unwrap();
    for &c in &candidates {
        if kept.contains(&c) {
            assert!(list.iter().all(|&d| c % d != 0 || d == c));
        } else {
            assert!(list.iter().any(|&d| c % d == 0));
        }
    }
    assert!(kept.contains(&13));
}

#[test]
fn later_page_keeps_no_multiple_of_its_primes() {
    let first = vec![2, 3, 5, 7, 11];
    let candidates = find_candidates(&first, Partition { from: 12, delta: 600 }).ok().unwrap();
    let page = vec![13, 17, 19, 23];
    let kept = sieve_page(&page, &candidates).ok().unwrap();
    for &x in &kept {
        for &p in &page {
            assert!(x % p != 0 || x == p);
        }
    }
    assert!(kept.contains(&13));
    assert!(!kept.contains(&169));
    assert!(!kept.contains(&221));
    assert!(kept.contains(&599));
}
