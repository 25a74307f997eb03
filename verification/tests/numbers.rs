use rust_labs::numbers::{
    collatz, collatz_stays_in_range, description, divisors, first_descent, flags_line,
    found_prime, is_collatz, perturbed, pow_table, power_fits, shifted, total,
};

#[test]
fn pow_table_holds_the_powers() {
    let table: [u64; 10] = pow_table(2);
    assert_eq!(table, [2, 4, 8, 16, 32, 64, 128, 256, 512, 1024]);
    let ones: [u64; 3] = pow_table(1);
    assert_eq!(ones, [1, 1, 1]);
    let zeros: [u64; 4] = pow_table(0);
    assert_eq!(zeros, [0, 0, 0, 0]);
    let none: [u64; 0] = pow_table(7);
    assert_eq!(none.len(), 0);
}

#[test]
fn pow_table_reaches_the_last_power_that_fits() {
    // 2^63 fits in a u64, 2^64 does not
    assert!(power_fits(2, 63));
    assert!(!power_fits(2, 64));
    let table: [u64; 63] = pow_table(2);
    assert_eq!(table[62], 1u64 << 63);
}

#[test]
fn power_fits_at_the_edges() {
    assert!(power_fits(0, 0));
    assert!(power_fits(0, 1000));
    assert!(power_fits(1, 1000));
    assert!(power_fits(u64::MAX, 1));
    assert!(!power_fits(u64::MAX, 2));
    assert!(power_fits(56, 11));
    assert!(!power_fits(57, 11));
}

#[test]
fn collatz_steps() {
    assert_eq!(collatz(6), 3);
    assert_eq!(collatz(3), 10);
    assert_eq!(collatz(1), 4);
    assert_eq!(collatz(0), 0);
    assert_eq!(collatz(2), 1);
}

#[test]
fn is_collatz_counts_its_steps() {
    // 6 -> 3 -> 10 -> 5 -> 16 -> 8 -> 4 -> 2 -> 1: eight steps
    assert!(is_collatz(6, 7));
    assert!(!is_collatz(6, 6));
    // one step from two
    assert!(is_collatz(2, 0));
    // from one the way back to one takes three steps
    assert!(!is_collatz(1, 1));
    assert!(is_collatz(1, 2));
    // zero stays zero
    assert!(!is_collatz(0, 100));
}

#[test]
fn collatz_range_is_checked() {
    assert!(collatz_stays_in_range(6, 100));
    assert!(collatz_stays_in_range(0, 100));
    // an odd number whose triple does not fit
    assert!(!collatz_stays_in_range(u64::MAX, 0));
    // an even number halves first; its half is odd and its triple fits
    assert!(collatz_stays_in_range(u64::MAX - 1, 0));
    assert!(!collatz_stays_in_range(u64::MAX - 1, 2));
}

#[test]
fn perturbed_moves_up_by_at_most_five() {
    let mut seen_change = false;
    for _ in 0..200 {
        let moved = perturbed(1000).unwrap();
        assert!((1000..=1005).contains(&moved));
        if moved != 1000 {
            seen_change = true;
        }
    }
    assert!(seen_change);
    if let Some(moved) = perturbed(u64::MAX) {
        assert_eq!(moved, u64::MAX);
    }
    let high = perturbed(u64::MAX - 5);
    assert!(high.is_some());
    assert!(high.unwrap() >= u64::MAX - 5);
}

#[test]
fn shifted_adds() {
    assert_eq!(shifted(7, 5), Some(12));
    assert_eq!(shifted(u64::MAX - 5, 5), Some(u64::MAX));
    assert_eq!(shifted(u64::MAX - 4, 5), None);
    assert_eq!(shifted(u64::MAX, 0), Some(u64::MAX));
}

#[test]
fn total_is_wide_enough() {
    assert_eq!(total(&[1, 2, 3, 4, 5, 6, 7, 8, 9, 10]), 55);
    assert_eq!(total(&[u64::MAX; 10]), 10 * (u64::MAX as u128));
}

#[test]
fn found_prime_counts_as_the_trial_does() {
    // two and three count
    assert!(found_prime(&[0, 1, 4, 6, 8, 9, 10, 12, 2, 14], &[0, 1, 2, 2, 2, 3, 3, 3, 1, 3]));
    assert!(found_prime(&[3; 10], &[1; 10]));
    // five and seven divide themselves in the trial
    assert!(!found_prime(&[5; 10], &[2; 10]));
    assert!(!found_prime(&[7; 10], &[2; 10]));
    // eleven passes
    assert!(found_prime(&[4, 4, 4, 4, 4, 4, 4, 4, 4, 11], &[2, 2, 2, 2, 2, 2, 2, 2, 2, 3]));
    // 121 = 11 * 11 fails at the second trial number
    assert!(!found_prime(&[121; 10], &[11; 10]));
    // nothing counts among these
    assert!(!found_prime(&[0, 1, 4, 6, 8, 9, 10, 25, 35, 49], &[0, 1, 2, 2, 2, 3, 3, 5, 5, 7]));
}

#[test]
fn description_says_what_was_found() {
    assert_eq!(description(true), "Found prime");
    assert_eq!(description(false), "Not found prime");
}

#[test]
fn flags_line_joins_with_commas() {
    assert_eq!(flags_line(&[]), "");
    assert_eq!(flags_line(&[true]), "true");
    assert_eq!(flags_line(&[true, false, false, true]), "true,false,false,true");
}

#[test]
fn divisors_found_below_the_root() {
    let found: Vec<u32> = divisors(55).into_iter().collect();
    assert_eq!(found, vec![1, 5, 11, 55]);
    // the root of a square is no trial number
    let found: Vec<u32> = divisors(36).into_iter().collect();
    assert_eq!(found, vec![1, 2, 3, 4, 9, 12, 18, 36]);
    let found: Vec<u32> = divisors(4).into_iter().collect();
    assert_eq!(found, vec![1, 4]);
    assert!(divisors(1).is_empty());
    assert!(divisors(0).is_empty());
    assert!(divisors(3).is_empty());
    let found: Vec<u32> = divisors(u32::MAX).into_iter().collect();
    assert_eq!(found.first(), Some(&1));
    assert_eq!(found.last(), Some(&u32::MAX));
}

#[test]
fn first_descent_finds_the_first_pair_out_of_order() {
    assert_eq!(first_descent(&[]), None);
    assert_eq!(first_descent(&[1]), None);
    assert_eq!(first_descent(&[1, 2, 3, 4, 5, 6, 7, 8, 9, 10]), None);
    assert_eq!(first_descent(&[1, 1, 1]), None);
    assert_eq!(first_descent(&[1, 2, 3, 4, 6, 5, 7, 8, 9, 3]), Some((6, 5)));
    assert_eq!(first_descent(&[2, 1]), Some((2, 1)));
}
