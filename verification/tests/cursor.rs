use fractal_flames::alg::big_range_random_cursor::BigRangeRandomCursor;
use fractal_flames::modnar::Modnar;
use std::collections::HashSet;

/// A draw from `lo..=hi`, scaled from the next word of `rnd`.
fn draw_in_range(rnd: &mut Modnar, lo: u64, hi: u64) -> u64 {
    let val = f64::from_bits(rnd.next_word_raw() >> 12 | 0x3ff0000000000000) - 1.0;
    let len = hi.max(lo) - lo.min(hi);
    lo.wrapping_add((len as f64 * val).round() as u64)
}

#[test]
fn test_cursor() {
    let mut cursor = BigRangeRandomCursor::new(0..=1000, &[]);
    let mut rnd = Modnar::new_rng().expect("Failed to get current time");
    let mut set = HashSet::<u64>::new();

    for _ in 0..=1000 {
        let lower = cursor.lower_bound().expect("Iterator exhausted!");
        let rng_number = draw_in_range(&mut rnd, lower, cursor.upper_bound());
        set.insert(cursor.next_(rng_number).expect("Iterator exhausted!"));
    }

    assert_eq!(set.len(), 1001);
}

#[test]
fn cursor_yields_a_permutation_then_nothing() {
    let n: u64 = 500;
    let mut cursor = BigRangeRandomCursor::new(0..=n, &[]);
    let mut rnd = Modnar::with_seed(42);
    let mut seen = vec![false; (n + 1) as usize];
    for _ in 0..=n {
        let lower = cursor.lower_bound().unwrap();
        let value = cursor.next_(draw_in_range(&mut rnd, lower, n)).unwrap();
        assert!(value <= n);
        assert!(!seen[value as usize]);
        seen[value as usize] = true;
    }
    assert!(seen.iter().all(|s| *s));
    assert_eq!(cursor.generated_count(), (n + 1) as u128);
    assert_eq!(cursor.lower_bound(), None);
    assert_eq!(cursor.next_(0), None);
    assert_eq!(cursor.next_(n), None);
    assert_eq!(cursor.generated_count(), (n + 1) as u128);
}

#[test]
fn cursor_sequential_draws_give_the_range_in_order() {
    let mut cursor = BigRangeRandomCursor::new(10..=15, &[]);
    let mut out = Vec::new();
    for candidate in 10..=15 {
        out.push(cursor.next_(candidate).unwrap());
    }
    assert_eq!(out, vec![10, 11, 12, 13, 14, 15]);
    assert_eq!(cursor.next_(15), None);
}

#[test]
fn cursor_follows_the_redirection_table() {
    // always drawing the last slot
    let mut cursor = BigRangeRandomCursor::new(0..=3, &[]);
    assert_eq!(cursor.next_(3), Some(3));
    assert_eq!(cursor.next_(3), Some(0));
    assert_eq!(cursor.next_(3), Some(1));
    assert_eq!(cursor.next_(3), Some(2));
    assert_eq!(cursor.next_(3), None);

    let mut cursor = BigRangeRandomCursor::new(0..=4, &[]);
    assert_eq!(cursor.next_(2), Some(2));
    assert_eq!(cursor.next_(2), Some(0));
    assert_eq!(cursor.next_(4), Some(4));
    assert_eq!(cursor.next_(4), Some(1));
    assert_eq!(cursor.next_(4), Some(3));
    assert_eq!(cursor.next_(4), None);
}

#[test]
fn cursor_with_preexisting_values() {
    let preexisting = [3u64, 7, 9];
    let mut cursor = BigRangeRandomCursor::new(0..=9, &preexisting);
    assert_eq!(cursor.generated_count(), 3);
    assert_eq!(cursor.lower_bound(), Some(3));
    let mut rnd = Modnar::with_seed(7);
    let mut rest = Vec::new();
    for _ in 0..7 {
        let lower = cursor.lower_bound().unwrap();
        rest.push(cursor.next_(draw_in_range(&mut rnd, lower, 9)).unwrap());
    }
    assert_eq!(cursor.next_(9), None);
    for v in preexisting {
        assert!(!rest.contains(&v));
    }
    rest.sort();
    assert_eq!(rest, vec![0, 1, 2, 4, 5, 6, 8]);
}

#[test]
fn cursor_over_a_single_value() {
    let mut cursor = BigRangeRandomCursor::new(5..=5, &[]);
    assert_eq!(cursor.lower_bound(), Some(5));
    assert_eq!(cursor.upper_bound(), 5);
    assert_eq!(cursor.next_(5), Some(5));
    assert_eq!(cursor.next_(5), None);
    assert_eq!(cursor.next_(123), None);
}

#[test]
fn cursor_over_an_inverted_range_is_exhausted() {
    let mut cursor = BigRangeRandomCursor::new(6..=5, &[]);
    assert_eq!(cursor.lower_bound(), None);
    assert_eq!(cursor.next_(5), None);
    assert_eq!(cursor.next_(6), None);
    assert_eq!(cursor.generated_count(), 0);
}

#[test]
fn cursor_reaches_the_top_of_the_u64_range() {
    let lo = u64::MAX - 2;
    let mut cursor = BigRangeRandomCursor::new(lo..=u64::MAX, &[]);
    let mut out = vec![
        cursor.next_(u64::MAX).unwrap(),
        cursor.next_(u64::MAX).unwrap(),
        cursor.next_(u64::MAX).unwrap(),
    ];
    assert_eq!(out, vec![u64::MAX, lo, lo + 1]);
    assert_eq!(cursor.lower_bound(), None);
    assert_eq!(cursor.next_(u64::MAX), None);
    assert_eq!(cursor.next_(0), None);
    assert_eq!(cursor.generated_count(), 3);
    out.sort();
    assert_eq!(out, vec![lo, lo + 1, u64::MAX]);
}

#[test]
fn cursor_full_range_starts_anywhere() {
    let mut cursor = BigRangeRandomCursor::new(0..=u64::MAX, &[]);
    assert_eq!(cursor.next_(u64::MAX), Some(u64::MAX));
    assert_eq!(cursor.next_(1 << 63), Some(1 << 63));
    assert_eq!(cursor.next_(u64::MAX), Some(0));
    assert_eq!(cursor.next_(1 << 63), Some(1));
    assert_eq!(cursor.lower_bound(), Some(4));
    assert_eq!(cursor.generated_count(), 4);
}
