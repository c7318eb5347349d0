use fractal_flames::alg::combinations::{Combinations, CombinatoricsOps};

#[test]
fn test_factorial_zero() {
    assert_eq!((0 as u8).factorial().to_u64_digits(), vec![1]);
}

#[test]
fn test_factorial_small_int() {
    assert_eq!((2 as u8).factorial().to_u64_digits(), vec![2]);
    assert_eq!((3 as u8).factorial().to_u64_digits(), vec![6]);
    assert_eq!((4 as u8).factorial().to_u64_digits(), vec![24]);
    assert_eq!((5 as u8).factorial().to_u64_digits(), vec![120]);
}

#[test]
fn test_compute_combinations_when_pool_equals_number_of_mutators() {
    let reference: Vec<u64> = vec![
        49,
        1176,
        18424,
        211876,
        1906884,
        13983816,
        85900584,
        450978066,
        2054455634,
        8217822536,
        29135916264,
        92263734836,
        262596783764,
        675248872536,
        1575580702584,
        3348108992991,
        6499270398159,
        11554258485616,
        18851684897584,
        28277527346376,
        39049918716424,
        49699896548176,
        58343356817424,
        63205303218876,
        63205303218876,
        58343356817424,
        49699896548176,
        39049918716424,
        28277527346376,
        18851684897584,
        11554258485616,
        6499270398159,
        3348108992991,
        1575580702584,
        675248872536,
        262596783764,
        92263734836,
        29135916264,
        8217822536,
        2054455634,
        450978066,
        85900584,
        13983816,
        1906884,
        211876,
        18424,
        1176,
        49,
        1,
    ];

    let mut combinations = Combinations::new();
    let all_combinations: Vec<u64> =
        (1..=49).map(|elem| combinations.combinations(49, elem)).collect();

    assert_eq!(reference, all_combinations);
}

#[test]
fn test_unrank() {
    let mut combinations = Combinations::new();
    let mut combo = combinations.unrank(4, 4, 3);

    assert_eq!(combo, vec![2, 3, 4]);

    combo = combinations.unrank(8, 5, 3);
    assert_eq!(combo, vec![2, 3, 5]);
}

#[test]
fn test_rank() {
    let mut combinations = Combinations::new();
    let rank = combinations.rank(&vec![2, 3, 5], 5, 3);

    assert_eq!(rank, 8);

    let rank = combinations.rank(&vec![2, 3, 4], 4, 3);
    assert_eq!(rank, 4);

    let rank = combinations.rank(&vec![27], 48, 1);
    println!("{:}", rank);
}

#[test]
fn rank_of_single_position_is_the_position() {
    let mut combinations = Combinations::new();
    assert_eq!(combinations.rank(&vec![27], 48, 1), 27);
    assert_eq!(combinations.rank(&vec![1], 48, 1), 1);
    assert_eq!(combinations.rank(&vec![48], 48, 1), 48);
}

#[test]
fn factorial_of_large_numbers_is_exact() {
    assert_eq!((20 as u8).factorial().to_u64_digits(), vec![2432902008176640000]);
    // 21! = 51090942171709440000 = 2 * 2^64 + 14197454024290336768
    assert_eq!((21 as u8).factorial().to_u64_digits(), vec![14197454024290336768, 2]);
}

#[test]
fn combinations_symmetry_and_pascal_up_to_30() {
    let mut c = Combinations::new();
    for n in 0u8..=30 {
        for k in 0u8..=n {
            assert_eq!(c.combinations(n, k), c.combinations(n, n - k));
            if n >= 1 && k >= 1 {
                assert_eq!(
                    c.combinations(n, k),
                    c.combinations(n - 1, k - 1) + c.combinations(n - 1, k)
                );
            }
        }
    }
    assert_eq!(c.combinations(30, 15), 155117520);
}

#[test]
fn combinations_edges() {
    let mut c = Combinations::new();
    for n in [0u8, 1, 2, 17, 200, 255] {
        assert_eq!(c.combinations(n, n), 1);
    }
    assert_eq!(c.combinations(0, 0), 1);
    assert_eq!(c.combinations(0, 1), 0);
    assert_eq!(c.combinations(3, 4), 0);
    assert_eq!(c.combinations(254, 255), 0);
    assert_eq!(c.combinations(5, 0), 1);
    assert_eq!(c.combinations(255, 1), 255);
    assert_eq!(c.combinations(255, 4), 172061505);
}

#[test]
fn combinations_peak_of_49() {
    let mut c = Combinations::new();
    assert_eq!(c.combinations(49, 24), 63205303218876);
    assert_eq!(c.combinations(49, 25), 63205303218876);
    for k in 1u8..=48 {
        assert_eq!(c.combinations(49, k), c.combinations(49, 49 - k));
        assert!(c.combinations(49, k) <= 63205303218876);
    }
}

#[test]
fn checked_combinations_detects_overflow() {
    let mut c = Combinations::new();
    assert_eq!(c.checked_combinations(67, 33), Some(14226520737620288370));
    assert_eq!(c.checked_combinations(68, 34), None);
    assert_eq!(c.checked_combinations(255, 127), None);
    assert_eq!(c.checked_combinations(255, 255), Some(1));
    assert_eq!(c.checked_combinations(3, 200), Some(0));
    // a refused count is not cached
    assert_eq!(c.lookup(68, 34), None);
    assert_eq!(c.lookup(67, 33), Some(14226520737620288370));
}

#[test]
fn key_packs_two_bytes() {
    assert_eq!(Combinations::key(0, 0), 0);
    assert_eq!(Combinations::key(0, 255), 255);
    assert_eq!(Combinations::key(1, 0), 256);
    assert_eq!(Combinations::key(49, 24), 49 * 256 + 24);
    assert_eq!(Combinations::key(255, 255), 65535);
}

#[test]
fn lookup_sees_what_was_computed() {
    let mut c = Combinations::new();
    assert_eq!(c.lookup(10, 3), None);
    assert_eq!(c.combinations(10, 3), 120);
    assert_eq!(c.lookup(10, 3), Some(120));
    assert_eq!(c.lookup(10, 4), None);
    // pairs that are answered without computing are not cached
    assert_eq!(c.combinations(10, 10), 1);
    assert_eq!(c.lookup(10, 10), None);
    assert_eq!(c.combinations(10, 3), 120);
}

#[test]
fn unrank_enumerates_in_lexicographic_order() {
    let mut c = Combinations::new();
    let total = c.combinations(6, 3);
    assert_eq!(total, 20);
    let mut previous: Vec<u8> = Vec::new();
    for rank in 1..=total {
        let combo = c.unrank(rank, 6, 3);
        assert_eq!(combo.len(), 3);
        assert!(combo[0] >= 1 && combo[2] <= 6);
        assert!(combo[0] < combo[1] && combo[1] < combo[2]);
        assert!(previous < combo);
        previous = combo;
    }
    assert_eq!(c.unrank(1, 6, 3), vec![1, 2, 3]);
    assert_eq!(c.unrank(10, 6, 3), vec![1, 5, 6]);
    assert_eq!(c.unrank(20, 6, 3), vec![4, 5, 6]);
}

#[test]
fn rank_and_unrank_round_trip() {
    let mut c = Combinations::new();
    for (n, k) in [(1u8, 1u8), (5, 3), (7, 7), (8, 1), (9, 4), (12, 0), (10, 5)] {
        let total = c.combinations(n, k);
        for rank in 1..=total {
            let combo = c.unrank(rank, n, k);
            assert_eq!(combo.len(), k as usize);
            assert_eq!(c.rank(&combo, n, k), rank);
        }
    }
}

#[test]
fn round_trip_on_a_large_space() {
    let mut c = Combinations::new();
    let total = c.combinations(49, 24);
    for rank in [1u64, 2, 1000, 63205303218875, total] {
        let combo = c.unrank(rank, 49, 24);
        assert_eq!(combo.len(), 24);
        assert_eq!(c.rank(&combo, 49, 24), rank);
        let mut reversed = combo.clone();
        reversed.reverse();
        assert_eq!(c.rank(&reversed, 49, 24), rank);
        let mut rotated = combo.clone();
        rotated.rotate_left(7);
        assert_eq!(c.rank(&rotated, 49, 24), rank);
    }
    assert_eq!(c.unrank(total, 49, 24), (26u8..=49).collect::<Vec<u8>>());
    assert_eq!(c.unrank(1, 49, 24), (1u8..=24).collect::<Vec<u8>>());
}

#[test]
fn rank_accepts_any_order_and_keeps_the_input() {
    let mut c = Combinations::new();
    let shuffled = vec![5u8, 2, 3];
    assert_eq!(c.rank(&shuffled, 5, 3), 8);
    assert_eq!(shuffled, vec![5, 2, 3]);
    assert_eq!(c.rank(&vec![4, 3, 2], 4, 3), 4);
    assert_eq!(c.rank(&vec![], 9, 0), 1);
}

#[test]
fn unrank_out_of_range_is_empty() {
    let mut c = Combinations::new();
    assert_eq!(c.unrank(5, 4, 3), Vec::<u8>::new());
    assert_eq!(c.unrank(u64::MAX, 4, 3), Vec::<u8>::new());
    assert_eq!(c.unrank(21, 6, 3), Vec::<u8>::new());
    assert_eq!(c.unrank(2, 255, 255), Vec::<u8>::new());
    assert_eq!(c.unrank(256, 255, 1), Vec::<u8>::new());
    // more positions than the pool holds
    assert_eq!(c.unrank(1, 3, 4), Vec::<u8>::new());
    assert_eq!(c.unrank(0, 3, 4), Vec::<u8>::new());
    // the empty combination
    assert_eq!(c.unrank(1, 4, 0), Vec::<u8>::new());
    assert_eq!(c.unrank(2, 4, 0), Vec::<u8>::new());
}

#[test]
fn unrank_zero_is_out_of_range() {
    let mut c = Combinations::new();
    assert_eq!(c.unrank(0, 5, 3), Vec::<u8>::new());
    assert_eq!(c.unrank(0, 255, 255), Vec::<u8>::new());
    assert_eq!(c.unrank(0, 1, 1), Vec::<u8>::new());
    assert_eq!(c.unrank(1, 1, 1), vec![1]);
}

#[test]
fn unrank_full_pool() {
    let mut c = Combinations::new();
    assert_eq!(c.unrank(1, 255, 255), (1u8..=255).collect::<Vec<u8>>());
    assert_eq!(c.unrank(255, 255, 1), vec![255]);
    assert_eq!(c.unrank(1, 255, 1), vec![1]);
}
