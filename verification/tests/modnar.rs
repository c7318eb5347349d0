use fractal_flames::modnar::feedback::BYTE_FEEDBACK;
use fractal_flames::modnar::rnd_vec::RndVec;
use fractal_flames::modnar::{
    hash_time, lsfr_, mix2_64, random_seed_, rng_, seed_for, Generator, Modnar,
};
use std::collections::HashMap;

/// A draw from `lo..=hi`, scaled from the next word of `source`.
fn scaled_draw(source: &mut Modnar, lo: u64, hi: u64) -> u64 {
    let val = f64::from_bits(source.next_word_raw() >> 12 | 0x3ff0000000000000) - 1.0;
    let len = hi.max(lo) - lo.min(hi);
    lo.wrapping_add((len as f64 * val).round() as u64)
}

#[test]
fn test_lsfr() {
    for _ in 0..100 {
        let mut map = HashMap::<u64, u32>::new();
        let mut lsfr = Modnar::new_lsfr(random_seed_().expect("Failed to get current time"));

        for _ in 0..100 {
            let val = scaled_draw(&mut lsfr, 0, 1 << 50);
            if let Some(count) = map.get(&val) {
                map.insert(val, *count + 1);
            } else {
                map.insert(val, 1);
            }
        }
    }
}

#[test]
fn lsfr_steps_are_exact() {
    let mut m = Modnar::new_lsfr(1);
    assert_eq!(lsfr_(&mut m), 0xc70000000000000b);
    let mut m = Modnar::new_lsfr(0x1234);
    assert_eq!(lsfr_(&mut m), 0x8c0000000000001f);
    assert_eq!(lsfr_(&mut m), 0x1d8c000000000001);
    assert_eq!(m.next_word_raw(), (0x1d8c000000000001u64 >> 8) ^ BYTE_FEEDBACK[1]);
    let mut zero = Modnar::new_lsfr(0);
    assert_eq!(lsfr_(&mut zero), 0);
}

#[test]
fn feedback_table_is_linear() {
    assert_eq!(BYTE_FEEDBACK[0], 0);
    assert_eq!(BYTE_FEEDBACK[1], 0xc70000000000000b);
    assert_eq!(BYTE_FEEDBACK[255], 0xbd0000000000000f);
    for a in 0..256usize {
        for b in 0..256usize {
            assert_eq!(BYTE_FEEDBACK[a ^ b], BYTE_FEEDBACK[a] ^ BYTE_FEEDBACK[b]);
        }
    }
}

#[test]
fn rng_steps_are_exact() {
    let mut m = Modnar::with_seed(7);
    assert_eq!(rng_(&mut m), 9453731648485405432);
    assert_eq!(rng_(&mut m), 6081130919743051597);
    assert_eq!(m.next_word_raw(), 17032749615642482400);
    assert_eq!(m.generator(), Generator::Rng);
}

#[test]
fn generators_are_kept() {
    assert_eq!(Modnar::default().generator(), Generator::Dummy);
    assert_eq!(Modnar::new_lsfr(3).generator(), Generator::Lsfr);
    assert_eq!(Modnar::new_rng().unwrap().generator(), Generator::Rng);
    let mut a = Modnar::new_lsfr(99);
    let mut b = Modnar::new_lsfr(99);
    for _ in 0..50 {
        assert_eq!(a.next_word_raw(), b.next_word_raw());
    }
}

#[test]
fn seeds_mix_seconds_and_nanoseconds() {
    assert_eq!(mix2_64(1700000000, 123456789), 124614601237);
    assert_eq!(mix2_64(u64::MAX, 5), 5124);
    assert_eq!(mix2_64(0, 0), 0);
    assert_eq!(hash_time(1700000000, 123456789), 124614601237);
    assert!(random_seed_().is_some());
}

#[test]
fn rnd_vec_selects_by_draw() {
    let mut v = RndVec::<u32>::new().expect("Failed to get current time");
    assert_eq!(v.len(), 0);
    assert_eq!(v.select_range(), (0, usize::MAX as u64));
    v.push(10);
    v.push(20);
    v.push(30);
    assert_eq!(v.len(), 3);
    assert_eq!(v.select_range(), (0, 2));
    assert_eq!(*v.select(0), 10);
    assert_eq!(*v.select(2), 30);
    *v.select_mut(1) = 21;
    assert_eq!(*v.select(1), 21);
    assert_eq!(*v.select(0), 10);
    let first = v.next_word_raw();
    let second = v.next_word_raw();
    assert_ne!(first, second);
}

#[test]
fn rnd_vec_draws_stay_in_range() {
    let mut v = RndVec::<u8>::new().expect("Failed to get current time");
    for i in 0..7u8 {
        v.push(i);
    }
    let (lo, hi) = v.select_range();
    for _ in 0..200 {
        let raw = v.next_word_raw();
        let val = f64::from_bits(raw >> 12 | 0x3ff0000000000000) - 1.0;
        let idx = lo.wrapping_add(((hi - lo) as f64 * val).round() as u64) as usize;
        assert!(idx < v.len());
        assert_eq!(*v.select(idx) as usize, idx);
    }
}

#[test]
fn seed_follows_the_clock_reading() {
    assert_eq!(seed_for(Some((1700000000, 123456789))), Some(124614601237));
    assert_eq!(seed_for(Some((u64::MAX, 5))), Some(5124));
    assert_eq!(seed_for(Some((0, 0))), Some(0));
    assert_eq!(seed_for(None), None);
}

#[test]
fn rng_follows_the_seed() {
    let mut from_clock = Modnar::rng_for(Some(7)).expect("a seed gives a source");
    assert_eq!(from_clock.generator(), Generator::Rng);
    assert_eq!(from_clock.next_word_raw(), 9453731648485405432);
    assert!(Modnar::rng_for(None).is_none());
}

#[test]
fn rnd_vec_follows_the_source() {
    let mut v =
        RndVec::<u8>::for_source(Some(Modnar::with_seed(7))).expect("a source gives a vector");
    assert_eq!(v.len(), 0);
    assert_eq!(v.next_word_raw(), 9453731648485405432);
    assert!(RndVec::<u8>::for_source(None).is_none());
}
