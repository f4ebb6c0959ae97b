use bingo_gen::seed_random::random_index;
use bingo_gen::SeedRandom;

fn digits(seed: u32) -> Vec<u8> {
    seed.to_string().into_bytes()
}

#[test]
fn next_stays_in_unit_range() {
    // The drawn value num / 2^exp lies in [0, 1): the numerator never
    // reaches the denominator, so the value is never exactly 1.
    let mut src = SeedRandom::new(digits(587062));
    for _ in 0..200 {
        let u = src.next().unwrap();
        if u.exp < 64 {
            assert!(u.num < 1u64 << u.exp);
        }
        // A full mantissa of significance was accumulated.
        assert!(u.num >= 1u64 << 52);
        assert!(u.exp >= 53);
    }
}

#[test]
fn draws_reproduce_for_equal_seeds() {
    let mut a = SeedRandom::new(digits(123456));
    let mut b = SeedRandom::new(digits(123456));
    for _ in 0..50 {
        let ua = a.next().unwrap();
        let ub = b.next().unwrap();
        assert_eq!((ua.num, ua.exp), (ub.num, ub.exp));
    }
    let mut c = SeedRandom::new(digits(123457));
    let uc = c.next().unwrap();
    let ua = SeedRandom::new(digits(123456)).next().unwrap();
    assert_ne!((ua.num, ua.exp), (uc.num, uc.exp));
}

#[test]
fn random_index_stays_in_pool() {
    let mut src = SeedRandom::new(digits(42));
    for len in [1usize, 2, 3, 7, 10, 1000] {
        let u = src.next().unwrap();
        let idx = random_index(len, &u);
        assert!(idx <= len);
    }
    let u = src.next().unwrap();
    assert_eq!(random_index(0, &u), 0);
    assert_eq!(random_index(1, &u), 0);
}
