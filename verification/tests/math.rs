use pyxel_core::input::Pyxel;
use rand::SeedableRng;
use rand_xoshiro::Xoshiro256StarStar;

#[test]
fn random_int_stays_in_range_either_order() {
    let mut rng = Xoshiro256StarStar::seed_from_u64(7);
    for _ in 0..200 {
        let a = Pyxel::random_int(&mut rng, -3, 5);
        assert!((-3..=5).contains(&a));
        let b = Pyxel::random_int(&mut rng, 5, -3);
        assert!((-3..=5).contains(&b));
    }
    assert_eq!(Pyxel::random_int(&mut rng, 4, 4), 4);
}

#[test]
fn random_seed_repeats_the_sequence() {
    let mut rng = Xoshiro256StarStar::seed_from_u64(1);
    Pyxel::random_seed(&mut rng, 123);
    let first: Vec<i32> = (0..5).map(|_| Pyxel::random_int(&mut rng, i32::MIN, i32::MAX)).collect();
    Pyxel::random_seed(&mut rng, 123);
    let second: Vec<i32> = (0..5).map(|_| Pyxel::random_int(&mut rng, i32::MIN, i32::MAX)).collect();
    assert_eq!(first, second);
}

#[test]
fn reseeded_draws_match_with_bounds_swapped() {
    let mut rng = Xoshiro256StarStar::seed_from_u64(0);
    Pyxel::random_seed(&mut rng, 42);
    let x: Vec<i32> = (0..4).map(|_| Pyxel::random_int(&mut rng, -100, 250)).collect();
    Pyxel::random_seed(&mut rng, 42);
    let y: Vec<i32> = (0..4).map(|_| Pyxel::random_int(&mut rng, 250, -100)).collect();
    assert_eq!(x, y);
}
