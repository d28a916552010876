use nonet::rng::{seed_from_clock, Rng};

#[test]
fn xorshift_step_from_one() {
    let mut r = Rng::new(1);
    assert_eq!(r.next_u64(), 1082269761);
}

#[test]
fn zero_seed_does_not_stick() {
    let mut r = Rng::new(0);
    let a = r.next_u64();
    let b = r.next_u64();
    assert_ne!(a, 0);
    assert_ne!(a, b);
}

#[test]
fn shuffle_permutes() {
    let mut r = Rng::new(12345);
    let mut v: Vec<usize> = (0..81).collect();
    r.shuffle(&mut v);
    assert_ne!(v, (0..81).collect::<Vec<usize>>());
    let mut sorted = v.clone();
    sorted.sort();
    assert_eq!(sorted, (0..81).collect::<Vec<usize>>());
}

#[test]
fn shuffle_small_vectors() {
    let mut r = Rng::new(5);
    let mut empty: Vec<u8> = Vec::new();
    r.shuffle(&mut empty);
    assert!(empty.is_empty());
    let mut one = vec![4u8];
    r.shuffle(&mut one);
    assert_eq!(one, vec![4u8]);
}

#[test]
fn clock_seed() {
    assert_eq!(seed_from_clock(None), 0x1234_5678);
    assert_eq!(seed_from_clock(Some(42)), 42);
    assert_eq!(seed_from_clock(Some((1u128 << 64) + 7)), 7);
}
