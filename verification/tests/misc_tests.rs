use std::time::Duration;

use rand::RngCore;

use raytracer::seed::seed_bytes;
use raytracer::Timer;

#[test]
fn seed_bytes_are_big_endian() {
    let b = seed_bytes(0x0102030405060708090a0b0c0d0e0f10);
    assert_eq!(b, [1, 2, 3, 4, 5, 6, 7, 8, 9, 10, 11, 12, 13, 14, 15, 16]);
    assert_eq!(seed_bytes(0), [0u8; 16]);
}

#[test]
fn rng_from_seed_is_repeatable() {
    let mut a = raytracer::create_rng_from_seed(432789012409);
    let mut b = raytracer::create_rng_from_seed(432789012409);
    assert_eq!(a.next_u32(), b.next_u32());
}

#[test]
fn timer_expires_after_its_duration() {
    let mut long = Timer::new(Duration::from_secs(3600));
    assert!(!long.tick());
    let mut zero = Timer::new(Duration::ZERO);
    assert!(zero.tick());
    zero.reset();
    assert!(zero.tick());
}

#[test]
fn timer_expires_at_exactly_its_duration() {
    let timer = Timer::new(Duration::from_millis(250));
    assert!(!timer.has_expired(Duration::from_millis(249)));
    assert!(timer.has_expired(Duration::from_millis(250)));
    assert!(timer.has_expired(Duration::from_secs(2)));
}
