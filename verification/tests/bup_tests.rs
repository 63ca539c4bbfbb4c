use nanorand::{Rng, WyRand};
use rollsum::{Bup, RollingHash};

fn rand_data(len: usize, seed: u64) -> Vec<u8> {
    let mut data = vec![0u8; len];
    let mut rng = WyRand::new_seed(seed);
    rng.fill_bytes(&mut data);
    data
}

fn sum(buf: &[u8]) -> u32 {
    let mut e = Bup::new();
    e.roll(buf);
    e.digest()
}

#[test]
fn bup_selftest() {
    let selftest_size: usize = 100000;
    let window_size: usize = 64;
    let buf = rand_data(selftest_size, 0x01020304);

    let sum1a: u32 = sum(&buf[0..]);
    let sum1b: u32 = sum(&buf[1..]);

    let sum2a: u32 = sum(&buf[selftest_size - window_size * 5 / 2..selftest_size - window_size]);
    let sum2b: u32 = sum(&buf[0..selftest_size - window_size]);

    let sum3a: u32 = sum(&buf[0..window_size + 4]);
    let sum3b: u32 = sum(&buf[3..window_size + 4]);

    assert_eq!(sum1a, sum1b);
    assert_eq!(sum2a, sum2b);
    assert_eq!(sum3a, sum3b);
}

#[test]
fn count_bits() {
    // Ignores the bit just above the matched prefix.
    assert_eq!(rollsum::bup::count_bits(1, 0b001), 1);
    assert_eq!(rollsum::bup::count_bits(1, 0b011), 1);
    assert_eq!(rollsum::bup::count_bits(1, 0b101), 2);
    assert_eq!(rollsum::bup::count_bits(1, 0b111), 2);
    assert_eq!(rollsum::bup::count_bits(1, 0xFFFFFFFF), 31);

    assert_eq!(rollsum::bup::count_bits(5, 0b0001011111), 6);
    assert_eq!(rollsum::bup::count_bits(5, 0b1011011111), 7);
    assert_eq!(rollsum::bup::count_bits(5, 0xFFFFFFFF), 31);
}

#[test]
fn count_bits_is_monotone_in_chunk_bits() {
    for chunk_bits in 1..31 {
        let r = rollsum::bup::count_bits(chunk_bits, 0);
        assert_eq!(r, chunk_bits);
    }
}

#[test]
fn bup_fresh_digest_value() {
    let e = Bup::new();
    assert_eq!(e.digest(), 0x07c0_e840);
}

#[test]
fn bup_digest_golden_values() {
    let data: Vec<u8> = (0..1000u32).map(|i| ((i * 7 + 3) % 256) as u8).collect();
    assert_eq!(sum(&data), 0x27a0_5a00);
    assert_eq!(sum(&[1u8; 64]), 0x0800_f060);
}

#[test]
fn bup_roll_byte_matches_roll() {
    let data = rand_data(300, 7);
    let mut one_by_one = Bup::new();
    for &b in &data {
        one_by_one.roll_byte(b);
    }
    let mut all_at_once = Bup::new();
    all_at_once.roll(&data);
    assert_eq!(one_by_one.digest(), all_at_once.digest());

    let mut split = Bup::new();
    split.roll(&data[..123]);
    split.roll(&data[123..]);
    assert_eq!(split.digest(), all_at_once.digest());
}

#[test]
fn bup_reset_equivalence() {
    let noise = rand_data(500, 11);
    let data = rand_data(200, 12);

    let mut reused = Bup::new();
    reused.roll(&noise);
    reused.reset();
    reused.roll(&data);

    let mut fresh = Bup::new();
    fresh.roll(&data);
    assert_eq!(reused.digest(), fresh.digest());
}

#[test]
fn bup_window_locality() {
    // Only the final 64 bytes matter once the stream is long enough.
    let data = rand_data(4096, 99);
    for k in [1usize, 63, 64, 1000, 4096 - 64] {
        assert_eq!(sum(&data[k..]), sum(&data));
    }
}

#[test]
fn bup_find_chunk_edge_resets_and_resumes() {
    let data = rand_data(1 << 16, 5);
    let mut engine = Bup::new();
    let mut remaining: &[u8] = &data;
    let mut found = 0u32;
    while let Some(i) = engine.find_chunk_edge_cond(remaining, |d: u32| d & 0x1F == 0x1F) {
        assert!(i >= 1 && i <= remaining.len());
        // The engine was reset: recomputing the chunk digest from scratch
        // must match what a fresh engine says about those bytes.
        let mut fresh = Bup::new();
        fresh.roll(&remaining[..i]);
        assert!(fresh.digest() & 0x1F == 0x1F);
        remaining = &remaining[i..];
        found += 1;
    }
    // No edge in the tail: a fresh engine agrees byte for byte.
    let mut fresh = Bup::new();
    for &b in remaining.iter() {
        fresh.roll_byte(b);
        assert!(fresh.digest() & 0x1F != 0x1F);
    }
    assert!(found > 0);
}
