use nanorand::{Rng, WyRand};
use rollsum::{Gear, RollingHash};

fn rand_data(len: usize, seed: u64) -> Vec<u8> {
    let mut data = vec![0u8; len];
    let mut rng = WyRand::new_seed(seed);
    rng.fill_bytes(&mut data);
    data
}

#[test]
fn effective_window_size() {
    let ones = vec![0x1u8; 1024];
    let zeroes = vec![0x0u8; 1024];

    let mut gear = Gear::new();
    gear.roll(&ones);
    let digest = gear.digest();

    let mut gear = Gear::new();
    gear.roll(&zeroes);

    for (i, &b) in ones.iter().enumerate() {
        if gear.digest() == digest {
            assert_eq!(i, rollsum::gear::WINDOW_SIZE);
            return;
        }
        gear.roll_byte(b);
    }

    panic!("matching digest not found");
}

#[test]
fn gear_digest_golden_values() {
    let mut e = Gear::new();
    assert_eq!(e.digest(), 0);
    let ramp: Vec<u8> = (0..64u32).map(|i| i as u8).collect();
    e.roll(&ramp);
    assert_eq!(e.digest(), 0x466d_0180_586e_e29e);

    let mut e = Gear::new();
    e.roll(b"abc");
    assert_eq!(e.digest(), 0x7c88_11ea_95d5_3265);
}

#[test]
fn gear_roll_byte_matches_roll() {
    let data = rand_data(300, 21);
    let mut one_by_one = Gear::new();
    for &b in &data {
        one_by_one.roll_byte(b);
    }
    let mut all_at_once = Gear::new();
    all_at_once.roll(&data);
    assert_eq!(one_by_one.digest(), all_at_once.digest());

    let mut split = Gear::new();
    split.roll(&data[..97]);
    split.roll(&data[97..]);
    assert_eq!(split.digest(), all_at_once.digest());
}

#[test]
fn gear_reset_equivalence() {
    let noise = rand_data(500, 31);
    let data = rand_data(200, 32);

    let mut reused = Gear::new();
    reused.roll(&noise);
    reused.reset();
    reused.roll(&data);

    let mut fresh = Gear::new();
    fresh.roll(&data);
    assert_eq!(reused.digest(), fresh.digest());
}

#[test]
fn gear_window_locality() {
    // Any prefix that leaves 64 bytes in place does not change the digest.
    let data = rand_data(2048, 41);
    let full = {
        let mut e = Gear::new();
        e.roll(&data);
        e.digest()
    };
    for k in [1usize, 64, 500, 2048 - 64] {
        let mut e = Gear::new();
        e.roll(&data[k..]);
        assert_eq!(e.digest(), full);
    }
}

#[test]
fn gear_find_chunk_edge_first_match() {
    let data = rand_data(1 << 15, 51);
    let mut engine = Gear::new();
    let r = engine.find_chunk_edge_cond(&data, |d: u64| d & 0xFF == 0);
    let i = r.expect("an 8-bit match is all but certain in 32 KiB");
    // The returned offset is the first matching position.
    let mut scan = Gear::new();
    for (j, &b) in data[..i].iter().enumerate() {
        scan.roll_byte(b);
        let matched = scan.digest() & 0xFF == 0;
        assert_eq!(matched, j == i - 1);
    }
}
