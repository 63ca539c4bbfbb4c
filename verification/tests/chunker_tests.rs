use nanorand::{Rng, WyRand};
use rollsum::{Bup, Chunker, Gear, RollingHash, RollingHashChunker};

fn rand_data(len: usize, seed: u64) -> Vec<u8> {
    let mut data = vec![0u8; len];
    let mut rng = WyRand::new_seed(seed);
    rng.fill_bytes(&mut data);
    data
}

#[test]
fn with_mask_gear_finds_first_masked_zero() {
    let data = rand_data(1 << 15, 61);
    let mut chunker = RollingHashChunker::with_mask(Gear::new(), 0x3Fu64);
    let i = chunker
        .chunk_end(&data)
        .expect("a 6-bit match is all but certain in 32 KiB");
    // Verify against a byte-by-byte scan with a bare engine.
    let mut scan = Gear::new();
    for (j, &b) in data[..i].iter().enumerate() {
        scan.roll_byte(b);
        let matched = scan.digest() & 0x3F == 0;
        assert_eq!(matched, j == i - 1);
    }
}

#[test]
fn with_mask_bup_finds_first_masked_zero() {
    let data = rand_data(1 << 15, 71);
    let mut chunker = RollingHashChunker::with_mask(Bup::new(), 0x3Fu32);
    let i = chunker
        .chunk_end(&data)
        .expect("a 6-bit match is all but certain in 32 KiB");
    let mut scan = Bup::new();
    for (j, &b) in data[..i].iter().enumerate() {
        scan.roll_byte(b);
        let matched = scan.digest() & 0x3F == 0;
        assert_eq!(matched, j == i - 1);
    }
}

#[test]
fn chunker_round_trip() {
    // Chunks handed out in order reassemble the prefix of the buffer that
    // was fully chunked; the remainder is the caller's to flush.
    let data = rand_data(1 << 16, 81);
    let mut chunker = RollingHashChunker::with_mask(Gear::new(), 0xFFu64);
    let mut rebuilt: Vec<u8> = Vec::new();
    let mut pos = 0usize;
    while let Some(i) = chunker.chunk_end(&data[pos..]) {
        rebuilt.extend_from_slice(&data[pos..pos + i]);
        pos += i;
    }
    rebuilt.extend_from_slice(&data[pos..]);
    assert_eq!(rebuilt, data);
}

#[test]
fn chunker_resets_engine_between_chunks() {
    // After a boundary the next chunk's digest starts from the fresh state.
    let data = rand_data(1 << 15, 91);
    let mut chunker = RollingHashChunker::with_mask(Gear::new(), 0x7Fu64);
    let first = chunker.chunk_end(&data).expect("first boundary");
    let second_rel = chunker.chunk_end(&data[first..]).expect("second boundary");
    // A chunker started directly at the first boundary finds the same
    // second boundary.
    let mut late = RollingHashChunker::with_mask(Gear::new(), 0x7Fu64);
    let second_fresh = late.chunk_end(&data[first..]).expect("second boundary");
    assert_eq!(second_rel, second_fresh);
}
