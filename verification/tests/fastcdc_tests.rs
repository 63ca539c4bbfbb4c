use rollsum::{Chunker, FastCDC};
use std::cell::RefCell;

/// Deterministic pseudorandom test data from a linear congruential stream.
fn lcg_data(len: usize, seed: u64) -> Vec<u8> {
    let mut v = seed;
    let mut out = Vec::with_capacity(len);
    for _ in 0..len {
        v = v
            .wrapping_mul(6364136223846793005)
            .wrapping_add(1442695040888963407);
        out.push((v >> 33) as u8);
    }
    out
}

/// Drive `chunk_end` over `data` and return every chunk length, in order.
fn chunk_lengths(chunker: &mut FastCDC, data: &[u8]) -> (Vec<usize>, usize) {
    let mut lengths = Vec::new();
    let mut pos = 0usize;
    while let Some(i) = chunker.chunk_end(&data[pos..]) {
        lengths.push(i);
        pos += i;
    }
    (lengths, data.len() - pos)
}

#[test]
fn fastcdc_default_chunk_golden_values() {
    let data = lcg_data(200000, 42);
    let mut chunker = FastCDC::new();
    let (lengths, remainder) = chunk_lengths(&mut chunker, &data);
    assert_eq!(lengths.len(), 23);
    assert_eq!(lengths[0], 4591);
    assert_eq!(lengths[1], 9625);
    assert_eq!(remainder, 12212);
}

#[test]
fn fastcdc_size_bounds() {
    let data = lcg_data(300000, 7);
    let mut chunker = FastCDC::new();
    let (lengths, remainder) = chunk_lengths(&mut chunker, &data);
    assert!(!lengths.is_empty());
    for &l in &lengths {
        assert!(l >= 2048, "chunk shorter than min_size: {}", l);
        assert!(l <= 65536, "chunk longer than max_size: {}", l);
    }
    assert!(remainder < 65536);
}

#[test]
fn fastcdc_custom_chunk_bits_size_bounds() {
    let data = lcg_data(100000, 13);
    let mut chunker = FastCDC::new_with_chunk_bits(8);
    let (lengths, _) = chunk_lengths(&mut chunker, &data);
    assert!(!lengths.is_empty());
    for &l in &lengths {
        assert!(l >= 64, "chunk shorter than min_size: {}", l);
        assert!(l <= 2048, "chunk longer than max_size: {}", l);
    }
}

#[test]
fn fastcdc_round_trip() {
    // Concatenating every chunk, then the unfinished remainder, rebuilds
    // the buffer byte for byte.
    let data = lcg_data(150000, 3);
    let mut chunker = FastCDC::new();
    let mut rebuilt: Vec<u8> = Vec::new();
    let mut pos = 0usize;
    while let Some(i) = chunker.chunk_end(&data[pos..]) {
        rebuilt.extend_from_slice(&data[pos..pos + i]);
        pos += i;
    }
    rebuilt.extend_from_slice(&data[pos..]);
    assert_eq!(rebuilt, data);
}

#[test]
fn fastcdc_for_each_chunk_end_round_trip() {
    let data = lcg_data(120000, 17);
    let mut chunker = FastCDC::new();
    let collected: RefCell<Vec<u8>> = RefCell::new(Vec::new());
    let count = std::cell::Cell::new(0usize);
    chunker.for_each_chunk_end(&data, |chunk: &[u8]| {
        collected.borrow_mut().extend_from_slice(chunk);
        count.set(count.get() + 1);
    });
    assert!(count.get() > 0);
    let collected = collected.into_inner();
    assert!(collected.len() <= data.len());
    assert_eq!(&data[..collected.len()], &collected[..]);
}

#[test]
fn fastcdc_resumable_across_slices() {
    // Feeding the stream in arbitrary small pieces yields exactly the same
    // boundaries as feeding it whole.
    let data = lcg_data(100000, 23);

    let mut whole = FastCDC::new();
    let mut whole_cuts = Vec::new();
    let mut pos = 0usize;
    while let Some(i) = whole.chunk_end(&data[pos..]) {
        pos += i;
        whole_cuts.push(pos);
    }

    let mut pieced = FastCDC::new();
    let mut pieced_cuts = Vec::new();
    let mut start = 0usize;
    let piece_len = 997usize;
    while start < data.len() {
        let end = (start + piece_len).min(data.len());
        let mut off = start;
        while let Some(i) = pieced.chunk_end(&data[off..end]) {
            off += i;
            pieced_cuts.push(off);
        }
        start = end;
    }

    assert_eq!(whole_cuts, pieced_cuts);
}
