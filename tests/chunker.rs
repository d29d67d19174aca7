use backup_ingest::chunker::{Chunker, MAX_CHUNK_SIZE_AVG};

fn xorshift_bytes(n: usize, seed: u64) -> Vec<u8> {
    let mut x = seed;
    let mut out = Vec::with_capacity(n);
    while out.len() < n {
        x ^= x << 13;
        x ^= x >> 7;
        x ^= x << 17;
        out.push((x & 0xff) as u8);
    }
    out
}

const SEED: u64 = 0x9E37_79B9_7F4A_7C15;

/// Feeds `data` in pieces of `piece` bytes through `scan`, re-scanning after
/// each boundary, and returns the boundaries as stream offsets.
fn scan_in_pieces(avg: usize, data: &[u8], piece: usize) -> Vec<usize> {
    let mut chunker = Chunker::new(avg);
    let mut out = Vec::new();
    let mut start = 0;
    while start < data.len() {
        let end = usize::min(start + piece, data.len());
        let mut pos = start;
        while pos < end {
            let r = chunker.scan(&data[pos..end]);
            if r == 0 {
                pos = end;
            } else {
                pos += r;
                out.push(pos);
            }
        }
        start = end;
    }
    out
}

#[test]
fn bounds_follow_average() {
    let c = Chunker::new(4096);
    assert_eq!(c.chunk_size_avg(), 4096);
    assert_eq!(c.chunk_size_min(), 1024);
    assert_eq!(c.chunk_size_max(), 16384);
}

#[test]
fn discriminator_exact_value() {
    assert_eq!(Chunker::new(4096).discriminator(), 3075);
    assert_eq!(Chunker::new(0).discriminator(), 0);
    assert_eq!(Chunker::new(1).discriminator(), 0);
    assert_eq!(Chunker::new(2).discriminator(), 1);
}

#[test]
fn discriminator_matches_empirical_formula() {
    let mut avgs: Vec<usize> = (0..MAX_CHUNK_SIZE_AVG).step_by(997).collect();
    for shift in 0..24 {
        avgs.push(1usize << shift);
    }
    avgs.push(MAX_CHUNK_SIZE_AVG);
    for avg in avgs {
        let a = avg as f64;
        let expected = (a / (-1.42888852e-7 * a + 1.33237515)) as u32;
        assert_eq!(Chunker::new(avg).discriminator(), expected, "avg {}", avg);
    }
}

#[test]
fn scan_empty_and_short_input() {
    let mut c = Chunker::new(4096);
    assert_eq!(c.scan(&[]), 0);
    assert_eq!(c.scan(&[1, 2, 3]), 0);
    assert_eq!(c.scan(&[7u8; 44]), 0);
    assert_eq!(c.scan(&[]), 0);
}

#[test]
fn exact_boundaries_of_random_stream() {
    let data = xorshift_bytes(200_000, SEED);
    let mut c = Chunker::new(4096);
    let b = c.boundaries(&data);
    assert_eq!(b.len(), 48);
    assert_eq!(&b[..6], &[6841, 10714, 12393, 15051, 23664, 27464]);
}

#[test]
fn exact_boundaries_small_average() {
    let data = xorshift_bytes(20_000, SEED);
    let mut c = Chunker::new(64);
    let b = c.boundaries(&data);
    assert_eq!(&b[..8], &[70, 222, 309, 383, 446, 525, 618, 732]);
}

#[test]
fn zero_stream_cut_at_maximum() {
    let data = vec![0u8; 100_000];
    let mut c = Chunker::new(4096);
    let b = c.boundaries(&data);
    assert_eq!(&b[..5], &[16384, 32768, 49152, 65536, 81920]);
    assert_eq!(b.len(), 6);
}

#[test]
fn tiny_average_cuts_after_window() {
    let data = vec![0u8; 200];
    let mut c = Chunker::new(0);
    assert_eq!(c.boundaries(&data), vec![49, 98, 147, 196]);
}

#[test]
fn boundaries_independent_of_feed_slicing() {
    let data = xorshift_bytes(300_000, SEED ^ 0x55);
    let whole = Chunker::new(4096).boundaries(&data);
    for piece in [1usize, 7, 48, 1000, 4096, 65536, 300_000] {
        assert_eq!(scan_in_pieces(4096, &data, piece), whole, "piece size {}", piece);
    }
}

#[test]
fn chunk_sizes_within_bounds() {
    let data = xorshift_bytes(1_000_000, SEED ^ 0xAA);
    let mut c = Chunker::new(4096);
    let b = c.boundaries(&data);
    let mut prev = 0;
    for &x in &b {
        let len = x - prev;
        assert!(len >= 1024 && len <= 16384, "chunk length {}", len);
        prev = x;
    }
    assert!(data.len() - prev < 16384);
}

#[test]
fn chunks_reassemble_stream() {
    let data = xorshift_bytes(500_000, SEED ^ 0x1234);
    let mut c = Chunker::new(4096);
    let b = c.boundaries(&data);
    let mut rebuilt = Vec::new();
    let mut prev = 0;
    for &x in &b {
        rebuilt.extend_from_slice(&data[prev..x]);
        prev = x;
    }
    rebuilt.extend_from_slice(&data[prev..]);
    assert_eq!(rebuilt, data);
}

#[test]
fn mean_chunk_size_near_average() {
    let data = xorshift_bytes(4 * 1024 * 1024, SEED ^ 0xBEEF);
    let mut c = Chunker::new(4096);
    let b = c.boundaries(&data);
    let mean = *b.last().unwrap() as f64 / b.len() as f64;
    assert!(mean > 4096.0 * 0.8 && mean < 4096.0 * 1.2, "mean {}", mean);
}

#[test]
fn single_byte_edit_is_local() {
    let data = xorshift_bytes(1_000_000, SEED ^ 0x77);
    let mut edited = data.clone();
    let e = 500_000;
    edited[e] ^= 0xff;
    let b1 = Chunker::new(4096).boundaries(&data);
    let b2 = Chunker::new(4096).boundaries(&edited);
    let before1: Vec<usize> = b1.iter().copied().filter(|&x| x <= e).collect();
    let before2: Vec<usize> = b2.iter().copied().filter(|&x| x <= e).collect();
    assert_eq!(before1, before2);
    let after1: Vec<usize> = b1.iter().copied().filter(|&x| x > e + 40_000).collect();
    let after2: Vec<usize> = b2.iter().copied().filter(|&x| x > e + 40_000).collect();
    assert!(!after1.is_empty());
    assert_eq!(after1, after2);
}

#[test]
fn write_tracks_offsets() {
    let data = xorshift_bytes(20_000, SEED);
    let mut c = Chunker::new(64);
    assert_eq!(c.write(&data[..50]), 50);
    assert_eq!(c.offset(), 50);
    assert_eq!(c.last_offset(), 0);
    assert_eq!(c.write(&data[50..]), 20);
    assert_eq!(c.offset(), 70);
    assert_eq!(c.last_offset(), 70);
    assert_eq!(c.write(&data[70..100]), 30);
    assert_eq!(c.offset(), 100);
    assert_eq!(c.last_offset(), 70);
}
