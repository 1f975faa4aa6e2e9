use rustic::chunker::{Chunker, MAX_SIZE, MIN_SIZE};

const POLY: u64 = 0x3DA3358B4DC173;

/// Bytes that look random and are the same in every run.
fn noise(len: usize, seed: u64) -> Vec<u8> {
    let mut state = seed | 1;
    (0..len)
        .map(|_| {
            state ^= state << 13;
            state ^= state >> 7;
            state ^= state << 17;
            (state >> 24) as u8
        })
        .collect()
}

fn check_rule(data: &[u8], ends: &[usize], min: usize, max: usize) {
    let mut start = 0;
    for (i, &end) in ends.iter().enumerate() {
        assert!(start < end && end <= data.len());
        assert!(end - start <= max);
        if i + 1 < ends.len() {
            assert!(end - start >= min);
        }
        start = end;
    }
    assert_eq!(start, data.len());
}

#[test]
fn chunks_put_together_are_the_stream() {
    let chunker = Chunker::with_sizes(POLY, 64, 4096, 8).unwrap();
    for len in [0usize, 1, 63, 64, 65, 4095, 4096, 4097, 50_000] {
        let data = noise(len, len as u64 + 3);
        let parts = chunker.chunks(&data);
        assert_eq!(parts.concat(), data, "{len}");
        assert_eq!(parts.is_empty(), data.is_empty());
    }
}

#[test]
fn chunks_keep_the_size_bounds() {
    let chunker = Chunker::with_sizes(POLY, 100, 1000, 6).unwrap();
    let data = noise(100_000, 11);
    let ends = chunker.chunk_ends(&data);
    check_rule(&data, &ends, 100, 1000);
    // with blocks of about 64 bytes beyond the smallest size, both kinds of cut occur
    assert!(ends.len() > 100 && ends.len() < 1000);
    let sizes: Vec<usize> =
        ends.iter().scan(0, |s, &e| { let n = e - *s; *s = e; Some(n) }).collect();
    assert!(sizes.iter().any(|&n| n < 1000));
}

#[test]
fn cut_is_where_the_fingerprint_ends_in_zero_bits() {
    // each place is a cut: every chunk but the last has the smallest size
    let chunker = Chunker::with_sizes(POLY, 64, 4096, 0).unwrap();
    let data = noise(64 * 5 + 10, 5);
    assert_eq!(chunker.chunk_ends(&data), vec![64, 128, 192, 256, 320, 330]);
    // no place is a cut where 63 bits must be zero: every chunk has the largest size
    let never = Chunker::with_sizes(POLY, 64, 100, 63).unwrap();
    assert_eq!(never.chunk_ends(&noise(250, 5)), vec![100, 200, 250]);
}

#[test]
fn same_stream_has_the_same_cuts() {
    let a = Chunker::with_sizes(POLY, 128, 8192, 9).unwrap();
    let b = Chunker::with_sizes(POLY, 128, 8192, 9).unwrap();
    let data = noise(200_000, 99);
    assert_eq!(a.chunk_ends(&data), b.chunk_ends(&data));
    assert_eq!(a.chunk_ends(&data), a.chunk_ends(&data.clone()));
}

#[test]
fn cuts_depend_on_the_content_around_them() {
    let chunker = Chunker::with_sizes(POLY, 64, 65536, 7).unwrap();
    let data = noise(100_000, 7);
    let ends = chunker.chunk_ends(&data);
    assert!(ends.len() > 10);
    // bytes put before the stream move the cuts behind the first few chunks along
    let mut shifted = noise(1000, 1234);
    shifted.extend_from_slice(&data);
    let moved = chunker.chunk_ends(&shifted);
    let tail: Vec<usize> = ends.iter().rev().take(5).map(|e| e + 1000).collect();
    let moved_tail: Vec<usize> = moved.iter().rev().take(5).cloned().collect();
    assert_eq!(tail, moved_tail);
}

#[test]
fn another_polynomial_cuts_elsewhere() {
    let a = Chunker::with_sizes(POLY, 64, 65536, 7).unwrap();
    let b = Chunker::with_sizes(0x3DA3358B4DC173 ^ 0x6, 64, 65536, 7).unwrap();
    let data = noise(100_000, 7);
    assert_ne!(a.chunk_ends(&data), b.chunk_ends(&data));
    assert_eq!(b.chunks(&data).concat(), data);
}

#[test]
fn next_cut_follows_the_chunking() {
    let chunker = Chunker::with_sizes(POLY, 64, 2048, 6).unwrap();
    let data = noise(20_000, 21);
    let ends = chunker.chunk_ends(&data);
    let mut start = 0;
    for end in ends {
        assert_eq!(chunker.next_cut(&data, start), end);
        start = end;
    }
    assert_eq!(chunker.next_cut(&data, data.len()), data.len());
    assert_eq!(chunker.next_cut(&data, data.len() + 5), data.len());
}

#[test]
fn sizes_are_checked() {
    assert!(Chunker::with_sizes(POLY, 63, 100, 8).is_none());
    assert!(Chunker::with_sizes(POLY, 100, 99, 8).is_none());
    assert!(Chunker::with_sizes(POLY, 64, 64, 64).is_none());
    assert!(Chunker::with_sizes(POLY, 64, 64, 63).is_some());
    assert!(Chunker::with_sizes(0, 64, 64, 0).is_some());
    assert!(Chunker::with_sizes(u64::MAX, 64, 64, 0).is_some());
}

#[test]
fn constant_stream_is_cut_at_the_largest_size_or_at_once() {
    let chunker = Chunker::with_sizes(POLY, 64, 1000, 10).unwrap();
    let data = vec![0x41u8; 3500];
    let ends = chunker.chunk_ends(&data);
    // the window never changes, so every chunk is cut by the same verdict
    assert!(ends == vec![1000, 2000, 3000, 3500] || ends[0] == 64);
    check_rule(&data, &ends, 64, 1000);
}

#[test]
fn default_sizes_are_those_of_the_format() {
    assert_eq!(MIN_SIZE, 512 * 1024);
    assert_eq!(MAX_SIZE, 8 * 1024 * 1024);
    let chunker = Chunker::new(POLY);
    let small = noise(1000, 1);
    assert_eq!(chunker.chunk_ends(&small), vec![1000]);
    let data = noise(3 * MIN_SIZE, 17);
    let ends = chunker.chunk_ends(&data);
    check_rule(&data, &ends, MIN_SIZE, MAX_SIZE);
    assert_eq!(chunker.chunks(&data).concat(), data);
}
