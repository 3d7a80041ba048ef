use count_fasta::classify::{classify_byte, update_stats, update_stats_scalar, ByteClass};

// Xorshift generator, so the tests need no randomness crate.
struct SimpleRng {
    state: u64,
}

impl SimpleRng {
    fn new(seed: u64) -> Self {
        Self { state: seed }
    }

    fn next_u8(&mut self) -> u8 {
        self.state ^= self.state << 13;
        self.state ^= self.state >> 7;
        self.state ^= self.state << 17;
        (self.state & 0xFF) as u8
    }

    fn fill_bytes(&mut self, buf: &mut [u8]) {
        for b in buf.iter_mut() {
            *b = self.next_u8();
        }
    }
}

fn naive(input: &[u8]) -> (usize, usize, usize) {
    let gc = input.iter().filter(|b| b"GgCc".contains(b)).count();
    let n = input.iter().filter(|b| b"Nn".contains(b)).count();
    let skipped = input.iter().filter(|b| b" \t\n\r-.".contains(b)).count();
    (gc, n, input.len() - skipped)
}

fn check_consistency(input: &[u8]) {
    let scalar_res = update_stats_scalar(input);
    assert_eq!(scalar_res, naive(input), "scalar result for len {}", input.len());
    let dispatch_res = update_stats(input, false);
    assert_eq!(scalar_res, dispatch_res, "vectorised result for len {}", input.len());
    let no_simd_res = update_stats(input, true);
    assert_eq!(scalar_res, no_simd_res, "portable result for len {}", input.len());
}

#[test]
fn test_update_stats_consistency_basic() {
    let patterns: Vec<&[u8]> = vec![
        b"AaCcGgTtNnRrYyWwSsMmKkHhBbVvDd-. \t\n\r",
        b"G",
        b"GC",
        b"AAAAAAAAAAAAAAAAAAAAAAAAAAAAAAAA",
        b"AAAAAAAAAAAAAAAAAAAAAAAAAAAAAAAAA",
        b"AAAAAAAAAAAAAAAAAAAAAAAAAAAAAAA",
        b"",
    ];
    for input in patterns {
        check_consistency(input);
    }
}

#[test]
fn test_fuzz_update_stats() {
    let mut rng = SimpleRng::new(12345);
    for _ in 0..100 {
        let len = (rng.next_u8() as usize) * 4096
            + (rng.next_u8() as usize) * 16
            + (rng.next_u8() as usize);
        let mut buf = vec![0u8; len];
        rng.fill_bytes(&mut buf);
        for b in buf.iter_mut() {
            let r = *b % 20;
            *b = match r {
                0..=3 => b'G',
                4..=7 => b'C',
                8..=9 => b'N',
                10 => b'n',
                11 => b'g',
                12 => b'c',
                13 => b'\n',
                14 => b' ',
                15 => b'-',
                _ => b'A',
            };
        }
        check_consistency(&buf);
    }
}

#[test]
fn test_alignment_and_offsets() {
    let mut base_buf = vec![b'A'; 4096 * 4];
    for (i, b) in base_buf.iter_mut().enumerate() {
        if i % 3 == 0 {
            *b = b'G';
        }
        if i % 5 == 0 {
            *b = b'N';
        }
        if i % 7 == 0 {
            *b = b'\n';
        }
    }
    for start in 0..64 {
        for len in 0..512 {
            if start + len > base_buf.len() {
                break;
            }
            check_consistency(&base_buf[start..start + len]);
        }
    }
}

#[test]
fn test_vector_boundaries() {
    let max_vec_size = 64;
    let base_buf = vec![b'G'; max_vec_size * 3];
    for size in [16, 32, 64] {
        if size * 2 > base_buf.len() {
            continue;
        }
        check_consistency(&base_buf[0..size]);
        check_consistency(&base_buf[0..size - 1]);
        check_consistency(&base_buf[0..size + 1]);
        check_consistency(&base_buf[0..size * 2]);
        check_consistency(&base_buf[0..size * 2 - 1]);
        check_consistency(&base_buf[0..size * 2 + 1]);
    }
}

#[test]
fn test_resilience_random_junk() {
    let mut rng = SimpleRng::new(9999);
    for _ in 0..100 {
        let len = (rng.next_u8() as usize) * 64 + (rng.next_u8() as usize);
        let mut buf = vec![0u8; len];
        rng.fill_bytes(&mut buf);
        check_consistency(&buf);
    }
}

#[test]
fn test_resilience_edge_cases() {
    let edge_cases: Vec<&[u8]> = vec![
        b"ACGT\0ACGT",
        b"\0\0\0",
        b"ACGT\xFF\x80ACGT",
        b"\x01\x02\x03\n\r\t\x0B\x0C",
        b">seq1\n>seq2\n>seq3",
        b"   \t\t\n\n\r\r",
        b"AgC\xFFT\x00N-",
    ];
    for case in edge_cases {
        check_consistency(case);
    }
}

#[test]
fn every_byte_value_agrees() {
    for b in 0..=255u8 {
        check_consistency(&[b]);
        let expected = match b {
            b'G' | b'g' | b'C' | b'c' => ByteClass::Gc,
            b'N' | b'n' => ByteClass::N,
            b' ' | b'\t' | b'\n' | b'\r' | b'-' | b'.' => ByteClass::Skip,
            _ => ByteClass::Other,
        };
        assert_eq!(classify_byte(b), expected);
    }
}

#[test]
fn classifier_exact_counts() {
    assert_eq!(update_stats(b"ACGTNn RY-.\n", false), (2, 2, 8));
    assert_eq!(update_stats(b"ACGTNn RY-.\n", true), (2, 2, 8));
    assert_eq!(update_stats(b"", false), (0, 0, 0));
    let long = b"GCGCNNAT".repeat(100);
    assert_eq!(update_stats(&long, false), (400, 200, 800));
}
