use par2_rs::galois::{gf_mul, gf_pow};
use par2_rs::reed_solomon::{generate_par2_constants, Par2ReedSolomon};
use par2_rs::streaming_encoder::{optimal_data_batch_size, optimal_recovery_batch_size};

#[test]
fn test_encode_basic() {
    let rs = Par2ReedSolomon::new(3, 2);

    let data_blocks = vec![
        vec![1, 0, 2, 0, 3, 0, 4, 0],
        vec![5, 0, 6, 0, 7, 0, 8, 0],
        vec![9, 0, 10, 0, 11, 0, 12, 0],
    ];

    let result = rs.encode(&data_blocks, 2, 8).unwrap();

    assert_eq!(result.len(), 2, "Should generate 2 recovery blocks");
    assert_eq!(result[0].0, 0, "First recovery block should have exponent 0");
    assert_eq!(result[1].0, 1, "Second recovery block should have exponent 1");
    assert_eq!(result[0].1.len(), 8, "Recovery blocks should be 8 bytes");
    assert_eq!(result[1].1.len(), 8, "Recovery blocks should be 8 bytes");
}

#[test]
fn test_encode_wrong_block_count() {
    let rs = Par2ReedSolomon::new(3, 2);
    let data_blocks = vec![vec![1, 0, 2, 0, 3, 0, 4, 0], vec![5, 0, 6, 0, 7, 0, 8, 0]];

    let result = rs.encode(&data_blocks, 2, 8);
    assert!(result.is_err(), "Should fail with wrong block count");
    assert_eq!(result.unwrap_err(), "Expected 3 data blocks, got 2");
}

#[test]
fn test_encode_wrong_block_size() {
    let rs = Par2ReedSolomon::new(2, 1);
    let data_blocks = vec![vec![1, 0, 2, 0, 3, 0, 4, 0], vec![5, 0, 6, 0]];

    let result = rs.encode(&data_blocks, 1, 8);
    assert!(result.is_err(), "Should fail with mismatched block sizes");
}

#[test]
fn test_encode_odd_block_size() {
    let rs = Par2ReedSolomon::new(2, 1);
    let data_blocks = vec![vec![1, 2, 3], vec![4, 5, 6]];

    let result = rs.encode(&data_blocks, 1, 3);
    assert!(result.is_err(), "Should fail with odd block size");
    assert_eq!(result.unwrap_err(), "Block size must be multiple of 2");
}

fn sample_blocks(count: usize, size: usize) -> Vec<Vec<u8>> {
    (0..count).map(|i| (0..size).map(|j| (i * 37 + j * 11 + i * j) as u8).collect()).collect()
}

fn word(block: &[u8], s: usize) -> u16 {
    u16::from_le_bytes([block[2 * s], block[2 * s + 1]])
}

#[test]
fn constants_are_powers_of_two_with_coprime_exponents() {
    let rs = Par2ReedSolomon::new(8, 0);
    let expected: Vec<u16> =
        [1usize, 2, 4, 7, 8, 11, 13, 14].iter().map(|&n| gf_pow(2, n)).collect();
    assert_eq!(rs.constants, expected);
}

#[test]
fn recovery_blocks_are_weighted_sums() {
    let blocks = sample_blocks(5, 12);
    let rs = Par2ReedSolomon::new(5, 4);
    let recovery = rs.encode(&blocks, 4, 12).unwrap();
    for e in 0..4 {
        assert_eq!(recovery[e].0, e as u32);
        for s in 0..6 {
            let mut want = 0;
            for i in 0..5 {
                want ^= gf_mul(word(&blocks[i], s), gf_pow(rs.constants[i], e));
            }
            assert_eq!(word(&recovery[e].1, s), want);
        }
    }
}

#[test]
fn encoder_gives_the_same_recovery_blocks() {
    let blocks = sample_blocks(21, 32);
    let rs = Par2ReedSolomon::new(21, 6);
    let direct = rs.encode(&blocks, 6, 32).unwrap();
    let mut encoder = rs.create_streaming_encoder(6, 32, 16, 2).unwrap();
    for (i, block) in blocks.iter().enumerate() {
        let words: Vec<u16> = (0..16).map(|s| word(block, s)).collect();
        encoder.process_block(i, &words);
    }
    assert_eq!(encoder.finalize(), direct);
}

#[test]
fn encoder_takes_blocks_in_any_order() {
    let blocks = sample_blocks(21, 32);
    let rs = Par2ReedSolomon::new(21, 6);
    let direct = rs.encode(&blocks, 6, 32).unwrap();
    let mut encoder = rs.create_streaming_encoder(6, 32, 32, 1).unwrap();
    for k in 0..21 {
        let i = k * 8 % 21;
        let words: Vec<u16> = (0..16).map(|s| word(&blocks[i], s)).collect();
        encoder.process_block(i, &words);
        encoder.process_block(21 + k, &words);
    }
    assert_eq!(encoder.finalize(), direct);
}

#[test]
fn fewer_constants_are_a_prefix() {
    let many = Par2ReedSolomon::new(300, 0).constants;
    for k in [0usize, 1, 17, 299] {
        assert_eq!(Par2ReedSolomon::new(k, 0).constants, many[..k].to_vec());
        assert_eq!(generate_par2_constants(k), many[..k].to_vec());
    }
}

#[test]
fn encoder_needs_even_sizes() {
    let rs = Par2ReedSolomon::new(2, 1);
    let message = |block: usize, chunk: usize| match rs.create_streaming_encoder(1, block, chunk, 1)
    {
        Ok(_) => String::new(),
        Err(e) => e,
    };
    assert_eq!(message(7, 2), "Block size must be multiple of 2");
    assert_eq!(message(8, 3), "Chunk size must be multiple of 2");
    assert_eq!(message(8, 10), "Chunk size cannot exceed block size");
    assert_eq!(message(8, 8), "");
}

#[test]
fn batch_sizes_stay_in_their_bounds() {
    assert_eq!(optimal_recovery_batch_size(10, 8), 4);
    assert_eq!(optimal_recovery_batch_size(48, 8), 6);
    assert_eq!(optimal_recovery_batch_size(1000, 8), 8);
    assert!(optimal_data_batch_size(10, 8) > 0);
}

#[test]
fn missing_blocks_come_back() {
    let n = 9;
    let size = 20;
    let blocks = sample_blocks(n, size);
    let rs = Par2ReedSolomon::new(n, 6);
    let recovery = rs.encode(&blocks, 6, size).unwrap();
    for (missing, used) in [
        (vec![0usize, 4, 8], vec![0usize, 1, 2]),
        (vec![3, 5], vec![4, 1]),
        (vec![1, 2, 6, 7], vec![5, 0, 3, 2]),
    ] {
        let present: Vec<usize> = (0..n).filter(|i| !missing.contains(i)).collect();
        let indices: Vec<usize> = (0..used.len()).map(|i| n + i).collect();
        let exponents: Vec<u32> = used.iter().map(|&u| u as u32).collect();
        let transform = rs
            .compute_reconstruction_transform(&missing, &present, &indices, &exponents)
            .unwrap();
        let data: Vec<Vec<u8>> = present.iter().map(|&i| blocks[i].clone()).collect();
        let rec: Vec<Vec<u8>> = used.iter().map(|&u| recovery[u].1.clone()).collect();
        let restored = rs
            .reconstruct_streaming_chunk(
                &missing, &present, &indices, &transform, size, &rec, &data,
            )
            .unwrap();
        for (k, &i) in missing.iter().enumerate() {
            assert_eq!(restored[k].0, i);
            assert_eq!(restored[k].1, blocks[i]);
        }
    }
}

#[test]
fn reconstruction_needs_enough_recovery_blocks() {
    let rs = Par2ReedSolomon::new(3, 1);
    let none: Vec<usize> = Vec::new();
    let message = |m: &[usize], r: &[usize], e: &[u32]| {
        match rs.compute_reconstruction_transform(m, &[2], r, e) {
            Ok(_) => String::new(),
            Err(m) => m,
        }
    };
    assert_eq!(message(&none, &[3], &[0]), "No missing blocks to reconstruct");
    assert_eq!(message(&[0, 1], &[3], &[0]), "Need 2 recovery blocks, have 1");
    assert_eq!(message(&[0, 1], &[3, 4], &[1, 1]), "Singular matrix");
    assert_eq!(message(&[0, 1], &[3, 4], &[1, 2]), "");
}

#[test]
fn constants_differ_up_to_their_number() {
    let constants = Par2ReedSolomon::new(32769, 0).constants;
    let mut seen = vec![false; 65536];
    for &c in &constants[..32768] {
        assert_ne!(c, 0);
        assert!(!seen[c as usize]);
        seen[c as usize] = true;
    }
    assert_eq!(constants[32768], constants[0]);
}

#[test]
fn rows_that_change_places_do_not_matter() {
    // The constants of blocks 0 and 2 are 2 and 2^4. Raised to 21845, a third of the order of 2, they
    // are the same, so that the second pivot vanishes and rows change places.
    let n = 6;
    let size = 8;
    let blocks = sample_blocks(n, size);
    let rs = Par2ReedSolomon::new(n, 0);
    let missing: Vec<usize> = vec![0, 2, 1];
    let exponents: Vec<u32> = vec![0, 21845, 1];
    assert_eq!(gf_pow(rs.constants[0], 21845), gf_pow(rs.constants[2], 21845));
    let rec: Vec<Vec<u8>> = exponents
        .iter()
        .map(|&e| {
            (0..size / 2)
                .flat_map(|s| {
                    let mut sum = 0u16;
                    for i in 0..n {
                        sum ^= gf_mul(word(&blocks[i], s), gf_pow(rs.constants[i], e as usize));
                    }
                    sum.to_le_bytes()
                })
                .collect()
        })
        .collect();
    let present: Vec<usize> = vec![3, 4, 5];
    let indices: Vec<usize> = vec![6, 7, 8];
    let transform = rs
        .compute_reconstruction_transform(&missing, &present, &indices, &exponents)
        .unwrap();
    assert_eq!(transform.row_order, vec![0, 2, 1]);
    let data: Vec<Vec<u8>> = present.iter().map(|&i| blocks[i].clone()).collect();
    let restored = rs
        .reconstruct_streaming_chunk(&missing, &present, &indices, &transform, size, &rec, &data)
        .unwrap();
    for (k, &i) in missing.iter().enumerate() {
        assert_eq!(restored[k].1, blocks[i]);
    }
}
