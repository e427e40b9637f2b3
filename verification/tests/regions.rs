use par2_rs::galois::region::gf_muladd_regions_of;
use par2_rs::galois::simd::x86::CpuFeatures;
use par2_rs::galois::simd::get_registry;
use par2_rs::galois::streaming::{StreamingConfig, StreamingProcessor};
use par2_rs::galois::{
    gf_mul, gf_muladd_block_regions, gf_muladd_column_region, gf_muladd_region, init_tables,
    region_size_bytes,
};
use par2_rs::Par2Error;

fn all_features() -> CpuFeatures {
    CpuFeatures { sse2: true, ssse3: true, sse41: true, avx2: true, pclmulqdq: true }
}

#[test]
fn test_region_basic() {
    init_tables();

    let src1 = vec![1u16, 2, 3, 4];
    let src2 = vec![5u16, 6, 7, 8];
    let sources = vec![src1.as_slice(), src2.as_slice()];

    let mut destinations = vec![vec![0u16; 4]];

    // dst = src1 * 2 + src2 * 3
    let coeff = vec![2u16, 3u16];
    let coefficients = vec![coeff.as_slice()];

    gf_muladd_region(&mut destinations, &sources, &coefficients, 0, 4);

    for i in 0..4 {
        let expected = gf_mul(src1[i], 2) ^ gf_mul(src2[i], 3);
        assert_eq!(destinations[0][i], expected, "Mismatch at index {}", i);
    }
}

#[test]
fn test_region_multiple_destinations() {
    init_tables();

    let src1 = vec![1u16, 2, 3, 4];
    let src2 = vec![5u16, 6, 7, 8];
    let sources = vec![src1.as_slice(), src2.as_slice()];

    let mut destinations = vec![vec![0u16; 4], vec![0u16; 4]];

    // dst1 = src1 * 2 + src2 * 3
    // dst2 = src1 * 5 + src2 * 7
    let coeff1 = vec![2u16, 3u16];
    let coeff2 = vec![5u16, 7u16];
    let coefficients = vec![coeff1.as_slice(), coeff2.as_slice()];

    gf_muladd_region(&mut destinations, &sources, &coefficients, 0, 4);

    for i in 0..4 {
        let expected = gf_mul(src1[i], 2) ^ gf_mul(src2[i], 3);
        assert_eq!(destinations[0][i], expected, "dst1 mismatch at index {}", i);
    }
    for i in 0..4 {
        let expected = gf_mul(src1[i], 5) ^ gf_mul(src2[i], 7);
        assert_eq!(destinations[1][i], expected, "dst2 mismatch at index {}", i);
    }
}

#[test]
fn test_region_with_offset() {
    init_tables();

    let src = vec![1u16, 2, 3, 4, 5, 6, 7, 8];
    let sources = vec![src.as_slice()];

    let mut destinations = vec![vec![0u16; 8]];

    let coeff = vec![3u16];
    let coefficients = vec![coeff.as_slice()];

    // Process only the middle 4 elements
    gf_muladd_region(&mut destinations, &sources, &coefficients, 2, 4);

    let dst = &destinations[0];
    assert_eq!(dst[0], 0);
    assert_eq!(dst[1], 0);
    for i in 2..6 {
        let expected = gf_mul(src[i], 3);
        assert_eq!(dst[i], expected, "Mismatch at index {}", i);
    }
    assert_eq!(dst[6], 0);
    assert_eq!(dst[7], 0);
}

#[test]
fn test_block_regions() {
    init_tables();

    let block_size = 256;
    let src = (0..block_size).map(|i| (i % 256) as u16).collect::<Vec<_>>();
    let sources = vec![src.as_slice()];

    let mut destinations = vec![vec![0u16; block_size]];

    let coeff = vec![5u16];
    let coefficients = vec![coeff.as_slice()];

    gf_muladd_block_regions(&mut destinations, &sources, &coefficients, block_size);

    for i in 0..block_size {
        let expected = gf_mul(src[i], 5);
        assert_eq!(destinations[0][i], expected, "Mismatch at index {}", i);
    }
}

#[test]
fn test_column_region() {
    init_tables();

    let src = vec![1u16, 2, 3, 4];

    let mut destinations = vec![vec![0u16; 4], vec![0u16; 4]];

    let coefficients = vec![2u16, 3u16];

    gf_muladd_column_region(&mut destinations, &src, &coefficients, 0, 4);

    for i in 0..4 {
        assert_eq!(destinations[0][i], gf_mul(src[i], 2));
    }
    for i in 0..4 {
        assert_eq!(destinations[1][i], gf_mul(src[i], 3));
    }
}

#[test]
fn regions_of_any_size_cover_the_block() {
    let src: Vec<u16> = (0..37).map(|i| (i * 1001) as u16).collect();
    let sources = vec![src.as_slice()];
    let coeff = vec![9u16];
    let coefficients = vec![coeff.as_slice()];
    for region in [1usize, 2, 5, 36, 37, 100] {
        let mut destinations = vec![vec![1u16; 40]];
        gf_muladd_regions_of(&mut destinations, &sources, &coefficients, 37, region);
        for i in 0..37 {
            assert_eq!(destinations[0][i], 1 ^ gf_mul(src[i], 9));
        }
        assert_eq!(&destinations[0][37..], &[1, 1, 1]);
    }
}

#[test]
fn region_size_can_be_configured() {
    assert_eq!(region_size_bytes(None), 131072);
    assert_eq!(region_size_bytes(Some(8192)), 8192);
    assert_eq!(region_size_bytes(Some(4095)), 131072);
    assert_eq!(region_size_bytes(Some(4097)), 131072);
}

#[test]
fn test_config_validation() {
    let mut config = StreamingConfig::default();
    assert!(config.validate().is_ok());

    // Chunk must be >= region
    config.chunk_size = 64 * 1024;
    config.region_size = 128 * 1024;
    assert!(config.validate().is_err());

    // Region must be even
    config.region_size = 127 * 1024;
    assert!(config.validate().is_err());
}

#[test]
fn configuration_errors_are_told() {
    let config = StreamingConfig { chunk_size: 10, region_size: 12, source_batch_size: 8 };
    match config.validate() {
        Err(Par2Error::InvalidFormat(m)) => {
            assert_eq!(m, "chunk_size (10) must be >= region_size (12)")
        }
        _ => panic!("no error"),
    }
    let odd = StreamingConfig { chunk_size: 100, region_size: 13, source_batch_size: 8 };
    let registry = get_registry(all_features());
    match StreamingProcessor::with_config(&registry, odd) {
        Err(Par2Error::InvalidFormat(m)) => {
            assert_eq!(m, "region_size must be even (u16 alignment)")
        }
        _ => panic!("no error"),
    }
}

fn bytes_of(words: &[u16]) -> Vec<u8> {
    words.iter().flat_map(|w| w.to_le_bytes()).collect()
}

#[test]
fn test_streaming_basic() {
    init_tables();

    // Reconstruct 1 block from 2 sources
    let block_size = 1024;

    let src1 = vec![1u16; 512];
    let src2 = vec![2u16; 512];

    let mut destinations = vec![vec![0u16; 512]];

    let source_indices = vec![0, 1];
    let coeffs = vec![3u16, 5u16];
    let coefficients = vec![coeffs.as_slice()];

    let registry = get_registry(all_features());
    let processor = StreamingProcessor::new(&registry);
    assert!(processor.use_shuffle2x);

    let sources = vec![bytes_of(&src1), bytes_of(&src2)];

    processor
        .process_block_streaming(
            &mut destinations,
            &source_indices,
            &coefficients,
            block_size,
            &sources,
        )
        .unwrap();

    // dst = src1 * 3 + src2 * 5
    let expected = gf_mul(1, 3) ^ gf_mul(2, 5);
    assert_eq!(destinations[0][0], expected);
    assert!(destinations[0].iter().all(|&v| v == expected));
}

#[test]
fn streaming_covers_blocks_of_several_chunks() {
    let words: Vec<Vec<u16>> =
        (0..5).map(|i| (0..70).map(|j| (j * 331 + i * 77) as u16).collect()).collect();
    let sources: Vec<Vec<u8>> = words.iter().map(|w| bytes_of(w)).collect();
    let coeffs: Vec<Vec<u16>> = vec![vec![1, 2, 3, 4, 5], vec![9, 0, 7, 1, 65535]];
    let coefficients: Vec<&[u16]> = coeffs.iter().map(|c| c.as_slice()).collect();
    let registry = get_registry(all_features());
    let config = StreamingConfig { chunk_size: 16, region_size: 6, source_batch_size: 2 };
    let processor = StreamingProcessor::with_config(&registry, config).unwrap();
    let mut destinations = vec![vec![11u16; 70], vec![22u16; 70]];
    let order = vec![4usize, 0, 1, 2, 3];
    processor
        .process_block_streaming(&mut destinations, &order, &coefficients, 140, &sources)
        .unwrap();
    for d in 0..2 {
        for s in 0..70 {
            let mut want = if d == 0 { 11 } else { 22 };
            for i in 0..5 {
                want ^= gf_mul(words[order[i]][s], coeffs[d][i]);
            }
            assert_eq!(destinations[d][s], want);
        }
    }
}
