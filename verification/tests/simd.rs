use par2_rs::galois::arm::{
    bytes_to_u16_neon, gf_mul_slice_neon, gf_mul_slice_pmull_neon, gf_muladd_column_neon,
    gf_muladd_multi_pmull_neon, gf_muladd_pmull_neon,
};
use par2_rs::galois::simd::x86::{avx2, has_feature, pclmul, sse, CpuFeatures, X86Strategy};
use par2_rs::galois::simd::{
    get_registry, init_registry_with_config, GaloisSimdStrategy, Priority, SimdRegistry,
};
use par2_rs::galois::{
    finish_shuffle2x, get_selected_simd_strategy, gf_mul, gf_mul_slice, gf_muladd,
    gf_muladd_column, gf_muladd_multi, gf_muladd_shuffle2x, init_tables, list_simd_strategies,
    prepare_shuffle2x, supports_shuffle2x,
};

fn all_features() -> CpuFeatures {
    CpuFeatures { sse2: true, ssse3: true, sse41: true, avx2: true, pclmulqdq: true }
}

fn no_features() -> CpuFeatures {
    CpuFeatures { sse2: false, ssse3: false, sse41: false, avx2: false, pclmulqdq: false }
}

#[test]
fn test_simd_feature_detection() {
    println!("\n=== SIMD Feature Detection ===");
    let cases = [
        (all_features(), Some("AVX2-Shuffle")),
        (CpuFeatures { avx2: false, ..all_features() }, Some("PCLMUL")),
        (CpuFeatures { avx2: false, pclmulqdq: false, ..all_features() }, Some("SSSE3")),
        (CpuFeatures { sse2: true, ..no_features() }, Some("SSE2")),
        (no_features(), None),
    ];
    for (cpu, used) in cases {
        println!("  AVX2:       {}", has_feature(cpu, "avx2"));
        println!("  PCLMULQDQ:  {}", has_feature(cpu, "pclmulqdq"));
        println!("  SSE4.1:     {}", has_feature(cpu, "sse4.1"));
        println!("  SSSE3:      {}", has_feature(cpu, "ssse3"));
        let registry = get_registry(cpu);
        assert_eq!(get_selected_simd_strategy(&registry), used);
    }
    assert!(!has_feature(all_features(), "vpclmulqdq"));
    println!("==============================\n");
}

#[test]
fn test_all_simd_implementations() {
    init_tables();

    let scalar = 12345u16;
    let test_sizes = vec![8, 16, 32, 100, 1024];

    for size in test_sizes {
        let mut data: Vec<u16> = (0..size).map(|i| (i * 97) as u16).collect();
        let mut expected = data.clone();
        for val in expected.iter_mut() {
            *val = gf_mul(*val, scalar);
        }

        gf_mul_slice(scalar, &mut data);

        assert_eq!(data, expected, "SIMD gf_mul_slice failed for size {}", size);
    }
}

#[test]
fn test_simd_muladd() {
    init_tables();

    let scalar = 7777u16;
    let test_sizes = vec![8, 16, 32, 100, 512];

    for size in test_sizes {
        let src: Vec<u16> = (0..size).map(|i| (i * 13) as u16).collect();
        let mut dst: Vec<u16> = (0..size).map(|i| (i * 17) as u16).collect();
        let mut expected = dst.clone();
        for (d, s) in expected.iter_mut().zip(src.iter()) {
            *d ^= gf_mul(*s, scalar);
        }

        gf_muladd(&mut dst, &src, scalar);

        assert_eq!(dst, expected, "SIMD gf_muladd failed for size {}", size);
    }
}

#[test]
fn test_simd_muladd_multi() {
    init_tables();

    let coeffs = vec![123u16, 456, 789, 1024, 2048];
    let size = 128;

    let sources_vec: Vec<Vec<u16>> =
        (0..5).map(|i| (0..size).map(|j| ((j + i * 100) * 19) as u16).collect()).collect();
    let sources: Vec<&[u16]> = sources_vec.iter().map(|v| v.as_slice()).collect();

    let mut dst: Vec<u16> = vec![0u16; size];
    let mut expected: Vec<u16> = vec![0u16; size];
    for (src, &coeff) in sources.iter().zip(coeffs.iter()) {
        for (d, s) in expected.iter_mut().zip(src.iter()) {
            *d ^= gf_mul(*s, coeff);
        }
    }

    gf_muladd_multi(&mut dst, &sources, &coeffs);

    assert_eq!(dst, expected, "SIMD gf_muladd_multi failed");
}

#[test]
fn test_simd_muladd_column() {
    init_tables();

    let coeffs = vec![111u16, 222, 333, 444];
    let size = 128;

    let src: Vec<u16> = (0..size).map(|i| (i * 23) as u16).collect();
    let mut dsts_vec: Vec<Vec<u16>> =
        (0..4).map(|i| (0..size).map(|j| ((j + i * 50) * 29) as u16).collect()).collect();

    let mut expected_vec = dsts_vec.clone();
    for (dst, &coeff) in expected_vec.iter_mut().zip(coeffs.iter()) {
        for (d, s) in dst.iter_mut().zip(src.iter()) {
            *d ^= gf_mul(*s, coeff);
        }
    }

    gf_muladd_column(&mut dsts_vec, &src, &coeffs);

    for (i, (dst, expected)) in dsts_vec.iter().zip(expected_vec.iter()).enumerate() {
        assert_eq!(dst, expected, "SIMD gf_muladd_column failed for dst {}", i);
    }
}

#[test]
fn test_simd_zero_scalar() {
    init_tables();

    let mut data: Vec<u16> = (0..100).collect();
    let original = data.clone();

    gf_mul_slice(0, &mut data);
    assert_eq!(data, vec![0u16; 100], "Multiply by zero failed");

    let mut dst = original.clone();
    let src: Vec<u16> = (100..200).collect();
    gf_muladd(&mut dst, &src, 0);
    assert_eq!(dst, original, "Muladd by zero should not modify dst");
}

#[test]
fn test_simd_identity_scalar() {
    init_tables();

    let mut data: Vec<u16> = (0..100).collect();
    let original = data.clone();

    gf_mul_slice(1, &mut data);
    assert_eq!(data, original, "Multiply by 1 should not change data");
}

#[test]
fn test_simd_max_values() {
    init_tables();

    let scalar = 0xFFFF;
    let mut data = vec![0xFFFF, 0xFFFE, 0xFFFD, 0x8000, 0x7FFF];
    let mut expected = data.clone();
    for val in expected.iter_mut() {
        *val = gf_mul(*val, scalar);
    }

    gf_mul_slice(scalar, &mut data);
    assert_eq!(data, expected, "Max value multiplication failed");
}

#[test]
fn test_simd_unaligned_sizes() {
    init_tables();

    let scalar = 555u16;
    let test_sizes = vec![1, 3, 7, 15, 31, 33, 100];

    for size in test_sizes {
        let mut data: Vec<u16> = (0..size).map(|i| (i * 41) as u16).collect();
        let mut expected = data.clone();
        for val in expected.iter_mut() {
            *val = gf_mul(*val, scalar);
        }

        gf_mul_slice(scalar, &mut data);
        assert_eq!(data, expected, "Unaligned size {} failed", size);
    }
}

fn all_strategies() -> Vec<X86Strategy> {
    vec![
        X86Strategy::Sse2(sse::Sse2Strategy),
        X86Strategy::Ssse3(sse::Ssse3Strategy),
        X86Strategy::Avx2Shuffle(avx2::Avx2ShuffleStrategy),
        X86Strategy::Pclmul(pclmul::PclmulStrategy),
        X86Strategy::Avx2Pclmul(pclmul::Avx2PclmulStrategy),
    ]
}

#[test]
fn test_each_simd_strategy() {
    init_tables();

    let registry = SimdRegistry::<X86Strategy>::new(all_features());
    let available = registry.list_available();

    println!("Testing {} available strategies:", available.len());
    for (name, priority) in &available {
        println!("  - {} (priority: {:?})", name, priority);
    }

    let test_sizes = vec![7, 8, 15, 16, 31, 32, 100, 1024];
    let scalars = vec![0u16, 1, 2, 12345, 65535];

    for strategy in all_strategies() {
        let name = strategy.name();
        println!("Testing strategy: {}", name);

        for &size in &test_sizes {
            for &scalar in &scalars {
                let mut data: Vec<u16> = (0..size).map(|i| (i * 97 + 1) as u16).collect();
                let mut expected = data.clone();
                for val in expected.iter_mut() {
                    *val = gf_mul(*val, scalar);
                }

                strategy.mul_slice(scalar, &mut data);

                assert_eq!(
                    data, expected,
                    "Strategy {} failed mul_slice for size={}, scalar={}",
                    name, size, scalar
                );

                let src: Vec<u16> = (0..size).map(|i| (i * 13 + 7) as u16).collect();
                let mut dst: Vec<u16> = (0..size).map(|i| (i * 17 + 3) as u16).collect();
                let mut expected = dst.clone();
                for (i, expected_val) in expected.iter_mut().enumerate() {
                    *expected_val ^= gf_mul(src[i], scalar);
                }

                strategy.muladd(&mut dst, &src, scalar);

                assert_eq!(
                    dst, expected,
                    "Strategy {} failed muladd for size={}, scalar={}",
                    name, size, scalar
                );
            }
        }
    }
}

#[test]
fn test_shuffle2x_format_operations() {
    init_tables();

    let test_sizes = vec![16, 32, 64, 128, 256];
    let scalars = vec![1u16, 2, 12345, 65535];

    for strategy in all_strategies() {
        let name = strategy.name();
        if !strategy.supports_shuffle2x() {
            println!("Skipping {} (no shuffle2x support)", name);
            continue;
        }

        println!("Testing shuffle2x for strategy: {}", name);

        for &size in &test_sizes {
            for &scalar in &scalars {
                let original: Vec<u16> = (0..size).map(|i| (i * 97 + 1) as u16).collect();
                let mut data = original.clone();

                strategy.prepare_shuffle2x(&mut data);
                strategy.finish_shuffle2x(&mut data);

                assert_eq!(
                    data, original,
                    "Strategy {} prepare/finish roundtrip failed for size={}",
                    name, size
                );

                let src: Vec<u16> = (0..size).map(|i| (i * 13 + 7) as u16).collect();
                let dst_init: Vec<u16> = (0..size).map(|i| (i * 17 + 3) as u16).collect();

                let mut expected = dst_init.clone();
                strategy.muladd(&mut expected, &src, scalar);

                let mut dst_s2x = dst_init.clone();
                let mut src_s2x = src.clone();

                strategy.prepare_shuffle2x(&mut dst_s2x);
                strategy.prepare_shuffle2x(&mut src_s2x);
                strategy.muladd_shuffle2x(&mut dst_s2x, &src_s2x, scalar);
                strategy.finish_shuffle2x(&mut dst_s2x);

                assert_eq!(
                    dst_s2x, expected,
                    "Strategy {} native shuffle2x muladd failed for size={}, scalar={}",
                    name, size, scalar
                );
            }
        }
    }
}

#[test]
fn test_shuffle2x_region_operations() {
    init_tables();

    let size = 128;
    let num_dsts = 4;
    let num_srcs = 3;

    for strategy in all_strategies() {
        let name = strategy.name();
        if !strategy.supports_shuffle2x() {
            continue;
        }

        println!("Testing shuffle2x region for strategy: {}", name);

        let sources_data: Vec<Vec<u16>> = (0..num_srcs)
            .map(|i| (0..size).map(|j| ((j + i * 100) * 19) as u16).collect())
            .collect();
        let sources: Vec<&[u16]> = sources_data.iter().map(|v| v.as_slice()).collect();

        let mut dsts_data: Vec<Vec<u16>> = (0..num_dsts)
            .map(|i| (0..size).map(|j| ((j + i * 50) * 29) as u16).collect())
            .collect();

        let coeffs_data: Vec<Vec<u16>> = (0..num_dsts)
            .map(|i| (0..num_srcs).map(|j| (i * 111 + j * 222 + 1) as u16).collect())
            .collect();
        let coefficients: Vec<&[u16]> = coeffs_data.iter().map(|v| v.as_slice()).collect();

        let mut expected_data = dsts_data.clone();
        strategy.muladd_region(&mut expected_data, &sources, &coefficients, 0, size);

        let mut src_s2x_data = sources_data.clone();
        for src in &mut src_s2x_data {
            strategy.prepare_shuffle2x(src);
        }
        let src_s2x: Vec<&[u16]> = src_s2x_data.iter().map(|v| v.as_slice()).collect();

        for dst in &mut dsts_data {
            strategy.prepare_shuffle2x(dst);
        }

        strategy.muladd_region_shuffle2x(&mut dsts_data, &src_s2x, &coefficients, 0, size);

        for dst in &mut dsts_data {
            strategy.finish_shuffle2x(dst);
        }

        for (i, (dst, expected)) in dsts_data.iter().zip(expected_data.iter()).enumerate() {
            assert_eq!(
                dst, expected,
                "Strategy {} shuffle2x region failed for dst {}",
                name, i
            );
        }
    }
}

#[test]
fn first_of_the_best_strategies_is_selected() {
    let registry = get_registry(all_features());
    assert_eq!(
        list_simd_strategies(&registry),
        vec![
            ("SSE2", Priority::Basic),
            ("SSSE3", Priority::Enhanced),
            ("AVX2-Shuffle", Priority::Optimal),
            ("PCLMUL", Priority::Advanced),
            ("AVX2-PCLMUL", Priority::Optimal),
        ]
    );
    assert_eq!(get_selected_simd_strategy(&registry), Some("AVX2-Shuffle"));
    assert!(supports_shuffle2x(&registry));
}

#[test]
fn strategy_can_be_forced_by_name() {
    let registry = init_registry_with_config(all_features(), Some("SSE2"));
    assert_eq!(get_selected_simd_strategy(&registry), Some("SSE2"));
    let registry = init_registry_with_config(all_features(), Some("none"));
    assert_eq!(get_selected_simd_strategy(&registry), Some("AVX2-Shuffle"));
}

#[test]
fn shuffled_sums_are_sums() {
    let registry = get_registry(all_features());
    let src: Vec<u16> = (0..48).map(|i| (i * 513) as u16).collect();
    let start: Vec<u16> = (0..48).map(|i| (i * 7 + 1) as u16).collect();
    let mut dst = start.clone();
    let mut shuffled = src.clone();
    prepare_shuffle2x(&registry, &mut dst);
    prepare_shuffle2x(&registry, &mut shuffled);
    assert_ne!(shuffled, src);
    gf_muladd_shuffle2x(&registry, &mut dst, &shuffled, 0x4321);
    finish_shuffle2x(&registry, &mut dst);
    for i in 0..48 {
        assert_eq!(dst[i], start[i] ^ gf_mul(src[i], 0x4321));
    }
}

#[test]
fn products_of_bytes_make_up_products() {
    let data: Vec<u16> = (0..200).map(|i| (i * 331 + 17) as u16).collect();
    for scalar in [0u16, 1, 2, 0x00ff, 0xff00, 0x1234, 0xffff] {
        let expected: Vec<u16> = data.iter().map(|&v| gf_mul(v, scalar)).collect();
        let mut a = data.clone();
        gf_mul_slice_pmull_neon(scalar, &mut a);
        assert_eq!(a, expected);
        let mut b = data.clone();
        gf_mul_slice_neon(scalar, &mut b);
        assert_eq!(b, expected);
        let mut c = vec![5u16; 200];
        gf_muladd_pmull_neon(&mut c, &data, scalar);
        for i in 0..200 {
            assert_eq!(c[i], 5 ^ expected[i]);
        }
    }
}

#[test]
fn many_sources_and_many_rows_on_arm() {
    let sources_vec: Vec<Vec<u16>> =
        (0..3).map(|i| (0..20).map(|j| (j * 97 + i * 1000) as u16).collect()).collect();
    let sources: Vec<&[u16]> = sources_vec.iter().map(|v| v.as_slice()).collect();
    let coeffs = [3u16, 0, 40000];
    let mut dst = vec![1u16; 20];
    gf_muladd_multi_pmull_neon(&mut dst, &sources, &coeffs);
    for i in 0..20 {
        let mut want = 1;
        for s in 0..3 {
            want ^= gf_mul(sources_vec[s][i], coeffs[s]);
        }
        assert_eq!(dst[i], want);
    }
    let mut rows = vec![vec![0u16; 20], vec![9u16; 20], vec![1u16; 20]];
    gf_muladd_column_neon(&mut rows, &sources_vec[0], &coeffs);
    for i in 0..20 {
        assert_eq!(rows[0][i], gf_mul(sources_vec[0][i], 3));
        assert_eq!(rows[1][i], 9);
        assert_eq!(rows[2][i], 1 ^ gf_mul(sources_vec[0][i], 40000));
    }
    let mut words = vec![0u16; 2];
    bytes_to_u16_neon(&[1, 2, 3, 4], &mut words);
    assert_eq!(words, vec![0x0201, 0x0403]);
}
