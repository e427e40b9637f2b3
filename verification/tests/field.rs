use par2_rs::galois::element::GF_SIZE;
use par2_rs::galois::scalar::{
    bytes_to_u16_scalar, gf_mul_slice_scalar, gf_muladd_scalar, u16_to_bytes_scalar,
};
use par2_rs::galois::{
    bytes_to_u16_simd, bytes_to_u16_simd_with_zero_flag, gf_div, gf_mul, gf_mul_slice, gf_pow,
    init_tables, u16_to_bytes_simd,
};

#[test]
fn galois_test_gf_initialization() {
    init_tables();
    init_tables();
}

#[test]
fn galois_test_gf_multiplication() {
    init_tables();

    // Identity
    assert_eq!(gf_mul(1, 5), 5);
    assert_eq!(gf_mul(5, 1), 5);

    // Zero
    assert_eq!(gf_mul(0, 5), 0);
    assert_eq!(gf_mul(5, 0), 0);

    // Commutative
    assert_eq!(gf_mul(3, 7), gf_mul(7, 3));

    // Generator
    assert_eq!(gf_mul(2, 2), gf_pow(2, 2));
}

#[test]
fn galois_test_gf_division() {
    init_tables();

    // a / a = 1
    assert_eq!(gf_div(5, 5), Some(1));

    // a / 1 = a
    assert_eq!(gf_div(5, 1), Some(5));

    // 0 / a = 0
    assert_eq!(gf_div(0, 5), Some(0));

    // Division is inverse of multiplication
    let a = 123u16;
    let b = 456u16;
    assert_eq!(gf_div(gf_mul(a, b), b), Some(a));
}

#[test]
fn galois_test_gf_power() {
    init_tables();

    // a^0 = 1
    assert_eq!(gf_pow(5, 0), 1);
    assert_eq!(gf_pow(0, 0), 1);

    // a^1 = a
    assert_eq!(gf_pow(5, 1), 5);

    // 0^n = 0 for n > 0
    assert_eq!(gf_pow(0, 5), 0);

    // a^2 = a * a
    let a = 123u16;
    assert_eq!(gf_pow(a, 2), gf_mul(a, a));

    // a^3 = a * a * a
    assert_eq!(gf_pow(a, 3), gf_mul(gf_mul(a, a), a));
}

#[test]
fn galois_test_field_properties() {
    init_tables();

    // Multiplication by the inverse gives 1
    let a = 42u16;
    let a_inv = gf_pow(a, GF_SIZE - 2);
    assert_eq!(gf_mul(a, a_inv), 1);
}

#[test]
fn galois_test_simd_mul_slice() {
    init_tables();

    let scalar = 123u16;
    let mut data = vec![
        1u16, 2, 3, 4, 5, 100, 200, 300, 1000, 2000, 5000, 10000, 30000, 60000,
    ];
    let mut expected = data.clone();
    for val in expected.iter_mut() {
        *val = gf_mul(*val, scalar);
    }

    gf_mul_slice(scalar, &mut data);

    assert_eq!(data, expected, "SIMD multiplication should match scalar");
}

#[test]
fn galois_test_bytes_to_u16_simd() {
    let test_cases = vec![
        vec![0x12, 0x34, 0x56, 0x78, 0xAB, 0xCD, 0xEF, 0x01],
        vec![0x00, 0x01, 0xFF, 0xFE, 0x12, 0x34],
        vec![0xAA; 32],
        vec![
            0x01, 0x02, 0x03, 0x04, 0x05, 0x06, 0x07, 0x08, 0x09, 0x0A, 0x0B, 0x0C, 0x0D, 0x0E,
            0x0F, 0x10, 0x11, 0x12,
        ],
    ];

    for bytes in test_cases {
        let mut output = vec![0u16; bytes.len() / 2];
        let mut expected = vec![0u16; bytes.len() / 2];
        for (i, chunk) in bytes.chunks_exact(2).enumerate() {
            expected[i] = u16::from_le_bytes([chunk[0], chunk[1]]);
        }

        bytes_to_u16_simd(&bytes, &mut output);

        assert_eq!(
            output, expected,
            "SIMD byte conversion should match scalar for input {:?}",
            bytes
        );
    }
}

#[test]
fn galois_test_simd_mul_slice_32() {
    init_tables();

    let scalar = 123u16;
    let mut data: Vec<u16> = (0..32).collect();
    let mut expected = data.clone();
    for val in expected.iter_mut() {
        *val = gf_mul(*val, scalar);
    }

    gf_mul_slice(scalar, &mut data);

    assert_eq!(data, expected, "SIMD on 32-element array should match scalar");
}

#[test]
fn galois_test_simd_mul_slice_large() {
    init_tables();

    let scalar = 999u16;
    let mut data: Vec<u16> = (0..1024).map(|i| (i * 37) as u16).collect();
    let mut expected = data.clone();
    for val in expected.iter_mut() {
        *val = gf_mul(*val, scalar);
    }

    gf_mul_slice(scalar, &mut data);

    assert_eq!(data, expected, "SIMD on large array should match scalar");
}

#[test]
fn tests_test_gf_initialization() {
    init_tables();
    init_tables();
}

#[test]
fn tests_test_gf_multiplication() {
    init_tables();

    // Identity
    assert_eq!(gf_mul(1, 5), 5);
    assert_eq!(gf_mul(5, 1), 5);

    // Zero
    assert_eq!(gf_mul(0, 5), 0);
    assert_eq!(gf_mul(5, 0), 0);

    // Commutative
    assert_eq!(gf_mul(3, 7), gf_mul(7, 3));

    // Generator
    assert_eq!(gf_mul(2, 2), gf_pow(2, 2));
}

#[test]
fn tests_test_gf_division() {
    init_tables();

    // a / a = 1
    assert_eq!(gf_div(5, 5), Some(1));

    // a / 1 = a
    assert_eq!(gf_div(5, 1), Some(5));

    // 0 / a = 0
    assert_eq!(gf_div(0, 5), Some(0));

    // Division is inverse of multiplication
    let a = 123u16;
    let b = 456u16;
    assert_eq!(gf_div(gf_mul(a, b), b), Some(a));
}

#[test]
fn tests_test_gf_power() {
    init_tables();

    // a^0 = 1
    assert_eq!(gf_pow(5, 0), 1);
    assert_eq!(gf_pow(0, 0), 1);

    // a^1 = a
    assert_eq!(gf_pow(5, 1), 5);

    // 0^n = 0 for n > 0
    assert_eq!(gf_pow(0, 5), 0);

    // a^2 = a * a
    let a = 123u16;
    assert_eq!(gf_pow(a, 2), gf_mul(a, a));

    // a^3 = a * a * a
    assert_eq!(gf_pow(a, 3), gf_mul(gf_mul(a, a), a));
}

#[test]
fn tests_test_field_properties() {
    init_tables();

    // Multiplication by the inverse gives 1
    let a = 42u16;
    let a_inv = gf_pow(a, GF_SIZE - 2);
    assert_eq!(gf_mul(a, a_inv), 1);
}

#[test]
fn tests_test_simd_mul_slice() {
    init_tables();

    let scalar = 123u16;
    let mut data = vec![
        1u16, 2, 3, 4, 5, 100, 200, 300, 1000, 2000, 5000, 10000, 30000, 60000,
    ];
    let mut expected = data.clone();
    for val in expected.iter_mut() {
        *val = gf_mul(*val, scalar);
    }

    gf_mul_slice(scalar, &mut data);

    assert_eq!(data, expected, "SIMD multiplication should match scalar");
}

#[test]
fn tests_test_bytes_to_u16_simd() {
    let test_cases = vec![
        vec![0x12, 0x34, 0x56, 0x78, 0xAB, 0xCD, 0xEF, 0x01],
        vec![0x00, 0x01, 0xFF, 0xFE, 0x12, 0x34],
        vec![0xAA; 32],
        vec![
            0x01, 0x02, 0x03, 0x04, 0x05, 0x06, 0x07, 0x08, 0x09, 0x0A, 0x0B, 0x0C, 0x0D, 0x0E,
            0x0F, 0x10, 0x11, 0x12,
        ],
    ];

    for bytes in test_cases {
        let mut output = vec![0u16; bytes.len() / 2];
        let mut expected = vec![0u16; bytes.len() / 2];
        for (i, chunk) in bytes.chunks_exact(2).enumerate() {
            expected[i] = u16::from_le_bytes([chunk[0], chunk[1]]);
        }

        bytes_to_u16_simd(&bytes, &mut output);

        assert_eq!(
            output, expected,
            "SIMD byte conversion should match scalar for input {:?}",
            bytes
        );
    }
}

#[test]
fn tests_test_simd_mul_slice_32() {
    init_tables();

    let scalar = 123u16;
    let mut data: Vec<u16> = (0..32).collect();
    let mut expected = data.clone();
    for val in expected.iter_mut() {
        *val = gf_mul(*val, scalar);
    }

    gf_mul_slice(scalar, &mut data);

    assert_eq!(data, expected, "SIMD on 32-element array should match scalar");
}

#[test]
fn tests_test_simd_mul_slice_large() {
    init_tables();

    let scalar = 999u16;
    let mut data: Vec<u16> = (0..1024).map(|i| (i * 37) as u16).collect();
    let mut expected = data.clone();
    for val in expected.iter_mut() {
        *val = gf_mul(*val, scalar);
    }

    gf_mul_slice(scalar, &mut data);

    assert_eq!(data, expected, "SIMD on large array should match scalar");
}

#[test]
fn tests_test_gf_division_by_zero() {
    init_tables();
    assert_eq!(gf_div(5, 0), None);
}

#[test]
fn test_scalar_mul_slice() {
    let mut data = vec![1, 2, 3, 4, 5];
    let scalar = 7;
    gf_mul_slice_scalar(scalar, &mut data);

    assert_eq!(data[0], gf_mul(1, 7));
    assert_eq!(data[1], gf_mul(2, 7));
    assert_eq!(data[2], gf_mul(3, 7));
}

#[test]
fn test_scalar_muladd() {
    let mut dst = vec![10, 20, 30];
    let src = vec![1, 2, 3];
    let scalar = 5;

    gf_muladd_scalar(&mut dst, &src, scalar);

    assert_eq!(dst[0], 10 ^ gf_mul(1, 5));
    assert_eq!(dst[1], 20 ^ gf_mul(2, 5));
    assert_eq!(dst[2], 30 ^ gf_mul(3, 5));
}

#[test]
fn test_bytes_conversion() {
    let bytes = vec![0x01, 0x02, 0x03, 0x04, 0x05, 0x06];
    let mut u16_data = vec![0u16; 3];

    bytes_to_u16_scalar(&bytes, &mut u16_data);

    assert_eq!(u16_data[0], 0x0201);
    assert_eq!(u16_data[1], 0x0403);
    assert_eq!(u16_data[2], 0x0605);

    let mut bytes_out = vec![0u8; 6];
    u16_to_bytes_scalar(&u16_data, &mut bytes_out);

    assert_eq!(bytes, bytes_out);
}

#[test]
fn products_are_reduced_by_the_polynomial() {
    assert_eq!(gf_mul(0x8000, 2), 0x100b);
    assert_eq!(gf_mul(3, 7), 9);
    assert_eq!(gf_pow(2, 16), 0x100b);
    assert_eq!(gf_pow(2, 65535), 1);
    assert_eq!(gf_pow(2, 65536), 2);
}

#[test]
fn products_distribute_and_associate() {
    for (a, b, c) in [(0x1234u16, 0xfedcu16, 0x0f0fu16), (1, 2, 3), (0xffff, 0x8000, 0x7fff)] {
        assert_eq!(gf_mul(a ^ b, c), gf_mul(a, c) ^ gf_mul(b, c));
        assert_eq!(gf_mul(gf_mul(a, b), c), gf_mul(a, gf_mul(b, c)));
    }
}

#[test]
fn tables_agree_with_direct_products() {
    let tables = init_tables();
    for i in 0..500u32 {
        let a = (i * 131) as u16;
        let b = (i * 977 + 5) as u16;
        assert_eq!(tables.gf_mul(a, b), gf_mul(a, b));
        assert_eq!(tables.gf_div(a, b), gf_div(a, b));
        assert_eq!(tables.gf_pow(a, i as usize), gf_pow(a, i as usize));
    }
}

#[test]
fn tables_hold_logarithms_and_powers() {
    let tables = init_tables();
    assert_eq!(tables.log(0), 0);
    assert_eq!(tables.log(1), 0);
    assert_eq!(tables.log(2), 1);
    assert_eq!(tables.exp(16), 0x100B);
    assert_eq!(tables.log(0x100B), 16);
    assert_eq!(tables.exp(65535 + 16), 0x100B);
}

#[test]
fn zero_flag_tells_whether_all_elements_are_zero() {
    let mut output = vec![7u16; 3];
    assert!(bytes_to_u16_simd_with_zero_flag(&[0; 6], &mut output));
    assert_eq!(output, vec![0, 0, 0]);
    assert!(!bytes_to_u16_simd_with_zero_flag(&[0, 0, 0, 0, 0, 1], &mut output));
    assert_eq!(output, vec![0, 0, 256]);
    let mut bytes = vec![0u8; 6];
    u16_to_bytes_simd(&output, &mut bytes);
    assert_eq!(bytes, vec![0, 0, 0, 0, 0, 1]);
}
