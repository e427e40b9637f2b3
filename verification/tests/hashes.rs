use crc32fast::Hasher as Crc32Hasher;
use md5::{Digest, Md5};
use par2_rs::hash::{compute_crc32, compute_md5, compute_md5_crc32, same_digest};

#[test]
fn test_empty_data() {
    let data = b"";
    let (md5, crc32) = compute_md5_crc32(data);

    assert_eq!(
        md5,
        [
            0xd4, 0x1d, 0x8c, 0xd9, 0x8f, 0x00, 0xb2, 0x04, 0xe9, 0x80, 0x09, 0x98, 0xec, 0xf8,
            0x42, 0x7e
        ]
    );
    assert_eq!(crc32, 0);
}

#[test]
fn test_abc() {
    let data = b"abc";
    let (md5, crc32) = compute_md5_crc32(data);

    assert_eq!(
        md5,
        [
            0x90, 0x01, 0x50, 0x98, 0x3c, 0xd2, 0x4f, 0xb0, 0xd6, 0x96, 0x3f, 0x7d, 0x28, 0xe1,
            0x7f, 0x72
        ]
    );
    assert_eq!(crc32, 0x352441c2);
}

#[test]
fn test_long_message() {
    let data = b"message digest";
    let (md5, crc32) = compute_md5_crc32(data);

    assert_eq!(
        md5,
        [
            0xf9, 0x6b, 0x69, 0x7d, 0x7c, 0xb7, 0x93, 0x8d, 0x52, 0x5a, 0x2f, 0x31, 0xaa, 0xf1,
            0x61, 0xd0
        ]
    );
    assert_ne!(crc32, 0);
}

#[test]
fn test_compare_with_reference() {
    let test_data = b"The quick brown fox jumps over the lazy dog";

    let mut md5_hasher = Md5::new();
    md5_hasher.update(test_data);
    let expected_md5: [u8; 16] = md5_hasher.finalize().into();

    let mut crc_hasher = Crc32Hasher::new();
    crc_hasher.update(test_data);
    let expected_crc = crc_hasher.finalize();

    let (md5, crc32) = compute_md5_crc32(test_data);

    assert_eq!(md5, expected_md5);
    assert_eq!(crc32, expected_crc);
}

#[test]
fn test_block_sized_data() {
    let data = vec![0x42u8; 64];

    let mut md5_hasher = Md5::new();
    md5_hasher.update(&data);
    let expected_md5: [u8; 16] = md5_hasher.finalize().into();

    let mut crc_hasher = Crc32Hasher::new();
    crc_hasher.update(&data);
    let expected_crc = crc_hasher.finalize();

    let (md5, crc32) = compute_md5_crc32(&data);

    assert_eq!(md5, expected_md5);
    assert_eq!(crc32, expected_crc);
}

#[test]
fn test_large_data() {
    let data = vec![0x5au8; 512 * 1024];

    let mut md5_hasher = Md5::new();
    md5_hasher.update(&data);
    let expected_md5: [u8; 16] = md5_hasher.finalize().into();

    let mut crc_hasher = Crc32Hasher::new();
    crc_hasher.update(&data);
    let expected_crc = crc_hasher.finalize();

    let (md5, crc32) = compute_md5_crc32(&data);

    assert_eq!(md5, expected_md5);
    assert_eq!(crc32, expected_crc);
}

#[test]
fn digests_one_by_one() {
    let (md5, crc32) = compute_md5_crc32(b"123456789");
    assert_eq!(compute_md5(b"123456789"), md5);
    assert_eq!(compute_crc32(b"123456789"), crc32);
    assert_eq!(crc32, 0xcbf43926);
    assert!(same_digest(&md5, &compute_md5(b"123456789")));
    assert!(!same_digest(&md5, &compute_md5(b"12345678")));
}
