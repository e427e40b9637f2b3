use par2_rs::hash::compute_md5;
use par2_rs::loader::{reorder_files_canonically, Par2File, StoredFile};
use par2_rs::ordering::cmp_file_id_par2;
use par2_rs::packets::{CREATOR, FILE_DESC, IFSC, MAIN, PAR2_MAGIC, RECV_SLICE};
use par2_rs::parser::{
    complete_main_packet, get_recovery_set_id, parse_file_desc_from_body, parse_ifsc_from_body,
    parse_volume_file, FileInfo, PacketType, RecoveryBlock, SliceChecksum,
};
use par2_rs::writer::{
    compute_file_id, compute_recovery_set_id, pad_to_alignment, write_creator_packet,
    write_file_desc_packet, write_ifsc_packet, write_main_packet, write_packet,
    write_recovery_slice_packet,
};
use par2_rs::Par2Error;

#[test]
fn cmp_file_id_is_little_endian() {
    let mut a = [0u8; 16];
    let mut b = [0u8; 16];
    a[0] = 0xFF;
    b[15] = 0x01;
    assert_eq!(cmp_file_id_par2(&a, &b), std::cmp::Ordering::Less);
}

#[test]
fn file_ids_are_compared_both_ways() {
    let mut a = [0u8; 16];
    let b = [0u8; 16];
    assert_eq!(cmp_file_id_par2(&a, &b), std::cmp::Ordering::Equal);
    a[3] = 1;
    assert_eq!(cmp_file_id_par2(&a, &b), std::cmp::Ordering::Greater);
}

fn mk(byte: u8, name: &str) -> FileInfo {
    FileInfo {
        file_id: [byte; 16],
        hash: [0u8; 16],
        hash_16k: [0u8; 16],
        length: 1,
        name: name.to_string(),
    }
}

#[test]
fn main_packet_order_is_used() {
    let mut files = vec![mk(3, "c"), mk(1, "a"), mk(2, "b")];
    let main_order = vec![[2u8; 16], [3u8; 16], [1u8; 16]];
    reorder_files_canonically(&mut files, &main_order);
    let names: Vec<&str> = files.iter().map(|f| f.name.as_str()).collect();
    assert_eq!(names, vec!["b", "c", "a"], "must follow Main packet order");
}

#[test]
fn files_that_are_not_listed_come_last_by_their_ids() {
    let mut files = vec![mk(9, "z"), mk(3, "c"), mk(1, "a"), mk(2, "b")];
    reorder_files_canonically(&mut files, &[[2u8; 16]]);
    let names: Vec<&str> = files.iter().map(|f| f.name.as_str()).collect();
    assert_eq!(names, vec!["b", "a", "c", "z"]);
}

#[test]
fn test_compute_file_id() {
    let hash_16k = [1u8; 16];
    let length = 12345u64;
    let filename = "test.txt";

    let file_id1 = compute_file_id(&hash_16k, length, filename);
    let file_id2 = compute_file_id(&hash_16k, length, filename);

    assert_eq!(file_id1, file_id2, "File ID should be deterministic");
    assert_ne!(file_id1, [0u8; 16], "File ID should not be all zeros");

    let file_id3 = compute_file_id(&hash_16k, length, "different.txt");
    assert_ne!(file_id1, file_id3, "Different filenames should produce different IDs");

    let mut bytes = vec![1u8; 16];
    bytes.extend_from_slice(&length.to_le_bytes());
    bytes.extend_from_slice(b"test.txt");
    assert_eq!(file_id1, compute_md5(&bytes));
}

#[test]
fn test_compute_recovery_set_id() {
    let body = b"test body data";

    let id1 = compute_recovery_set_id(body);
    let id2 = compute_recovery_set_id(body);

    assert_eq!(id1, id2, "Recovery set ID should be deterministic");
    assert_ne!(id1, [0u8; 16], "Recovery set ID should not be all zeros");

    let id3 = compute_recovery_set_id(b"different body");
    assert_ne!(id1, id3, "Different bodies should produce different IDs");
}

#[test]
fn test_pad_to_alignment() {
    assert_eq!(pad_to_alignment(&[1, 2, 3, 4]), vec![1, 2, 3, 4]);
    assert_eq!(pad_to_alignment(&[1, 2, 3]), vec![1, 2, 3, 0]);
    assert_eq!(pad_to_alignment(&[1, 2]), vec![1, 2, 0, 0]);
    assert_eq!(pad_to_alignment(&[1]), vec![1, 0, 0, 0]);
    assert_eq!(pad_to_alignment(&[]), Vec::<u8>::new());
}

fn u64_at(bytes: &[u8], p: usize) -> u64 {
    let mut b = [0u8; 8];
    b.copy_from_slice(&bytes[p..p + 8]);
    u64::from_le_bytes(b)
}

fn u32_at(bytes: &[u8], p: usize) -> u32 {
    let mut b = [0u8; 4];
    b.copy_from_slice(&bytes[p..p + 4]);
    u32::from_le_bytes(b)
}

#[test]
fn test_write_creator_packet() {
    let mut output = Vec::new();
    let recovery_set_id = [42u8; 16];
    let creator_text = "par2-rs v0.1.0 https://github.com/zephleggett/par2-rs";

    write_creator_packet(&mut output, &recovery_set_id, creator_text).unwrap();

    assert_eq!(&output[0..8], &PAR2_MAGIC);

    let packet_length = u64::from_le_bytes([
        output[8], output[9], output[10], output[11], output[12], output[13], output[14],
        output[15],
    ]);
    assert_eq!(
        packet_length as usize,
        output.len(),
        "Packet length should match actual length"
    );
    assert_eq!(packet_length % 4, 0, "Packet length must be multiple of 4");

    let mut stored_id = [0u8; 16];
    stored_id.copy_from_slice(&output[32..48]);
    assert_eq!(stored_id, recovery_set_id);

    let mut packet_type = [0u8; 16];
    packet_type.copy_from_slice(&output[48..64]);
    assert_eq!(packet_type, CREATOR);

    let body_start = 64;
    let body = &output[body_start..];
    assert!(body.starts_with(creator_text.as_bytes()));
}

#[test]
fn test_write_main_packet() {
    let mut output = Vec::new();
    let recovery_set_id = [42u8; 16];
    let block_size = 2048u64;
    let file_ids = vec![[1u8; 16], [2u8; 16], [3u8; 16]];

    write_main_packet(&mut output, &recovery_set_id, block_size, &file_ids).unwrap();

    assert_eq!(&output[0..8], &PAR2_MAGIC);

    let mut packet_type = [0u8; 16];
    packet_type.copy_from_slice(&output[48..64]);
    assert_eq!(packet_type, MAIN);

    let body_start = 64;
    assert_eq!(u64_at(&output, body_start), block_size);
    assert_eq!(u32_at(&output, body_start + 8), 3);

    let mut stored_id1 = [0u8; 16];
    stored_id1.copy_from_slice(&output[body_start + 12..body_start + 28]);
    let mut stored_id2 = [0u8; 16];
    stored_id2.copy_from_slice(&output[body_start + 28..body_start + 44]);
    let mut stored_id3 = [0u8; 16];
    stored_id3.copy_from_slice(&output[body_start + 44..body_start + 60]);

    assert!(stored_id1 <= stored_id2);
    assert!(stored_id2 <= stored_id3);
}

#[test]
fn main_packet_sorts_ids_by_their_first_bytes() {
    let mut a = [0u8; 16];
    let mut b = [0u8; 16];
    a[0] = 2;
    b[0] = 1;
    b[15] = 9;
    let mut output = Vec::new();
    write_main_packet(&mut output, &[7; 16], 4, &[a, b]).unwrap();
    assert_eq!(&output[76..92], &b);
    assert_eq!(&output[92..108], &a);
}

#[test]
fn test_write_file_desc_packet() {
    let mut output = Vec::new();
    let recovery_set_id = [42u8; 16];
    let file_info = FileInfo {
        file_id: [10u8; 16],
        hash: [20u8; 16],
        hash_16k: [30u8; 16],
        length: 54321,
        name: "testfile.bin".to_string(),
    };

    write_file_desc_packet(&mut output, &recovery_set_id, &file_info).unwrap();

    assert_eq!(&output[0..8], &PAR2_MAGIC);
    let mut packet_type = [0u8; 16];
    packet_type.copy_from_slice(&output[48..64]);
    assert_eq!(packet_type, FILE_DESC);

    let body_start = 64;

    let mut stored_file_id = [0u8; 16];
    stored_file_id.copy_from_slice(&output[body_start..body_start + 16]);
    assert_eq!(stored_file_id, file_info.file_id);

    let mut stored_hash = [0u8; 16];
    stored_hash.copy_from_slice(&output[body_start + 16..body_start + 32]);
    assert_eq!(stored_hash, file_info.hash);

    let mut stored_hash_16k = [0u8; 16];
    stored_hash_16k.copy_from_slice(&output[body_start + 32..body_start + 48]);
    assert_eq!(stored_hash_16k, file_info.hash_16k);

    let stored_length = u64::from_le_bytes([
        output[body_start + 48],
        output[body_start + 49],
        output[body_start + 50],
        output[body_start + 51],
        output[body_start + 52],
        output[body_start + 53],
        output[body_start + 54],
        output[body_start + 55],
    ]);
    assert_eq!(stored_length, file_info.length);

    let filename_bytes = &output[body_start + 56..];
    assert!(filename_bytes.starts_with(file_info.name.as_bytes()));
    let null_pos = filename_bytes.iter().position(|&b| b == 0).unwrap();
    assert_eq!(&filename_bytes[..null_pos], file_info.name.as_bytes());
}

#[test]
fn test_write_recovery_slice_packet() {
    let mut output = Vec::new();
    let recovery_set_id = [42u8; 16];
    let test_data = vec![0x11, 0x22, 0x33, 0x44];
    let recovery_block = RecoveryBlock::from_memory(5, test_data.clone());

    write_recovery_slice_packet(&mut output, &recovery_set_id, &recovery_block, &[]).unwrap();

    assert_eq!(&output[0..8], &PAR2_MAGIC);
    let mut packet_type = [0u8; 16];
    packet_type.copy_from_slice(&output[48..64]);
    assert_eq!(packet_type, RECV_SLICE);

    let body_start = 64;
    let stored_exponent = u32::from_le_bytes([
        output[body_start],
        output[body_start + 1],
        output[body_start + 2],
        output[body_start + 3],
    ]);
    assert_eq!(stored_exponent, recovery_block.exponent);

    if let Some(ref data) = recovery_block.data {
        assert_eq!(&output[body_start + 4..body_start + 8], &data[..]);
    }
}

#[test]
fn recovery_data_are_read_from_a_file() {
    let file: Vec<u8> = (0..40).collect();
    let block = RecoveryBlock {
        exponent: 3,
        data: None,
        file_path: "volume".to_string(),
        data_offset: 10,
        data_length: 8,
    };
    assert_eq!(block.read_all(&file).unwrap(), (10..18).collect::<Vec<u8>>());
    assert_eq!(block.read_chunk(&file, 6, 8).unwrap(), vec![16, 17]);
    assert_eq!(block.read_chunk(&file, 8, 8).unwrap(), Vec::<u8>::new());
    match block.read_all(&file[..17]) {
        Err(Par2Error::Io(m)) => assert_eq!(m, "failed to fill whole buffer"),
        _ => panic!("no error"),
    }
    let mut output = Vec::new();
    write_recovery_slice_packet(&mut output, &[1; 16], &block, &file).unwrap();
    assert_eq!(&output[64..76], &[3, 0, 0, 0, 10, 11, 12, 13, 14, 15, 16, 17]);
    let in_memory = RecoveryBlock::from_memory(0, vec![5, 6, 7]);
    assert_eq!(in_memory.read_chunk(&[], 1, 9).unwrap(), vec![6, 7]);
    assert_eq!(in_memory.read_chunk(&[], 4, 9).unwrap(), Vec::<u8>::new());
}

#[test]
fn packet_types_are_known_by_their_bytes() {
    assert_eq!(PacketType::from_bytes(&MAIN), PacketType::Main);
    assert_eq!(PacketType::from_bytes(&FILE_DESC), PacketType::FileDescription);
    assert_eq!(PacketType::from_bytes(&IFSC), PacketType::InputFileSlice);
    assert_eq!(PacketType::from_bytes(&RECV_SLICE), PacketType::RecoverySlice);
    assert_eq!(PacketType::from_bytes(&CREATOR), PacketType::Creator);
    assert_eq!(PacketType::from_bytes(&[0; 16]), PacketType::Unknown);
    assert_eq!(&FILE_DESC, b"PAR 2.0\0FileDesc");
    assert_eq!(&PAR2_MAGIC, b"PAR2\0PKT");
}

#[test]
fn bodies_read_back() {
    let mut packet = Vec::new();
    write_main_packet(&mut packet, &[1; 16], 4096, &[[9; 16], [8; 16]]).unwrap();
    let main = complete_main_packet(&packet[64..]).unwrap();
    assert_eq!(main.block_size, 4096);
    assert_eq!(main.recovery_file_ids, vec![[8; 16], [9; 16]]);
    assert!(complete_main_packet(&packet[64..71]).is_none());

    let file = FileInfo { name: "caf\u{e9}.bin".to_string(), ..mk(4, "") };
    let mut packet = Vec::new();
    write_file_desc_packet(&mut packet, &[1; 16], &file).unwrap();
    let read = parse_file_desc_from_body(&packet[64..]).unwrap();
    assert_eq!(read.name, file.name);
    assert_eq!(read.file_id, file.file_id);
    assert_eq!(read.length, 1);
    assert!(parse_file_desc_from_body(&packet[64..119]).is_none());

    let sums = vec![
        SliceChecksum { md5: [1; 16], crc32: 77 },
        SliceChecksum { md5: [2; 16], crc32: 0xdeadbeef },
    ];
    let mut packet = Vec::new();
    write_ifsc_packet(&mut packet, &[1; 16], &[6; 16], &sums).unwrap();
    let (id, read) = parse_ifsc_from_body(&packet[64..]).unwrap();
    assert_eq!(id, [6; 16]);
    assert_eq!(read.len(), 2);
    assert_eq!(read[1].md5, [2; 16]);
    assert_eq!(read[1].crc32, 0xdeadbeef);
    match parse_ifsc_from_body(&packet[64..70]) {
        Err(Par2Error::RepairFailed(m)) => assert_eq!(m, "IFSC packet too small"),
        _ => panic!("no error"),
    }
}

#[test]
fn invalid_names_are_replaced() {
    let mut body = vec![0u8; 56];
    body.extend_from_slice(&[b'a', 0xff, b'b', 0, b'c']);
    let file = parse_file_desc_from_body(&body).unwrap();
    assert_eq!(file.name, "a\u{fffd}b");
}

#[test]
fn packets_are_found_between_other_bytes() {
    let mut data = vec![1, 2, 3];
    write_recovery_slice_packet(&mut data, &[5; 16], &RecoveryBlock::from_memory(7, vec![9; 8]), &[])
        .unwrap();
    data.extend_from_slice(b"PAR2\0PKT");
    let blocks = parse_volume_file(&data, 8, "v").unwrap();
    assert_eq!(blocks.len(), 1);
    assert_eq!(blocks[0].exponent, 7);
    assert_eq!(blocks[0].data_offset, 71);
    assert_eq!(blocks[0].read_all(&data).unwrap(), vec![9; 8]);
    for (size, text) in [
        (0, "Invalid PAR2 volume: block size missing or zero"),
        (6, "Invalid PAR2 volume: block size not aligned"),
    ] {
        match parse_volume_file(&data, size, "v") {
            Err(Par2Error::InvalidFormat(m)) => assert_eq!(m, text),
            _ => panic!("no error"),
        }
    }
}

#[test]
fn recovery_set_is_named_by_the_first_packet() {
    let mut data = Vec::new();
    write_packet(&mut data, &CREATOR, &[3; 16], b"me").unwrap();
    assert_eq!(get_recovery_set_id(&data).unwrap(), [3; 16]);
    match get_recovery_set_id(&data[1..]) {
        Err(Par2Error::RepairFailed(m)) => assert_eq!(m, "Invalid PAR2 file"),
        _ => panic!("no error"),
    }
    match get_recovery_set_id(&data[..63]) {
        Err(Par2Error::Io(_)) => {}
        _ => panic!("no error"),
    }
}

fn load_message(data: &[u8]) -> String {
    match Par2File::load("x.par2", data, &[]) {
        Ok(_) => String::new(),
        Err(e) => e.message(),
    }
}

#[test]
fn files_that_are_no_sets_are_refused() {
    assert_eq!(
        load_message(&[]),
        "Invalid PAR2 file format: Invalid PAR2 file: empty file"
    );
    assert_eq!(
        load_message(&[0; 200]),
        "PAR2 repair failed: Invalid PAR2 file: no main packet"
    );
    let mut data = Vec::new();
    write_creator_packet(&mut data, &[1; 16], "me").unwrap();
    assert_eq!(
        load_message(&data),
        "Invalid PAR2 file format: Invalid PAR2 file: block size missing or zero"
    );
    let mut odd = data.clone();
    write_main_packet(&mut odd, &[1; 16], 6, &[]).unwrap();
    assert_eq!(
        load_message(&odd),
        "Invalid PAR2 file format: Invalid PAR2 file: block size must be multiple of 4"
    );
    write_main_packet(&mut data, &[1; 16], 8, &[]).unwrap();
    assert_eq!(load_message(&data), "");
}

#[test]
fn packets_that_are_not_intact_are_passed_over() {
    let mut data = Vec::new();
    write_main_packet(&mut data, &[1; 16], 8, &[[4; 16]]).unwrap();
    let start = data.len();
    write_file_desc_packet(&mut data, &[1; 16], &mk(4, "a")).unwrap();
    let last = data.len() - 1;
    let set = Par2File::load("x", &data, &[]).unwrap();
    assert_eq!(set.files.len(), 1);
    assert_eq!(set.files_in_order[0].name, "a");
    data[start + 70] ^= 1;
    let set = Par2File::load("x", &data, &[]).unwrap();
    assert_eq!(set.files.len(), 0);
    data[start + 70] ^= 1;
    data[last] ^= 1;
    assert_eq!(Par2File::load("x", &data, &[]).unwrap().files.len(), 0);
}

#[test]
fn recovery_blocks_before_the_main_packet_are_found() {
    let mut data = Vec::new();
    let block = RecoveryBlock::from_memory(2, vec![1, 2, 3, 4, 5, 6, 7, 8]);
    write_recovery_slice_packet(&mut data, &[1; 16], &block, &[]).unwrap();
    write_main_packet(&mut data, &[1; 16], 8, &[]).unwrap();
    let mut other = Vec::new();
    write_recovery_slice_packet(&mut other, &[1; 16], &RecoveryBlock::from_memory(3, vec![0; 8]), &[])
        .unwrap();
    let mut foreign = Vec::new();
    write_recovery_slice_packet(&mut foreign, &[2; 16], &RecoveryBlock::from_memory(4, vec![0; 8]), &[])
        .unwrap();
    let volumes = vec![
        StoredFile { path: "o".to_string(), data: other },
        StoredFile { path: "f".to_string(), data: foreign },
    ];
    let set = Par2File::load("x", &data, &volumes).unwrap();
    let exponents: Vec<u32> = set.recovery_blocks.iter().map(|b| b.exponent).collect();
    assert_eq!(exponents, vec![2, 3]);
    assert_eq!(set.recovery_blocks[0].file_path, "x");
    assert_eq!(set.recovery_blocks[1].file_path, "o");
    assert_eq!(set.recovery_blocks[0].read_all(&data).unwrap(), vec![1, 2, 3, 4, 5, 6, 7, 8]);
}

#[test]
fn a_recovery_block_that_cannot_be_read_is_not_written() {
    let mut block = RecoveryBlock::from_memory(3, vec![0; 8]);
    block.data = None;
    block.data_offset = 4;
    block.data_length = 8;
    let mut output = vec![7u8];
    match write_recovery_slice_packet(&mut output, &[1; 16], &block, &[0; 11]) {
        Err(Par2Error::Io(m)) => assert_eq!(m, "I/O error: failed to fill whole buffer"),
        _ => panic!("no error"),
    }
    assert_eq!(output, vec![7u8]);
    assert!(write_recovery_slice_packet(&mut output, &[1; 16], &block, &[0; 12]).is_ok());
}
