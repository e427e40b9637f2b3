use par2_rs::blocks::{count_blocks, take_block};
use par2_rs::creator::{
    calculate_block_size, count_data_blocks, count_recovery_blocks, describe_file, encode_files,
    InputFile, Par2Creator,
};
use par2_rs::hash::{compute_crc32, compute_md5};
use par2_rs::loader::{Par2File, StoredFile};
use par2_rs::parser::FileInfo;
use par2_rs::reed_solomon::Par2ReedSolomon;
use par2_rs::writer::compute_file_id;
use par2_rs::{Par2Error, Par2Info, VolumeScheme};

fn input(path: &str, data: Vec<u8>) -> InputFile {
    InputFile { path: path.to_string(), exists: true, data }
}

fn sample(len: usize, seed: usize) -> Vec<u8> {
    (0..len).map(|i| (i * 7 + i / 251 + seed * 31) as u8).collect()
}

fn text<T>(r: Result<T, Par2Error>) -> String {
    match r {
        Ok(_) => String::new(),
        Err(e) => e.message(),
    }
}

#[test]
fn test_calculate_block_size() {
    assert_eq!(calculate_block_size(0), 2048);
    assert_eq!(calculate_block_size(1_000_000), 2048);
    assert_eq!(calculate_block_size(10_000_000), 5000);
    assert_eq!(calculate_block_size(1_000_000_000), 500_000);

    for size in [0, 1000, 1_000_000, 100_000_000, 10_000_000_000] {
        let block_size = calculate_block_size(size);
        assert_eq!(block_size % 4, 0, "Block size must be multiple of 4");
        assert!(block_size >= 2048, "Block size must be at least 2KB");
        assert!(block_size <= 4 * 1024 * 1024, "Block size must be at most 4MB");
    }
}

#[test]
fn huge_sets_get_larger_blocks() {
    let total = 65535 * 4194304 + 1;
    assert_eq!(calculate_block_size(total), 4194308);
    assert_eq!(calculate_block_size(total - 1), 4194304);
    assert_eq!(calculate_block_size(u64::MAX), 281479271743492);
}

#[test]
fn test_creator_new_empty_files() {
    let result = Par2Creator::new(vec![]);
    assert!(result.is_err(), "Should fail with empty file list");
}

#[test]
fn test_creator_invalid_block_size() {
    let creator = Par2Creator::new(vec![input("test.bin", vec![])]).unwrap();
    let result = creator.with_block_size(2047);
    assert!(result.is_err(), "Should fail with invalid block size");
}

#[test]
fn creator_checks_its_files_and_block_size() {
    assert_eq!(text(Par2Creator::new(vec![])), "Invalid PAR2 file format: No input files");
    let gone = InputFile { path: "b".to_string(), exists: false, data: vec![] };
    assert_eq!(
        text(Par2Creator::new(vec![input("a", vec![]), gone])),
        "Invalid PAR2 file format: Input file does not exist: b"
    );
    let size = |n| text(Par2Creator::new(vec![input("a", vec![])]).unwrap().with_block_size(n));
    assert_eq!(size(0), "Invalid PAR2 file format: Block size cannot be zero");
    assert_eq!(
        size(100),
        "Invalid PAR2 file format: Block size must be at least 2048 bytes (got 100)"
    );
    assert_eq!(size(2050), "Invalid PAR2 file format: Block size must be multiple of 4");
    assert_eq!(size(2052), "");
}

#[test]
fn output_path_is_that_of_the_first_file() {
    let creator = Par2Creator::new(vec![input("archive", vec![])]).unwrap();
    assert_eq!(creator.output_path, "archive.par2");
    let creator = Par2Creator::new(vec![input("/d/archive.tar", vec![])]).unwrap();
    assert_eq!(creator.output_path, "/d/archive.par2");
    let creator = creator.with_output_path("x".to_string());
    assert_eq!(creator.output_path, "x");
    assert_eq!(creator.volume_scheme, VolumeScheme::Exponential);
    let creator = creator.with_volume_scheme(VolumeScheme::Single);
    assert_eq!(creator.volume_scheme, VolumeScheme::Single);
}

#[test]
fn files_are_cut_into_blocks_filled_with_zeros() {
    assert_eq!(count_blocks(0, 4), 0);
    assert_eq!(count_blocks(1, 4), 1);
    assert_eq!(count_blocks(8, 4), 2);
    assert_eq!(count_blocks(u64::MAX, 1), u64::MAX);
    let data = vec![1, 2, 3, 4, 5, 6];
    assert_eq!(take_block(&data, 4, 0), vec![1, 2, 3, 4]);
    assert_eq!(take_block(&data, 4, 1), vec![5, 6, 0, 0]);
}

#[test]
fn files_are_described_by_digests() {
    let data = sample(20000, 1);
    let file = describe_file("name.bin", &data);
    assert_eq!(file.hash, compute_md5(&data));
    assert_eq!(file.hash_16k, compute_md5(&data[..16384]));
    assert_eq!(file.length, 20000);
    assert_eq!(file.file_id, compute_file_id(&file.hash_16k, 20000, "name.bin"));
    let small = describe_file("s", &data[..10]);
    assert_eq!(small.hash, small.hash_16k);
}

fn sized(name: &str, length: u64) -> FileInfo {
    FileInfo {
        file_id: [0; 16],
        hash: [0; 16],
        hash_16k: [0; 16],
        length,
        name: name.to_string(),
    }
}

#[test]
fn block_counts_have_limits() {
    assert_eq!(count_data_blocks(&[sized("a", 5), sized("b", 8)], 4).unwrap(), 4);
    assert_eq!(count_data_blocks(&[sized("a", 65535 * 4)], 4).unwrap(), 65535);
    assert_eq!(
        text(count_data_blocks(&[sized("a", 65535 * 4 + 1)], 4)),
        "Invalid PAR2 file format: Total data blocks (65536) exceed GF(2^16) limit (65535)"
    );
    assert_eq!(
        text(count_data_blocks(&[sized("a", u64::MAX), sized("b", u64::MAX)], 1)),
        "Invalid PAR2 file format: Too many total blocks"
    );
    assert_eq!(
        text(count_data_blocks(&[sized("a", 3 << 62), sized("b", 3 << 62)], 1 << 63)),
        "Invalid PAR2 file format: Data size overflow"
    );
    assert_eq!(count_recovery_blocks(10, 9, 4).unwrap(), 3);
    assert_eq!(
        text(count_recovery_blocks(10, 65536 * 4, 4)),
        "Invalid PAR2 file format: Recovery blocks (65536) exceed GF(2^16) limit (65535)"
    );
    assert_eq!(
        text(count_recovery_blocks(10, 65526 * 4, 4)),
        "Invalid PAR2 file format: Total blocks (data + recovery) exceed GF(2^16) limit (65535)"
    );
}

#[test]
fn files_are_encoded_block_by_block() {
    let files = vec![input("a", sample(10, 1)), input("b", vec![]), input("c", sample(16, 2))];
    let (sums, recovery) = encode_files(&files, &vec![0, 1, 2], 8, 4, 3, 2).unwrap();
    let blocks = vec![
        take_block(&files[0].data, 8, 0),
        take_block(&files[0].data, 8, 1),
        take_block(&files[2].data, 8, 0),
        take_block(&files[2].data, 8, 1),
    ];
    assert_eq!(recovery, Par2ReedSolomon::new(4, 3).encode(&blocks, 3, 8).unwrap());
    assert_eq!(sums.len(), 3);
    assert_eq!(sums[0].len(), 2);
    assert_eq!(sums[1].len(), 0);
    assert_eq!(sums[0][1].md5, compute_md5(&blocks[1]));
    assert_eq!(sums[2][0].crc32, compute_crc32(&blocks[2]));
}

#[test]
fn the_order_of_files_numbers_their_blocks() {
    let files = vec![input("a", sample(10, 1)), input("b", vec![]), input("c", sample(16, 2))];
    let (sums, recovery) = encode_files(&files, &vec![2, 0, 1], 8, 4, 3, 2).unwrap();
    let blocks = vec![
        take_block(&files[2].data, 8, 0),
        take_block(&files[2].data, 8, 1),
        take_block(&files[0].data, 8, 0),
        take_block(&files[0].data, 8, 1),
    ];
    assert_eq!(recovery, Par2ReedSolomon::new(4, 3).encode(&blocks, 3, 8).unwrap());
    assert_eq!(sums[0][1].md5, compute_md5(&blocks[3]));
    assert_eq!(sums[1].len(), 0);
    assert_eq!(sums[2][0].crc32, compute_crc32(&blocks[0]));
}

#[test]
fn names_and_volumes_follow_from_paths() {
    let creator = Par2Creator::new(vec![input("d/archive.tar", sample(9000, 3))]).unwrap();
    assert_eq!(creator.describe_inputs().unwrap()[0].name, "archive.tar");
    let out = creator.create(6000, 2).unwrap();
    let places: Vec<&str> = out.iter().map(|f| f.path.as_str()).collect();
    assert_eq!(
        places,
        vec!["d/archive.par2", "d/archive.vol0+1.par2", "d/archive.vol1+2.par2"]
    );
    let odd = ["d//x.bin/", "a/./y", "z/.", "..."].iter().map(|path| input(path, vec![1])).collect();
    let names: Vec<String> = Par2Creator::new(odd)
        .unwrap()
        .describe_inputs()
        .unwrap()
        .into_iter()
        .map(|file| file.name)
        .collect();
    assert_eq!(names, vec!["x.bin", "y", "z", "..."]);
    let creator = Par2Creator::new(vec![input("../.d/.hidden", sample(9000, 3))]).unwrap();
    assert_eq!(creator.describe_inputs().unwrap()[0].name, ".hidden");
    assert_eq!(creator.output_path, "../.d/.hidden.par2");
    let out = creator.create(2000, 2).unwrap();
    assert_eq!(out[1].path, "../.d/.hidden.vol0+1.par2");
}

fn create(files: Vec<InputFile>, scheme: VolumeScheme, recovery_bytes: u64) -> Vec<StoredFile> {
    Par2Creator::new(files)
        .unwrap()
        .with_output_path("set.par2".to_string())
        .with_volume_scheme(scheme)
        .create(recovery_bytes, 4)
        .unwrap()
}

#[test]
fn created_sets_load() {
    let data = sample(9000, 3);
    let out = create(vec![input("one", data.clone())], VolumeScheme::Exponential, 6000);
    let names: Vec<&str> = out.iter().map(|f| f.path.as_str()).collect();
    assert_eq!(names, vec!["set.par2", "set.vol0+1.par2", "set.vol1+2.par2"]);
    let set = Par2File::load("set.par2", &out[0].data, &out[1..]).unwrap();
    assert_eq!(set.block_size, 2048);
    assert_eq!(set.files_in_order.len(), 1);
    assert_eq!(set.files_in_order[0].name, "one");
    assert_eq!(set.files_in_order[0].hash, compute_md5(&data));
    let exponents: Vec<u32> = set.recovery_blocks.iter().map(|b| b.exponent).collect();
    assert_eq!(exponents, vec![0, 1, 2]);
    let sums = set.slice_checksums.get(&set.files_in_order[0].file_id).unwrap();
    assert_eq!(sums.len(), 5);
    assert_eq!(sums[4].md5, compute_md5(&take_block(&data, 2048, 4)));

    let blocks: Vec<Vec<u8>> = (0..5).map(|i| take_block(&data, 2048, i)).collect();
    let expected = Par2ReedSolomon::new(5, 3).encode(&blocks, 3, 2048).unwrap();
    for block in &set.recovery_blocks {
        let file = out.iter().find(|f| f.path == block.file_path).unwrap();
        assert_eq!(block.read_all(&file.data).unwrap(), expected[block.exponent as usize].1);
    }
}

#[test]
fn single_volume_holds_all() {
    let out = create(vec![input("one", sample(5000, 4))], VolumeScheme::Single, 3000);
    assert_eq!(out.len(), 1);
    assert_eq!(out[0].path, "set.par2");
    let set = Par2File::load("set.par2", &out[0].data, &[]).unwrap();
    assert_eq!(set.recovery_blocks.len(), 2);
    let info = Par2Info::load("set.par2", &out[0].data, &[]).unwrap();
    assert_eq!(info.block_size, 2048);
    assert_eq!(info.files.len(), 1);
    assert_eq!(info.files[0].name, "one");
    assert_eq!(info.files[0].length, 5000);
    assert_eq!(info.recovery_block_count, 2);
    assert_eq!(info.distinct_recovery_blocks, 2);
    assert_eq!(info.total_data_blocks(), 3);
    assert!(info.can_repair(2));
    assert!(!info.can_repair(3));
}

#[test]
fn copies_of_recovery_blocks_do_not_count() {
    let out = create(vec![input("one", sample(5000, 4))], VolumeScheme::Single, 3000);
    let copy = StoredFile { path: "copy".to_string(), data: out[0].data.clone() };
    let info = Par2Info::load("set.par2", &out[0].data, &[copy]).unwrap();
    assert_eq!(info.recovery_block_count, 4);
    assert_eq!(info.distinct_recovery_blocks, 2);
    assert!(Par2Info::load("set.par2", &[], &[]).is_err());
}

#[test]
fn paths_without_a_file_name_are_refused() {
    let creator = Par2Creator::new(vec![input("/d/..", vec![1])]).unwrap();
    assert_eq!(text(creator.create(0, 1)), "Invalid PAR2 file format: Invalid filename");
    for path in ["/", "..", "./.", "/d/../"] {
        let creator = Par2Creator::new(vec![input("a", vec![1]), input(path, vec![1])]).unwrap();
        assert_eq!(
            text(creator.describe_inputs()),
            "Invalid PAR2 file format: Invalid filename"
        );
    }
}

#[test]
fn data_bytes_cover_whole_blocks() {
    let creator =
        Par2Creator::new(vec![input("a", sample(2049, 0)), input("b", sample(1, 0))]).unwrap();
    let files = creator.describe_inputs().unwrap();
    assert_eq!(creator.choose_block_size(), 2048);
    assert_eq!(creator.data_bytes(&files).unwrap(), 3 * 2048);
}
