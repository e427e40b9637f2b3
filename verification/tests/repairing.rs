use par2_rs::blocks::take_block;
use par2_rs::chunks::{choose_chunk_size, cpu_limit, ideal_chunk_size, temp_path_for};
use par2_rs::creator::{describe_file, InputFile, Par2Creator};
use par2_rs::galois::{gf_mul, gf_pow};
use par2_rs::hash::compute_md5;
use par2_rs::loader::{Par2File, StoredFile};
use par2_rs::messages::{verify_files_with_messages, MessageLevel};
use par2_rs::packets::FileHash;
use par2_rs::parser::FileInfo;
use par2_rs::progress::{is_due, percent_of, report_verification, total_bytes};
use par2_rs::repair::{
    begin_repair, repair_files_parallel, repair_files_with_messages, Repair, RepairRun,
    RepairSettings, RepairedFile, Step,
};
use par2_rs::repair_plan::plan_repair;
use par2_rs::repairer::{files_to_purge, NextStep};
use par2_rs::tables::IdTable;
use par2_rs::verify::{
    verify_16k_hash, verify_file_blocks, verify_file_smart, verify_files, verify_full_hash,
    VerificationResult,
};
use par2_rs::{Par2Error, Par2Operation, Par2Repairer, VolumeScheme};

fn sample(len: usize, seed: usize) -> Vec<u8> {
    (0..len).map(|i| (i * 7 + i / 251 + i * i / 1000 + seed * 31) as u8).collect()
}

fn settings() -> RepairSettings {
    RepairSettings {
        num_cpus: 2,
        ideal_chunk_size: 512,
        min_chunk: None,
        unreadable: "No such file or directory (os error 2)".to_string(),
    }
}

/// A set for files, in the order in which they are given.
fn set_for(files: &[(String, Vec<u8>)], recovery_bytes: u64) -> Vec<StoredFile> {
    let inputs = files
        .iter()
        .map(|(name, data)| InputFile { path: name.clone(), exists: true, data: data.clone() })
        .collect();
    Par2Creator::new(inputs)
        .unwrap()
        .with_output_path("set.par2".to_string())
        .with_volume_scheme(VolumeScheme::Exponential)
        .create(recovery_bytes, 3)
        .unwrap()
}

/// Files, and a set for them.
fn protected(count: usize, recovery_bytes: u64) -> (Vec<(String, Vec<u8>)>, Vec<StoredFile>) {
    let files: Vec<(String, Vec<u8>)> =
        (0..count).map(|i| (format!("file{}", i), sample(3000 + 2500 * i, i))).collect();
    let out = set_for(&files, recovery_bytes);
    (files, out)
}

/// Files whose IDs descend, and a set for them.
fn protected_backwards(count: usize, bytes: u64) -> (Vec<(String, Vec<u8>)>, Vec<StoredFile>) {
    let mut files: Vec<(String, Vec<u8>)> =
        (0..count).map(|i| (format!("file{}", i), sample(3000 + 2500 * i, i))).collect();
    files.sort_by_key(|(name, data)| describe_file(name, data).file_id);
    files.reverse();
    let out = set_for(&files, bytes);
    (files, out)
}

fn load(out: &[StoredFile]) -> Par2File {
    Par2File::load(&out[0].path, &out[0].data, &out[1..]).unwrap()
}

fn id_of(set: &Par2File, name: &str) -> FileHash {
    set.files_in_order.iter().find(|f| f.name == name).unwrap().file_id
}

fn named(set: &Par2File, files: &[(String, Vec<u8>)]) -> IdTable<StoredFile> {
    let mut table = IdTable::new();
    for (name, data) in files {
        table.insert(id_of(set, name), StoredFile { path: name.clone(), data: data.clone() });
    }
    table
}

fn inputs(set: &Par2File, files: &[(String, Vec<u8>)]) -> IdTable<Vec<u8>> {
    let mut table = IdTable::new();
    for (name, data) in files {
        table.insert(id_of(set, name), data.clone());
    }
    table
}

fn repaired(list: &[RepairedFile], name: &str) -> Vec<u8> {
    list.iter().find(|f| f.name == name).unwrap().data.clone()
}

#[test]
fn intact_files_verify() {
    let (files, out) = protected(3, 9000);
    let set = load(&out);
    let result = verify_files(&set, &named(&set, &files), &[]);
    assert!(result.all_verified);
    assert_eq!(result.missing_files.len(), 0);
    assert_eq!(result.damaged_files.len(), 0);
    assert_eq!(result.verified_files.len(), 3);
    assert_eq!(result.verified_files.get(&id_of(&set, "file1")).unwrap(), "file1");
}

#[test]
fn damage_is_found_block_by_block() {
    let (mut files, out) = protected(3, 9000);
    let set = load(&out);
    let k = files.iter().position(|(n, _)| n == "file2").unwrap();
    files[k].1[2048] ^= 1;
    files[k].1[7999] ^= 1;
    let (result, messages) = verify_files_with_messages(&set, &named(&set, &files), &[]);
    assert!(!result.all_verified);
    let id = id_of(&set, "file2");
    assert_eq!(result.damaged_files, vec![id]);
    assert_eq!(result.block_damages.get(&id).unwrap().damaged_block_indices, vec![1, 3]);
    let shown: Vec<(MessageLevel, &str)> =
        messages.iter().map(|m| (m.level, m.text.as_str())).collect();
    assert_eq!(
        shown,
        vec![
            (MessageLevel::Warning, "File damaged: file2"),
            (MessageLevel::Info, "file2: 2/4 blocks damaged"),
        ]
    );
}

#[test]
fn renamed_files_are_found_by_their_contents() {
    let (files, out) = protected(3, 9000);
    let set = load(&out);
    let here: Vec<(String, Vec<u8>)> =
        files.iter().filter(|(n, _)| n == "file0").cloned().collect();
    let data = files.iter().find(|(n, _)| n == "file1").unwrap().1.clone();
    let extra = vec![
        StoredFile { path: "file0".to_string(), data: here[0].1.clone() },
        StoredFile { path: "d/obfuscated".to_string(), data: data.clone() },
        StoredFile { path: "d/copy".to_string(), data },
        StoredFile { path: "other".to_string(), data: vec![1, 2, 3] },
    ];
    let (result, messages) = verify_files_with_messages(&set, &named(&set, &here), &extra);
    assert_eq!(
        result.renamed_files,
        vec![("d/obfuscated".to_string(), "file1".to_string())]
    );
    assert_eq!(result.verified_files.get(&id_of(&set, "file1")).unwrap(), "d/obfuscated");
    assert_eq!(result.missing_files, vec![id_of(&set, "file2")]);
    let shown: Vec<&str> = messages.iter().map(|m| m.text.as_str()).collect();
    assert_eq!(shown, vec!["Found obfuscated file: obfuscated -> file1", "Missing: file2"]);
    assert_eq!(messages[1].level, MessageLevel::Error);
}

#[test]
fn files_of_the_wrong_size_are_missing() {
    let (mut files, out) = protected(1, 9000);
    let set = load(&out);
    files[0].1.push(0);
    let result = verify_files(&set, &named(&set, &files), &[]);
    assert_eq!(result.missing_files, vec![id_of(&set, "file0")]);
    assert_eq!(result.damaged_files.len(), 0);
}

#[test]
fn files_without_checksums_of_blocks_verify_by_digest() {
    let data = sample(20000, 5);
    let file = FileInfo {
        file_id: [1; 16],
        hash: compute_md5(&data),
        hash_16k: compute_md5(&data[..16384]),
        length: 20000,
        name: "f".to_string(),
    };
    assert!(verify_file_smart("f", &data, &file, None, 4).unwrap());
    let mut head = data.clone();
    head[0] ^= 1;
    assert!(!verify_file_smart("f", &head, &file, None, 4).unwrap());
    let mut tail = data.clone();
    tail[19999] ^= 1;
    assert!(!verify_file_smart("f", &tail, &file, None, 4).unwrap());
    assert!(verify_16k_hash(&tail, &file.hash_16k));
    assert!(!verify_full_hash(&tail, &file.hash));
    match verify_file_smart("f", &data[..9], &file, None, 4) {
        Err(Par2Error::RepairFailed(m)) => {
            assert_eq!(m, "File size mismatch: f (expected 20000, got 9)")
        }
        _ => panic!("no error"),
    }
    assert_eq!(verify_file_blocks(&data, &[], 4), Vec::<usize>::new());
}

#[test]
fn damaged_and_missing_files_are_repaired() {
    let (files, out) = protected(3, 14000);
    let set = load(&out);
    let mut here: Vec<(String, Vec<u8>)> =
        files.iter().filter(|(n, _)| n != "file0").cloned().collect();
    let k = here.iter().position(|(n, _)| n == "file2").unwrap();
    here[k].1[10] ^= 0xff;
    here[k].1[7000] ^= 0x55;
    let result = verify_files(&set, &named(&set, &here), &[]);
    let list =
        repair_files_parallel(&set, &result, &inputs(&set, &here), &out, &settings()).unwrap();
    assert_eq!(list.len(), 2);
    for name in ["file0", "file2"] {
        let want = &files.iter().find(|(n, _)| n == name).unwrap().1;
        assert_eq!(&repaired(&list, name), want);
    }
}

#[test]
fn chunk_sizes_make_no_difference() {
    let (files, out) = protected(2, 14000);
    let set = load(&out);
    let here: Vec<(String, Vec<u8>)> =
        files.iter().filter(|(n, _)| n != "file1").cloned().collect();
    let result = verify_files(&set, &named(&set, &here), &[]);
    let plan = plan_repair(&set, &result).unwrap();
    let repair = match Repair::prepare(&set, &plan, "unreadable") {
        Ok(repair) => repair,
        Err(e) => panic!("{}", e.message()),
    };
    let table = inputs(&set, &here);
    let whole = repair.restore_blocks(&set, &table, &out, 2048).unwrap();
    for size in [2usize, 6, 100, 2046, 4096] {
        assert_eq!(repair.restore_blocks(&set, &table, &out, size).unwrap(), whole);
    }
    let chunk = repair.process_chunk(&set, &table, &out, 1, 1024).unwrap();
    assert_eq!(chunk.len(), whole.len());
    for (r, (block, offset, data)) in chunk.iter().enumerate() {
        assert_eq!(*block, plan.damaged[r]);
        assert_eq!(*offset, 1024);
        assert_eq!(&data[..], &whole[r][1024..2048]);
    }
}

#[test]
fn too_much_damage_is_refused() {
    let (files, out) = protected(2, 4000);
    let set = load(&out);
    let result = verify_files(&set, &IdTable::new(), &[]);
    assert_eq!(result.missing_files.len(), 2);
    let table = inputs(&set, &files[..0]);
    match repair_files_parallel(&set, &result, &table, &out, &settings()) {
        Err(Par2Error::InsufficientRecovery { needed, available }) => {
            assert_eq!(needed, 5);
            assert_eq!(available, 2);
        }
        _ => panic!("no error"),
    }
}

#[test]
fn repair_tells_how_much_it_does_and_can_be_cancelled() {
    let (files, out) = protected(2, 14000);
    let set = load(&out);
    let here: Vec<(String, Vec<u8>)> =
        files.iter().filter(|(n, _)| n != "file1").cloned().collect();
    let result = verify_files(&set, &named(&set, &here), &[]);
    let table = inputs(&set, &here);
    let (r, messages) =
        repair_files_with_messages(&set, &result, &table, &out, &settings(), true);
    assert!(matches!(r, Err(Par2Error::Cancelled)));
    assert_eq!(messages.len(), 1);
    assert_eq!(messages[0].text, "Repairing 3 damaged blocks");
    let (r, _) = repair_files_with_messages(&set, &result, &table, &out, &settings(), false);
    assert!(r.is_ok());
    let fine = verify_files(&set, &named(&set, &files), &[]);
    let (r, messages) =
        repair_files_with_messages(&set, &fine, &table, &out, &settings(), false);
    assert_eq!(r.unwrap().len(), 0);
    assert_eq!(messages.len(), 0);
}

fn failure(r: Result<Vec<RepairedFile>, Par2Error>) -> String {
    match r {
        Ok(_) => String::new(),
        Err(e) => e.message(),
    }
}

#[test]
fn repair_says_what_it_lacks() {
    let (files, out) = protected(2, 14000);
    let set = load(&out);
    let here: Vec<(String, Vec<u8>)> =
        files.iter().filter(|(n, _)| n != "file1").cloned().collect();
    let result = verify_files(&set, &named(&set, &here), &[]);
    let table = inputs(&set, &here);
    assert_eq!(
        failure(repair_files_parallel(&set, &result, &table, &out[..1], &settings())),
        "PAR2 repair failed: Streaming RS reconstruction failed: Recovery block read failed: \
         I/O error: No such file or directory (os error 2)"
    );
    assert_eq!(
        failure(repair_files_parallel(&set, &result, &IdTable::new(), &out, &settings())),
        "PAR2 repair failed: Streaming RS reconstruction failed: Input file handle not found"
    );
    let mut broken = here.clone();
    broken[0].1[1] ^= 1;
    assert_eq!(
        failure(repair_files_parallel(&set, &result, &inputs(&set, &broken), &out, &settings())),
        "PAR2 repair failed: Repair completed but verification failed - files may still be damaged"
    );
    let damaged = verify_files(&set, &named(&set, &broken), &[]);
    assert_eq!(
        failure(repair_files_parallel(&set, &damaged, &IdTable::new(), &out, &settings())),
        "I/O error: No such file or directory (os error 2)"
    );
    let mut odd = load(&out);
    odd.block_size = 6;
    assert_eq!(
        failure(repair_files_parallel(&odd, &result, &table, &out, &settings())),
        "Invalid PAR2 file format: Invalid PAR2 data: block size not aligned"
    );
    odd.block_size = 0;
    assert_eq!(
        failure(repair_files_parallel(&odd, &result, &table, &out, &settings())),
        "Invalid PAR2 file format: Invalid PAR2 data: block size is zero"
    );
}

#[test]
fn recovery_blocks_with_the_same_exponent_do_not_suffice() {
    let (files, out) = protected(1, 2000);
    let mut set = load(&out);
    let again = set.recovery_blocks[0].clone();
    set.recovery_blocks.push(again);
    let result = verify_files(&set, &IdTable::new(), &[]);
    let table = inputs(&set, &files[..0]);
    assert_eq!(
        failure(repair_files_parallel(&set, &result, &table, &out, &settings())),
        "PAR2 repair failed: Failed to compute transformation: Singular matrix"
    );
}

fn outcome(all_verified: bool) -> VerificationResult {
    VerificationResult {
        all_verified,
        verified_files: IdTable::new(),
        missing_files: vec![],
        damaged_files: vec![],
        block_damages: IdTable::new(),
        renamed_files: vec![],
    }
}

#[test]
fn next_step_follows_from_the_verification() {
    assert!(matches!(Par2Repairer::new("/d/x.par2", false), Err(Par2Error::NotFound)));
    let repairer = Par2Repairer::new("/d/x.par2", true).unwrap();
    assert_eq!(repairer.par2_file, "/d/x.par2");
    assert_eq!(repairer.base_path, "/d");
    assert_eq!(Par2Repairer::new("x.par2", true).unwrap().base_path, "");
    assert_eq!(Par2Repairer::new("a/b/x.y.par2", true).unwrap().base_path, "a/b");
    assert_eq!(Par2Repairer::new("./x.par2", true).unwrap().base_path, ".");
    assert_eq!(Par2Repairer::new("../.d/x.par2", true).unwrap().base_path, "../.d");
    assert_eq!(Par2Repairer::new("/x.par2", true).unwrap().base_path, "/");
    let step = |repair, purge, ok| match repairer.repair_with_progress(repair, purge, &outcome(ok)) {
        Ok(step) => Some(step),
        Err(Par2Error::RepairFailed(m)) => {
            assert_eq!(m, "Files are damaged and repair was not requested");
            None
        }
        Err(_) => panic!("another error"),
    };
    assert_eq!(step(true, true, true), Some(NextStep::Purge));
    assert_eq!(step(true, false, true), Some(NextStep::Finish));
    assert_eq!(step(true, false, false), Some(NextStep::Repair));
    assert_eq!(step(true, true, false), Some(NextStep::RepairThenPurge));
    assert_eq!(step(false, true, false), None);
    assert_eq!(repairer.repair(false, &outcome(true)).unwrap(), NextStep::Finish);
    assert_eq!(Par2Operation::Scanning.code(), 0);
    assert_eq!(Par2Operation::Repairing.code(), 3);
}

#[test]
fn only_files_of_the_set_are_purged() {
    let (_, out) = protected(1, 9000);
    let (_, foreign) = protected(2, 9000);
    let candidates = vec![
        StoredFile { path: "a".to_string(), data: out[0].data.clone() },
        StoredFile { path: "b".to_string(), data: foreign[0].data.clone() },
        StoredFile { path: "c".to_string(), data: vec![0; 100] },
        StoredFile { path: "d".to_string(), data: out[1].data.clone() },
    ];
    assert_eq!(files_to_purge(&out[0].data, &candidates).unwrap(), vec!["a", "d"]);
    assert!(files_to_purge(&[0; 64], &candidates).is_err());
}

#[test]
fn chunk_sizes_suit_the_machine() {
    assert_eq!(ideal_chunk_size(true, true, true, true), 128 * 1024);
    assert_eq!(ideal_chunk_size(true, false, true, true), 64 * 1024);
    assert_eq!(ideal_chunk_size(false, true, true, true), 48 * 1024);
    assert_eq!(ideal_chunk_size(false, false, false, true), 32 * 1024);
    assert_eq!(ideal_chunk_size(false, false, false, false), 16 * 1024);
    assert_eq!(cpu_limit(150000, 100000), Some(2));
    assert_eq!(cpu_limit(-1, 100000), None);
    assert_eq!(choose_chunk_size(2048, 4, 49152, None), 2048);
    assert_eq!(choose_chunk_size(100000, 4, 49152, None), 25000);
    assert_eq!(choose_chunk_size(4000000, 4, 49152, None), 50000);
    assert_eq!(choose_chunk_size(100000, 4, 49152, Some(60001)), 60000);
    assert_eq!(temp_path_for("/d/file.bin"), "/d/file.bin.par2tmp");
}

#[test]
fn files_that_do_not_come_by_their_ids_are_repaired() {
    let (files, out) = protected_backwards(2, 14000);
    assert!(
        describe_file(&files[0].0, &files[0].1).file_id
            > describe_file(&files[1].0, &files[1].1).file_id
    );
    let set = load(&out);
    assert_eq!(set.files_in_order[0].name, files[1].0);
    assert_eq!(set.files_in_order[1].name, files[0].0);
    for k in 0..2 {
        let mut here = files.clone();
        here[k].1[5] ^= 0xff;
        here[k].1[2900] ^= 0x55;
        let result = verify_files(&set, &named(&set, &here), &[]);
        assert_eq!(result.damaged_files, vec![id_of(&set, &files[k].0)]);
        let list =
            repair_files_parallel(&set, &result, &inputs(&set, &here), &out, &settings()).unwrap();
        assert_eq!(list.len(), 1);
        assert_eq!(list[0].data, files[k].1);
    }
}

#[test]
fn recovery_blocks_match_recomputed_parity() {
    let (files, out) = protected_backwards(3, 14000);
    let set = load(&out);
    let bs = set.block_size as usize;
    let symbols = bs / 2;

    let mut blocks: Vec<Vec<u8>> = Vec::new();
    for info in &set.files_in_order {
        let raw = &files.iter().find(|(name, _)| *name == info.name).unwrap().1;
        let nblocks = info.length.div_ceil(set.block_size) as usize;
        for b in 0..nblocks {
            blocks.push(take_block(raw, bs, b));
        }
    }

    let mut constants = Vec::with_capacity(blocks.len());
    let mut n: u32 = 1;
    while constants.len() < blocks.len() {
        if n % 3 != 0 && n % 5 != 0 && n % 17 != 0 && n % 257 != 0 {
            constants.push(gf_pow(2, n as usize));
        }
        n += 1;
    }

    for exp in [0u32, 1, 2, 3, 5] {
        let mut acc = vec![0u16; symbols];
        for (i, data) in blocks.iter().enumerate() {
            let coeff = gf_pow(constants[i], exp as usize);
            for s in 0..symbols {
                let d = u16::from_le_bytes([data[s * 2], data[s * 2 + 1]]);
                acc[s] ^= gf_mul(d, coeff);
            }
        }
        let mut expected = vec![0u8; bs];
        for s in 0..symbols {
            let b = acc[s].to_le_bytes();
            expected[s * 2] = b[0];
            expected[s * 2 + 1] = b[1];
        }
        let block = set.recovery_blocks.iter().find(|r| r.exponent == exp).unwrap();
        let file = out.iter().find(|f| f.path == block.file_path).unwrap();
        assert_eq!(block.read_all(&file.data).unwrap(), expected);
    }
}

#[test]
fn missing_empty_files_are_given_back() {
    let files = vec![
        ("empty".to_string(), vec![]),
        ("full".to_string(), sample(5000, 1)),
    ];
    let out = set_for(&files, 3000);
    let set = load(&out);
    let here = files[1..].to_vec();
    let result = verify_files(&set, &named(&set, &here), &[]);
    assert!(!result.all_verified);
    assert_eq!(result.missing_files, vec![id_of(&set, "empty")]);
    let (r, messages) =
        repair_files_with_messages(&set, &result, &inputs(&set, &here), &out, &settings(), false);
    assert_eq!(messages.len(), 0);
    let list = r.unwrap();
    assert_eq!(list.len(), 1);
    assert_eq!(list[0].name, "empty");
    assert_eq!(list[0].data, Vec::<u8>::new());
    let mut after = here.clone();
    after.push((list[0].name.clone(), list[0].data.clone()));
    assert!(verify_files(&set, &named(&set, &after), &[]).all_verified);
}

#[test]
fn repaired_files_verify_again() {
    let (files, out) = protected(3, 14000);
    let set = load(&out);
    let mut here: Vec<(String, Vec<u8>)> =
        files.iter().filter(|(n, _)| n != "file0").cloned().collect();
    here[1].1[10] ^= 0xff;
    let result = verify_files(&set, &named(&set, &here), &[]);
    let list =
        repair_files_parallel(&set, &result, &inputs(&set, &here), &out, &settings()).unwrap();
    let mut table = named(&set, &here);
    for file in &list {
        let stored = StoredFile { path: file.name.clone(), data: file.data.clone() };
        table.insert(file.file_id, stored);
    }
    let again = verify_files(&set, &table, &[]);
    assert!(again.all_verified);
    assert_eq!(again.verified_files.len(), 3);
}

#[test]
fn a_lost_volume_does_not_matter_as_long_as_enough_is_left() {
    let (files, out) = protected(2, 14000);
    let kept: Vec<StoredFile> = out
        .iter()
        .filter(|f| f.path != "set.vol0+1.par2" && f.path != "set.vol1+2.par2")
        .map(|f| StoredFile { path: f.path.clone(), data: f.data.clone() })
        .collect();
    assert_eq!(kept.len() + 2, out.len());
    let set = load(&kept);
    let exponents: Vec<u32> = set.recovery_blocks.iter().map(|b| b.exponent).collect();
    assert_eq!(exponents, vec![3, 4, 5, 6]);
    let here: Vec<(String, Vec<u8>)> =
        files.iter().filter(|(n, _)| n != "file1").cloned().collect();
    let result = verify_files(&set, &named(&set, &here), &[]);
    let list =
        repair_files_parallel(&set, &result, &inputs(&set, &here), &kept, &settings()).unwrap();
    assert_eq!(&repaired(&list, "file1"), &files[1].1);
}

/// Go on until the repair ends, cancelled after so many steps. Also tells the number of steps.
fn run_for(
    set: &Par2File,
    result: &VerificationResult,
    table: &IdTable<Vec<u8>>,
    out: &[StoredFile],
    steps: usize,
) -> (Result<Vec<RepairedFile>, Par2Error>, usize) {
    let (begun, _) = begin_repair(set, result, table, out, &settings());
    let mut run: RepairRun = match begun {
        Step::More(run) => run,
        _ => panic!("nothing to do"),
    };
    let mut taken = 0;
    loop {
        let step = run.step(set, result, table, out, taken == steps);
        match step {
            Step::More(next) => run = next,
            Step::Finished(files) => return (Ok(files), taken + 1),
            Step::Failed(e) => return (Err(e), taken + 1),
        }
        taken += 1;
    }
}

#[test]
fn a_repair_can_be_cancelled_at_every_step() {
    let (files, out) = protected(3, 20000);
    let set = load(&out);
    let here: Vec<(String, Vec<u8>)> =
        files.iter().filter(|(n, _)| n == "file2").cloned().collect();
    let result = verify_files(&set, &named(&set, &here), &[]);
    assert_eq!(result.missing_files.len(), 2);
    let table = inputs(&set, &here);
    let (whole, total) = run_for(&set, &result, &table, &out, usize::MAX);
    let whole = whole.unwrap();
    assert_eq!(whole.len(), 2);
    assert_eq!(repaired(&whole, "file0"), files[0].1);
    assert_eq!(repaired(&whole, "file1"), files[1].1);
    assert!(total >= 5);
    for steps in 0..total {
        let (r, taken) = run_for(&set, &result, &table, &out, steps);
        assert!(matches!(r, Err(Par2Error::Cancelled)));
        assert_eq!(taken, steps + 1);
    }
    let (late, _) = run_for(&set, &result, &table, &out, total);
    assert_eq!(late.unwrap().len(), 2);
}

#[test]
fn a_repair_counts_its_chunks() {
    let files = vec![("big".to_string(), sample(30000, 4)), ("other".to_string(), sample(9, 1))];
    let creator = Par2Creator::new(
        files
            .iter()
            .map(|(name, data)| InputFile { path: name.clone(), exists: true, data: data.clone() })
            .collect(),
    )
    .unwrap()
    .with_block_size(16384)
    .unwrap();
    let out = creator.create(40000, 1).unwrap();
    let set = load(&out);
    let here = files[1..].to_vec();
    let result = verify_files(&set, &named(&set, &here), &[]);
    let table = inputs(&set, &here);
    let (begun, _) = begin_repair(&set, &result, &table, &out, &settings());
    let mut seen = Vec::new();
    let mut step = begun;
    loop {
        match step {
            Step::More(run) => {
                seen.push(run.progress());
                step = run.step(&set, &result, &table, &out, false);
            }
            Step::Finished(list) => {
                assert_eq!(list[0].data, files[0].1);
                break;
            }
            Step::Failed(e) => panic!("{}", e.message()),
        }
    }
    assert_eq!(seen, vec![(0, 4), (0, 4), (1, 4), (2, 4), (3, 4), (4, 4), (4, 4)]);
}

#[test]
fn reports_are_due_at_every_hundredth_part() {
    assert!(is_due(1, 3));
    assert!(is_due(199, 199));
    assert!(is_due(3, 199));
    assert!(is_due(250, 500));
    assert!(!is_due(251, 500));
    assert!(is_due(503, 503));
    assert_eq!(percent_of(1, 3), 33);
    assert_eq!(percent_of(0, 0), 100);
    assert_eq!(percent_of(9, 3), 100);
    assert_eq!(percent_of(u64::MAX, u64::MAX), 100);
}

#[test]
fn verification_counts_bytes() {
    let (mut files, out) = protected(3, 9000);
    let set = load(&out);
    assert_eq!(total_bytes(&set), 3000 + 5500 + 8000);
    let lengths: Vec<u64> = set.files.entries.iter().map(|(_, info)| info.length).collect();
    let reports = report_verification(&set, &named(&set, &files), &[]);
    let sums = vec![lengths[0], lengths[0] + lengths[1], 16500, 16500];
    assert_eq!(reports, sums);
    files[0].1.push(0);
    let reports = report_verification(&set, &named(&set, &files), &[]);
    assert_eq!(reports.len(), 3);
    assert_eq!(reports[1..], [13500, 16500]);
    let extra = StoredFile { path: "found".to_string(), data: sample(3000, 0) };
    let reports = report_verification(&set, &named(&set, &files), &[extra]);
    assert_eq!(reports[1..], [13500, 16500, 16500]);
}

#[test]
fn digests_are_counted_in_pieces() {
    let data = sample(3000000, 5);
    let file = FileInfo {
        file_id: [1; 16],
        hash: compute_md5(&data),
        hash_16k: compute_md5(&data[..16384]),
        length: 3000000,
        name: "f".to_string(),
    };
    let mut out = vec![];
    par2_rs::progress::report_file(&mut out, &data, &file, None, 4);
    assert_eq!(out, vec![16384, 1048576, 1048576, 902848]);
    let mut wrong = data.clone();
    wrong[3] ^= 1;
    let mut out = vec![];
    par2_rs::progress::report_file(&mut out, &wrong, &file, None, 4);
    assert_eq!(out, vec![16384, 2983616]);
    let mut out = vec![];
    par2_rs::progress::report_file(&mut out, &data[..9], &file, None, 4);
    assert_eq!(out, Vec::<u64>::new());
}

#[test]
fn loading_tells_percentages() {
    let (_, out) = protected(1, 2000);
    let (set, reports) = Par2File::load_with_progress("set.par2", &out[0].data, &out[1..]);
    assert!(set.is_ok());
    assert_eq!(reports.len(), 5);
    assert_eq!(reports[0], 0);
    assert_eq!(reports[4], 100);
    assert!(reports.windows(2).all(|w| w[0] <= w[1]));
    let (set, reports) = Par2File::load_with_progress("x", &[1; 66], &[]);
    assert!(set.is_err());
    let expected: Vec<u64> = (0..66).take(4).map(|p| p * 100 / 66).collect();
    assert_eq!(reports, expected);
    assert_eq!(Par2File::load_with_progress("x", &[], &[]).1, Vec::<u64>::new());
}
