use par2_rs::volumes::{
    calculate_padding_width, generate_volume_filename, plan_volumes, split_into_volumes,
};
use par2_rs::VolumeScheme;

#[test]
fn test_calculate_padding_width() {
    assert_eq!(calculate_padding_width(0), 1);
    assert_eq!(calculate_padding_width(9), 1);
    assert_eq!(calculate_padding_width(10), 2);
    assert_eq!(calculate_padding_width(99), 2);
    assert_eq!(calculate_padding_width(100), 3);
    assert_eq!(calculate_padding_width(999), 3);
    assert_eq!(calculate_padding_width(1000), 4);
}

#[test]
fn test_generate_volume_filename() {
    assert_eq!(generate_volume_filename("test", 0, 0, 1), "test.vol0+1.par2");
    assert_eq!(generate_volume_filename("test", 0, 1, 1), "test.vol0+2.par2");
    assert_eq!(generate_volume_filename("test", 0, 9, 2), "test.vol00+10.par2");
    assert_eq!(generate_volume_filename("test", 10, 19, 2), "test.vol10+10.par2");
    assert_eq!(generate_volume_filename("archive", 0, 99, 3), "archive.vol000+100.par2");
}

#[test]
fn test_split_single_volume() {
    let recovery_blocks =
        vec![(0, vec![1, 2, 3, 4]), (1, vec![5, 6, 7, 8]), (2, vec![9, 10, 11, 12])];

    let volumes = split_into_volumes(recovery_blocks, VolumeScheme::Single, "test").unwrap();

    assert_eq!(volumes.len(), 1, "Single scheme should create 1 volume");
    assert_eq!(volumes[0].exponent_start, 0);
    assert_eq!(volumes[0].exponent_end, 2);
    assert_eq!(volumes[0].recovery_blocks.len(), 3);
    assert!(volumes[0].path.contains("vol0+3.par2"));
}

#[test]
fn test_split_exponential_small() {
    let recovery_blocks: Vec<(u32, Vec<u8>)> = (0..7).map(|i| (i, vec![i as u8; 4])).collect();

    let volumes = split_into_volumes(recovery_blocks, VolumeScheme::Exponential, "test").unwrap();

    assert_eq!(volumes.len(), 3, "Should create 3 volumes");

    assert_eq!(volumes[0].exponent_start, 0);
    assert_eq!(volumes[0].exponent_end, 0);
    assert_eq!(volumes[0].recovery_blocks.len(), 1);
    assert!(volumes[0].path.contains("vol0+1.par2"));

    assert_eq!(volumes[1].exponent_start, 1);
    assert_eq!(volumes[1].exponent_end, 2);
    assert_eq!(volumes[1].recovery_blocks.len(), 2);
    assert!(volumes[1].path.contains("vol1+2.par2"));

    assert_eq!(volumes[2].exponent_start, 3);
    assert_eq!(volumes[2].exponent_end, 6);
    assert_eq!(volumes[2].recovery_blocks.len(), 4);
    assert!(volumes[2].path.contains("vol3+4.par2"));
}

#[test]
fn test_split_exponential_padding() {
    let recovery_blocks: Vec<(u32, Vec<u8>)> = (0..100).map(|i| (i, vec![i as u8; 4])).collect();

    let volumes = split_into_volumes(recovery_blocks, VolumeScheme::Exponential, "test").unwrap();

    for volume in &volumes {
        let filename = std::path::Path::new(&volume.path).file_name().unwrap().to_str().unwrap();
        assert!(filename.contains("vol"), "Filename should contain 'vol'");

        if let Some(vol_part) = filename.strip_prefix("test.vol") {
            if let Some(end) = vol_part.find('+') {
                let start_str = &vol_part[..end];
                assert_eq!(
                    start_str.len(),
                    2,
                    "Start exponent should be 2 digits for max exp 99"
                );
            }
        }
    }
}

#[test]
fn test_empty_recovery_blocks() {
    let recovery_blocks = vec![];
    let volumes = split_into_volumes(recovery_blocks, VolumeScheme::Single, "test").unwrap();

    assert_eq!(volumes.len(), 0, "No recovery blocks should create no volumes");
}

#[test]
fn test_volume_with_parent_path() {
    let recovery_blocks = vec![(0, vec![1, 2, 3, 4])];

    let volumes = split_into_volumes(recovery_blocks, VolumeScheme::Single, "/tmp/test").unwrap();

    assert_eq!(volumes.len(), 1);
    assert!(std::path::Path::new(&volumes[0].path).starts_with("/tmp"));
    assert!(volumes[0].path.contains("test.vol"));
}

#[test]
fn volumes_lie_beside_the_base_path() {
    let volumes =
        split_into_volumes(vec![(0, vec![1, 2])], VolumeScheme::Exponential, "/data/set.par2")
            .unwrap();
    assert_eq!(volumes[0].path, "/data/set.vol0+1.par2");
    let volumes =
        split_into_volumes(vec![(0, vec![1, 2])], VolumeScheme::Exponential, "/").unwrap();
    assert!(volumes[0].path.contains("archive.vol0+1.par2"));
}

#[test]
fn planned_volumes_double_up_to_their_limit_and_hold_all_blocks() {
    let blocks: Vec<(u32, Vec<u8>)> = (0..5000).map(|i| (i, vec![i as u8, 1])).collect();
    let volumes = plan_volumes(&blocks, VolumeScheme::Exponential, "base");
    let sizes: Vec<usize> = volumes.iter().map(|v| v.recovery_blocks.len()).collect();
    assert_eq!(sizes, vec![1, 2, 4, 8, 16, 32, 64, 128, 256, 512, 1024, 1024, 1024, 905]);
    assert_eq!(volumes[0].path, "base.vol0000+0001.par2");
    assert_eq!(volumes[13].path, "base.vol4095+0905.par2");
    let mut next = 0;
    for volume in &volumes {
        assert_eq!(volume.exponent_start, next);
        for block in &volume.recovery_blocks {
            assert_eq!(block.exponent, next);
            assert_eq!(block.data.as_ref().unwrap()[0], next as u8);
            next += 1;
        }
        assert_eq!(volume.exponent_end, next - 1);
    }
    assert_eq!(next, 5000);
}

#[test]
fn exponents_need_not_be_sorted_or_small() {
    let blocks = vec![(7, vec![1; 4]), (5, vec![2; 4])];
    let volumes = split_into_volumes(blocks, VolumeScheme::Single, "d/x").unwrap();
    assert_eq!(volumes.len(), 1);
    assert_eq!(volumes[0].path, "d/x.vol0+6.par2");
    assert_eq!(volumes[0].recovery_blocks[0].exponent, 7);
    let blocks = vec![(0, vec![1; 4]), (u32::MAX - 1, vec![2; 4]), (u32::MAX, vec![3; 4])];
    let volumes = split_into_volumes(blocks, VolumeScheme::Exponential, "x").unwrap();
    assert_eq!(volumes.len(), 2);
    assert_eq!(volumes[0].path, "x.vol0000000000+0000000001.par2");
    assert_eq!(volumes[1].path, "x.vol4294967294+0000000002.par2");
}
