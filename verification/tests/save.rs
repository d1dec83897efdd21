use ext::save::{
    encode_fix, encode_pivot, encode_signature, nassau_qi_group_path, res_qi_group_path,
    shard_array_path, shard_coords, shard_zarr_coords, zstd_level_for, NassauCommand,
    NassauParseError, SaveKind, N_MIN,
};

#[test]
fn save_kind_names() {
    assert_eq!(SaveKind::Kernel.name(), "kernel");
    assert_eq!(SaveKind::ResQi.name(), "res_qi");
    assert_eq!(SaveKind::AugmentationQi.name(), "augmentation_qi");
    assert_eq!(SaveKind::SecondaryHomotopy.name(), "secondary_homotopy");
    assert_eq!(SaveKind::NassauQi.name(), "nassau_qi");
}

#[test]
fn save_kind_indexing() {
    assert!(SaveKind::SecondaryComposite.is_indexed());
    assert!(SaveKind::SecondaryIntermediate.is_indexed());
    assert!(!SaveKind::SecondaryHomotopy.is_indexed());
    assert!(!SaveKind::Kernel.is_indexed());
}

#[test]
fn save_kind_groups() {
    assert_eq!(
        SaveKind::resolution_data(),
        vec![SaveKind::Kernel, SaveKind::Differential, SaveKind::ResQi, SaveKind::AugmentationQi]
    );
    assert_eq!(SaveKind::nassau_data(), vec![SaveKind::NassauDifferential, SaveKind::NassauQi]);
    assert_eq!(
        SaveKind::secondary_data(),
        vec![
            SaveKind::SecondaryComposite,
            SaveKind::SecondaryIntermediate,
            SaveKind::SecondaryHomotopy
        ]
    );
}

#[test]
fn shard_coordinates() {
    let z = shard_zarr_coords(&[-5, 3]);
    assert_eq!(z, vec![(-5 - N_MIN) as u64, 3]);
    assert_eq!(shard_coords(&z), [(-5 - N_MIN) as u64 / 8, 0, 0]);
    let z = shard_zarr_coords(&[20, 17, 9]);
    assert_eq!(z, vec![1044, 17, 9]);
    assert_eq!(shard_coords(&z), [130, 2, 1]);
}

#[test]
fn group_paths() {
    assert_eq!(shard_array_path("root", SaveKind::Differential), "root/differential");
    assert_eq!(res_qi_group_path("g", -3, 2), "g/qi/n-3_s2/res_qi");
    assert_eq!(nassau_qi_group_path("a/b", 14, 0), "a/b/qi/n14_s0/nassau_qi");
}

#[test]
fn command_bytes_round_trip() {
    match NassauCommand::parse(encode_signature(&[1, 0x0203])).unwrap() {
        NassauCommand::Signature(sig) => assert_eq!(sig, vec![1, 0x0203]),
        other => panic!("expected a signature, got {other:?}"),
    }
    assert!(matches!(NassauCommand::parse(encode_fix()).unwrap(), NassauCommand::Fix));
    match NassauCommand::parse(encode_pivot(7, &[1, 2, 3], &[4, 5])).unwrap() {
        NassauCommand::Pivot { col, lift_bytes, image_bytes } => {
            assert_eq!(col, 7);
            assert_eq!(lift_bytes, vec![1, 2, 3]);
            assert_eq!(image_bytes, vec![4, 5]);
        }
        other => panic!("expected a pivot, got {other:?}"),
    }
}

#[test]
fn command_byte_layout() {
    assert_eq!(encode_fix(), (-3i64).to_le_bytes().to_vec());
    let mut sig = (-2i64).to_le_bytes().to_vec();
    sig.extend_from_slice(&[5, 0, 0, 1]);
    assert_eq!(encode_signature(&[5, 0x0100]), sig);
    let mut pivot = 9u64.to_le_bytes().to_vec();
    pivot.extend_from_slice(&[1, 0, 0, 0, 0xaa, 0xbb]);
    assert_eq!(encode_pivot(9, &[0xaa], &[0xbb]), pivot);
}

#[test]
fn command_parse_errors() {
    assert_eq!(NassauCommand::parse(vec![1, 2, 3]).unwrap_err(), NassauParseError::TooShort(3));
    let mut odd = (-2i64).to_le_bytes().to_vec();
    odd.push(1);
    assert_eq!(NassauCommand::parse(odd).unwrap_err(), NassauParseError::OddSignaturePayload(1));
    let mut short = 4u64.to_le_bytes().to_vec();
    short.push(0);
    assert_eq!(NassauCommand::parse(short).unwrap_err(), NassauParseError::PivotTooShort(9));
    let mut truncated = 4u64.to_le_bytes().to_vec();
    truncated.extend_from_slice(&[3, 0, 0, 0, 1]);
    assert_eq!(
        NassauCommand::parse(truncated).unwrap_err(),
        NassauParseError::LiftTruncated(13, 15)
    );
    assert_eq!(
        NassauCommand::parse((-7i64).to_le_bytes().to_vec()).unwrap_err(),
        NassauParseError::UnknownCode(-7)
    );
}

#[test]
fn zstd_level_is_clamped() {
    assert_eq!(zstd_level_for(None), 3);
    assert_eq!(zstd_level_for(Some(19)), 19);
    assert_eq!(zstd_level_for(Some(0)), 1);
    assert_eq!(zstd_level_for(Some(-5)), 1);
    assert_eq!(zstd_level_for(Some(23)), 22);
    assert_eq!(zstd_level_for(Some(22)), 22);
}
