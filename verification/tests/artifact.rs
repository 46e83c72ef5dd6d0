use static_opti::artifact::{append_trailer, manifest_span, LoadError, TRAILER_LEN};

#[test]
fn trailer_is_eight_bytes() {
    assert_eq!(TRAILER_LEN, 8);
}

#[test]
fn append_trailer_writes_manifest_then_length() {
    let mut artifact = b"blob".to_vec();
    append_trailer(&mut artifact, b"manifest!");
    let mut expected = b"blobmanifest!".to_vec();
    expected.extend_from_slice(&[9, 0, 0, 0, 0, 0, 0, 0]);
    assert_eq!(artifact, expected);
}

#[test]
fn span_of_a_framed_artifact_is_the_manifest() {
    let mut artifact = b"some blob bytes".to_vec();
    let manifest = vec![7u8; 300];
    append_trailer(&mut artifact, &manifest);
    let (start, end) = manifest_span(&artifact).unwrap();
    assert_eq!(start, 15);
    assert_eq!(end, 315);
    assert_eq!(&artifact[start..end], &manifest[..]);
    assert_eq!(&artifact[..start], b"some blob bytes");
}

#[test]
fn empty_blob_and_manifest() {
    let mut artifact = Vec::new();
    append_trailer(&mut artifact, b"");
    assert_eq!(artifact, vec![0u8; 8]);
    assert_eq!(manifest_span(&artifact), Ok((0, 0)));
}

#[test]
fn too_short_artifact_is_truncated() {
    assert_eq!(manifest_span(b""), Err(LoadError::Truncated));
    assert_eq!(manifest_span(&[0u8; 7]), Err(LoadError::Truncated));
}

#[test]
fn length_beyond_the_artifact_is_rejected() {
    // Declares one manifest byte, but nothing stands before the field.
    assert_eq!(manifest_span(&[1, 0, 0, 0, 0, 0, 0, 0]), Err(LoadError::TrailerLength));
    let mut artifact = vec![0u8; 10];
    artifact.extend_from_slice(&11u64.to_le_bytes());
    assert_eq!(manifest_span(&artifact), Err(LoadError::TrailerLength));
    let mut artifact = vec![0u8; 10];
    artifact.extend_from_slice(&u64::MAX.to_le_bytes());
    assert_eq!(manifest_span(&artifact), Err(LoadError::TrailerLength));
    let mut artifact = vec![0u8; 10];
    artifact.extend_from_slice(&10u64.to_le_bytes());
    assert_eq!(manifest_span(&artifact), Ok((0, 10)));
}

#[test]
fn length_is_read_in_little_endian_order() {
    let mut artifact = vec![0u8; 0x0102 + 5];
    artifact.extend_from_slice(&[0x02, 0x01, 0, 0, 0, 0, 0, 0]);
    assert_eq!(manifest_span(&artifact), Ok((5, 0x0102 + 5)));
}
