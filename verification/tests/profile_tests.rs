use pio::profile::{is_srgb_description, reassemble_profile, ProfileError};

/// A container segment carrying one profile chunk.
fn seg(index: u8, total: u8, payload: &[u8]) -> Vec<u8> {
    let mut v = b"ICC_PROFILE\0".to_vec();
    v.push(index);
    v.push(total);
    v.extend_from_slice(payload);
    v
}

#[test]
fn reassemble_nothing_without_relevant_segments() {
    let segments: Vec<Vec<u8>> = vec![];
    assert_eq!(reassemble_profile(&segments), Ok(None));

    let segments = vec![b"JFIF data".to_vec(), b"ICC_PROFIL".to_vec(), vec![1, 2, 3]];
    assert_eq!(reassemble_profile(&segments), Ok(None));
}

#[test]
fn reassemble_marker_without_payload_is_irrelevant() {
    // Exactly the marker, index and total but no payload byte: too short.
    let mut v = b"ICC_PROFILE\0".to_vec();
    v.push(1);
    v.push(1);
    let segments = vec![v];
    assert_eq!(reassemble_profile(&segments), Ok(None));
}

#[test]
fn reassemble_single_chunk() {
    let segments = vec![seg(1, 1, b"profile-bytes")];
    assert_eq!(reassemble_profile(&segments), Ok(Some(b"profile-bytes".to_vec())));
}

#[test]
fn reassemble_in_sorted_order() {
    let segments = vec![seg(1, 3, b"aa"), seg(2, 3, b"bb"), seg(3, 3, b"cc")];
    assert_eq!(reassemble_profile(&segments), Ok(Some(b"aabbcc".to_vec())));
}

#[test]
fn reassemble_in_arbitrary_order() {
    // Same chunks as the sorted case, arriving shuffled: same profile.
    let segments = vec![seg(3, 3, b"cc"), seg(1, 3, b"aa"), seg(2, 3, b"bb")];
    assert_eq!(reassemble_profile(&segments), Ok(Some(b"aabbcc".to_vec())));
    let segments = vec![seg(2, 3, b"bb"), seg(3, 3, b"cc"), seg(1, 3, b"aa")];
    assert_eq!(reassemble_profile(&segments), Ok(Some(b"aabbcc".to_vec())));
}

#[test]
fn reassemble_skips_irrelevant_segments_between_chunks() {
    let segments = vec![
        b"Exif data".to_vec(),
        seg(1, 2, b"first"),
        b"comment".to_vec(),
        seg(2, 2, b"second"),
    ];
    assert_eq!(reassemble_profile(&segments), Ok(Some(b"firstsecond".to_vec())));
}

#[test]
fn reassemble_missing_chunk_reports_how_many() {
    let segments = vec![seg(1, 3, b"aa"), seg(2, 3, b"bb")];
    let err = reassemble_profile(&segments).unwrap_err();
    assert_eq!(err, ProfileError::MissingChunks { missing: 1, total: 3 });
    assert!(err.message().contains("1 chunk missing out of 3"));
}

#[test]
fn reassemble_two_missing_chunks() {
    let segments = vec![seg(2, 4, b"bb"), seg(3, 4, b"cc")];
    let err = reassemble_profile(&segments).unwrap_err();
    assert_eq!(err, ProfileError::MissingChunks { missing: 2, total: 4 });
    assert!(err.message().contains("2 chunks missing out of 4"));
}

#[test]
fn reassemble_total_mismatch() {
    let segments = vec![seg(1, 3, b"aa"), seg(2, 4, b"bb"), seg(3, 3, b"cc")];
    let err = reassemble_profile(&segments).unwrap_err();
    assert_eq!(err, ProfileError::TotalMismatch { expected: 3, found: 4 });
    assert!(err.message().contains("expected 3 found 4"));
}

#[test]
fn reassemble_duplicate_index() {
    let segments = vec![seg(1, 3, b"aa"), seg(1, 3, b"bb"), seg(3, 3, b"cc")];
    let err = reassemble_profile(&segments).unwrap_err();
    // Sorted indices are 1, 1, 3: position two should hold 2.
    assert_eq!(err, ProfileError::IndexMismatch { expected: 2, found: 1 });
    assert!(err.message().contains("expected chunk 2 found chunk 1"));
}

#[test]
fn reassemble_zero_total() {
    let segments = vec![seg(1, 0, b"aa")];
    assert_eq!(reassemble_profile(&segments), Err(ProfileError::InvalidTotal));
}

#[test]
fn reassemble_stops_after_declared_total() {
    // Once both declared chunks are collected, later segments are ignored.
    let segments = vec![seg(1, 2, b"aa"), seg(2, 2, b"bb"), seg(9, 9, b"zz")];
    assert_eq!(reassemble_profile(&segments), Ok(Some(b"aabb".to_vec())));
}

#[test]
fn srgb_descriptions_are_recognized() {
    assert!(is_srgb_description(Some("c2")));
    assert!(is_srgb_description(Some("sRGBz")));
    assert!(is_srgb_description(Some("z")));
    assert!(is_srgb_description(Some("nRGB")));
    assert!(is_srgb_description(Some("uRGB")));
    assert!(is_srgb_description(Some("sRGB")));
    assert!(is_srgb_description(Some("nGry")));
    assert!(is_srgb_description(Some("uGry")));
    assert!(is_srgb_description(Some("sGry")));
    assert!(is_srgb_description(Some("sRGB IEC61966-2.1")));
    assert!(is_srgb_description(Some("my srgb profile")));
    assert!(is_srgb_description(Some("MY SRGB PROFILE")));
    assert!(!is_srgb_description(Some("Adobe RGB (1998)")));
    assert!(!is_srgb_description(Some("sr gb")));
    assert!(!is_srgb_description(Some("")));
    assert!(!is_srgb_description(None));
}
