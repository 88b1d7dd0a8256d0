use zarrs_zip::{
    calculate_data_offset, check_decompressed_len, key_parent, immediate_child_prefix, name_le,
    range_is_valid, read_len, slice_ranges, strip_zip_path_prefix, translate_stored_ranges,
    validate_key, validate_prefix, validate_ranges, ByteRange, ReadError,
};

#[test]
fn range_at_end_is_empty() {
    let data = vec![0u8, 1, 2, 3];
    let ranges = [ByteRange::FromStart(4, Some(0))];
    assert_eq!(validate_ranges(&ranges, 4), Ok(()));
    assert_eq!(slice_ranges(&data, &ranges), vec![Vec::<u8>::new()]);
}

#[test]
fn range_past_end_is_invalid() {
    let ranges = [ByteRange::FromStart(0, Some(2)), ByteRange::FromStart(5, Some(0))];
    assert_eq!(
        validate_ranges(&ranges, 4),
        Err(ReadError::InvalidRange(ByteRange::FromStart(5, Some(0)), 4))
    );
    assert!(!range_is_valid(ByteRange::FromStart(5, None), 4));
    assert!(!range_is_valid(ByteRange::FromStart(u64::MAX, Some(2)), 4));
    assert!(range_is_valid(ByteRange::Suffix(9), 4));
}

#[test]
fn slices_of_decompressed_entry() {
    let data: Vec<u8> = (10u8..20).collect();
    let ranges = [
        ByteRange::FromStart(2, Some(3)),
        ByteRange::FromStart(7, None),
        ByteRange::Suffix(2),
        ByteRange::Suffix(50),
    ];
    let out = slice_ranges(&data, &ranges);
    assert_eq!(out[0], vec![12, 13, 14]);
    assert_eq!(out[1], vec![17, 18, 19]);
    assert_eq!(out[2], vec![18, 19]);
    assert_eq!(out[3], data);
    let halves = slice_ranges(&data, &[ByteRange::FromStart(0, Some(6)), ByteRange::FromStart(6, None)]);
    assert_eq!([halves[0].clone(), halves[1].clone()].concat(), data);
}

#[test]
fn stored_ranges_are_translated() {
    let ranges = [
        ByteRange::FromStart(2, Some(3)),
        ByteRange::FromStart(4, None),
        ByteRange::Suffix(3),
        ByteRange::Suffix(100),
    ];
    let t = translate_stored_ranges(&ranges, 1000, 10).unwrap();
    assert_eq!(t, vec![(1002, 3), (1004, 6), (1007, 3), (1000, 10)]);
    assert_eq!(translate_stored_ranges(&ranges, u64::MAX - 5, 10), None);
}

#[test]
fn data_offset_from_local_header() {
    let mut header = vec![0u8; 30];
    header[26] = 13;
    header[27] = 1;
    header[28] = 4;
    let offset = calculate_data_offset(100, &header);
    assert_eq!(offset, Ok(100 + 30 + 269 + 4));
    assert_eq!(calculate_data_offset(100, &header[..29]), Err(ReadError::HeaderTooShort));
    assert_eq!(calculate_data_offset(u64::MAX - 10, &header), Err(ReadError::OffsetOverflow));
}

#[test]
fn read_len_stays_inside_archive() {
    assert_eq!(read_len(0, 64, 1000), 64);
    assert_eq!(read_len(990, 64, 1000), 10);
    assert_eq!(read_len(1000, 64, 1000), 0);
    assert_eq!(read_len(2000, 64, 1000), 0);
}

#[test]
fn decompressed_size_must_match() {
    assert_eq!(check_decompressed_len(7, 7), Ok(()));
    assert_eq!(
        check_decompressed_len(6, 7),
        Err(ReadError::SizeMismatch { expected: 7, written: 6 })
    );
}

#[test]
fn key_and_prefix_rules() {
    assert!(validate_key(b"a/b.json"));
    assert!(!validate_key(b"/a"));
    assert!(!validate_key(b"a/"));
    assert!(!validate_key(b"a//b"));
    assert!(validate_prefix(b""));
    assert!(validate_prefix(b"a/b/"));
    assert!(!validate_prefix(b"a"));
    assert!(!validate_prefix(b"/a/"));
}

#[test]
fn parents_and_children() {
    assert_eq!(key_parent(b"a/b/c.json"), b"a/b/".to_vec());
    assert_eq!(key_parent(b"c.json"), Vec::<u8>::new());
    assert_eq!(immediate_child_prefix(b"a/b/c/d", b"a/"), Some(b"a/b/".to_vec()));
    assert_eq!(immediate_child_prefix(b"a/b", b"a/"), None);
    assert_eq!(immediate_child_prefix(b"x/b/c", b"a/"), None);
    assert_eq!(strip_zip_path_prefix(b"a/b/zarr.json", b"a/"), Some(b"b/zarr.json".to_vec()));
    assert_eq!(strip_zip_path_prefix(b"a/", b"a/"), None);
    assert_eq!(strip_zip_path_prefix(b"b/x", b"a/"), None);
}

#[test]
fn byte_order_of_names() {
    assert!(name_le(b"a/b", b"a/c"));
    assert!(name_le(b"a", b"a/"));
    assert!(!name_le(b"b", b"a/z"));
    assert!(name_le(b"same", b"same"));
}
