use jocky::errors::SegmentError;
use jocky::metadata::{
    get_metadata_offsets,
    write_metadata_offsets,
    SegmentMetadata,
    METADATA_HEADER_SIZE,
};

#[test]
fn footer_is_two_big_endian_words() {
    let mut out = Vec::new();
    write_metadata_offsets(&mut out, 1, 2);
    assert_eq!(out.len(), METADATA_HEADER_SIZE);
    assert_eq!(
        out,
        vec![0, 0, 0, 0, 0, 0, 0, 1, 0, 0, 0, 0, 0, 0, 0, 2]
    );
    assert_eq!(get_metadata_offsets(&out), Ok((1, 2)));

    let mut big = Vec::new();
    write_metadata_offsets(&mut big, 0x0102030405060708, 0x1122334455667788);
    assert_eq!(
        big,
        vec![1, 2, 3, 4, 5, 6, 7, 8, 0x11, 0x22, 0x33, 0x44, 0x55, 0x66, 0x77, 0x88]
    );
    assert_eq!(get_metadata_offsets(&big), Ok((0x0102030405060708, 0x1122334455667788)));
}

#[test]
fn metadata_round_trips() {
    let mut m = SegmentMetadata::default();
    m.with_hot_cache(vec![9, 8, 7]);
    m.add_file(b"/a".to_vec(), 0, 7);
    m.add_file(b"/b".to_vec(), 7, 12);

    let bytes = m.to_bytes();
    let back = SegmentMetadata::from_buffer(&bytes).unwrap();
    assert_eq!(back.hot_cache, vec![9, 8, 7]);
    assert_eq!(back.files().len(), 2);
    assert_eq!(back.get_location(b"/a"), Some((0, 7)));
    assert_eq!(back.get_location(b"/b"), Some((7, 12)));
    assert_eq!(back.get_location(b"/c"), None);
}

#[test]
fn empty_metadata_round_trips() {
    let m = SegmentMetadata::default();
    let bytes = m.to_bytes();
    let back = SegmentMetadata::from_buffer(&bytes).unwrap();
    assert_eq!(back.files().len(), 0);
    assert!(back.hot_cache.is_empty());
}

#[test]
fn ill_formed_metadata_is_rejected() {
    let bad = SegmentMetadata::from_buffer(&[1, 2, 3]);
    assert!(matches!(bad, Err(SegmentError::Serialization)));
    // A count of one file with nothing after it.
    let mut bytes = Vec::new();
    write_metadata_offsets(&mut bytes, 1, 0);
    bytes.truncate(8);
    assert!(SegmentMetadata::from_buffer(&bytes).is_err());
    // Trailing garbage after a valid blob.
    let mut ok = SegmentMetadata::default().to_bytes();
    ok.push(0);
    assert!(SegmentMetadata::from_buffer(&ok).is_err());
    assert_eq!(
        SegmentError::Serialization.message(),
        "Could not decode segment metadata"
    );
}

#[test]
fn hot_cache_comes_back_verbatim() {
    let mut m = SegmentMetadata::default();
    let blob: Vec<u8> = (0u8..255).collect();
    m.with_hot_cache(blob.clone());
    let back = SegmentMetadata::from_buffer(&m.to_bytes()).unwrap();
    assert_eq!(back.hot_cache, blob);
}

#[test]
fn latest_location_wins() {
    let mut m = SegmentMetadata::default();
    m.add_file(b"/a".to_vec(), 0, 7);
    m.add_file(b"/b".to_vec(), 7, 12);
    m.add_file(b"/a".to_vec(), 12, 20);

    // The newer record for /a replaced the older one in place.
    assert_eq!(m.get_location(b"/a"), Some((12, 20)));
    assert_eq!(m.get_location(b"/b"), Some((7, 12)));
    assert_eq!(m.files().len(), 2);
    assert_eq!(m.files()[0].path, b"/a".to_vec());
    assert_eq!(m.files()[1].path, b"/b".to_vec());

    // The replaced record also round-trips.
    let back = SegmentMetadata::from_buffer(&m.to_bytes()).unwrap();
    assert_eq!(back.get_location(b"/a"), Some((12, 20)));
    assert_eq!(back.files().len(), 2);
}
