use jocky::errors::SegmentError;
use jocky::metadata::get_metadata_offsets;
use jocky::reader::DirectoryReader;
use jocky::writer::DirectoryStreamWriter;

#[test]
fn export_round_trip() {
    let mut w = DirectoryStreamWriter::new();
    w.write_fragment(b"/a".to_vec(), b"HELLO", false).unwrap();
    w.write_fragment(b"/b".to_vec(), b"WORLD", false).unwrap();
    w.write_fragment(b"/a".to_vec(), b"!!", false).unwrap();

    let out = w.export_segment(vec![0xDE, 0xAD]).unwrap();

    let (mstart, mlen) = get_metadata_offsets(&out[out.len() - 16..]).unwrap();
    assert_eq!(mstart as usize + mlen as usize + 16, out.len());
    assert_eq!(mstart, 12);

    let reader = DirectoryReader::open(out.clone()).unwrap();
    assert_eq!(reader.metadata.get_location(b"/a"), Some((0, 7)));
    assert_eq!(reader.metadata.get_location(b"/b"), Some((7, 12)));
    assert_eq!(reader.hot_cache().clone(), vec![0xDE, 0xAD]);
    assert_eq!(&out[0..7], b"HELLO!!");
    assert_eq!(&out[7..12], b"WORLD");
    assert_eq!(reader.atomic_read(b"/a").unwrap(), b"HELLO!!".to_vec());
    assert_eq!(reader.atomic_read(b"/b").unwrap(), b"WORLD".to_vec());
    assert_eq!(reader.atomic_read(b"/c"), None);
}

#[test]
fn export_packs_paths_in_ascending_order() {
    let mut w = DirectoryStreamWriter::new();
    w.write_fragment(b"/z".to_vec(), b"last", false).unwrap();
    w.write_fragment(b"/a".to_vec(), b"first", false).unwrap();
    let out = w.export_segment(Vec::new()).unwrap();
    let reader = DirectoryReader::open(out.clone()).unwrap();
    let files = reader.metadata.files();
    assert_eq!(files.len(), 2);
    assert_eq!(files[0].path, b"/a".to_vec());
    assert_eq!(files[1].path, b"/z".to_vec());
    assert_eq!(reader.metadata.get_location(b"/a"), Some((0, 5)));
    assert_eq!(reader.metadata.get_location(b"/z"), Some((5, 9)));
}

#[test]
fn export_reflects_overwrites_and_deletes() {
    let mut w = DirectoryStreamWriter::new();
    w.write_fragment(b"/a".to_vec(), b"OLD", false).unwrap();
    w.write_fragment(b"/a".to_vec(), b"NEW", true).unwrap();
    w.write_fragment(b"/b".to_vec(), b"GONE", false).unwrap();
    w.delete_file(b"/b").unwrap();
    let out = w.export_segment(Vec::new()).unwrap();
    let reader = DirectoryReader::open(out).unwrap();
    assert_eq!(reader.atomic_read(b"/a").unwrap(), b"NEW".to_vec());
    assert_eq!(reader.atomic_read(b"/b"), None);
}

#[test]
fn export_of_empty_writer_still_parses() {
    let mut w = DirectoryStreamWriter::new();
    let out = w.export_segment(vec![7]).unwrap();
    let reader = DirectoryReader::open(out).unwrap();
    assert_eq!(reader.metadata.files().len(), 0);
    assert_eq!(reader.hot_cache().clone(), vec![7]);
}

#[test]
fn export_flushes_the_writer() {
    let mut w = DirectoryStreamWriter::new();
    w.write_fragment(b"/a".to_vec(), b"abc", false).unwrap();
    assert_eq!(w.flushed_pos, 0);
    w.export_segment(Vec::new()).unwrap();
    assert_eq!(w.flushed_pos, 3);
}

#[test]
fn footer_on_short_file_is_an_error() {
    assert_eq!(get_metadata_offsets(&[0u8; 10]), Err(SegmentError::Serialization));
    assert!(DirectoryReader::open(vec![0u8; 15]).is_err());
}

#[test]
fn footer_that_does_not_add_up_is_an_error() {
    // Sixteen zero bytes claim a metadata blob of length zero starting at
    // zero, which accounts for a sixteen-byte file; the blob itself is empty
    // and undecodable.
    assert!(DirectoryReader::open(vec![0u8; 16]).is_err());
    // A wrong metadata_length cannot account for the file's size.
    let mut w = DirectoryStreamWriter::new();
    w.write_fragment(b"/a".to_vec(), b"x", false).unwrap();
    let mut out = w.export_segment(Vec::new()).unwrap();
    let n = out.len();
    out[n - 1] ^= 1;
    assert!(DirectoryReader::open(out).is_err());
}
