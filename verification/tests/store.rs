use jocky::errors::SegmentError;
use jocky::writer::DirectoryStreamWriter;

#[test]
fn two_file_interleave() {
    let mut w = DirectoryStreamWriter::new();
    w.write_fragment(b"/a".to_vec(), b"HELLO", false).unwrap();
    w.write_fragment(b"/b".to_vec(), b"WORLD", false).unwrap();
    w.write_fragment(b"/a".to_vec(), b"!!", false).unwrap();

    assert_eq!(w.file_len(b"/a"), Some(7));
    assert_eq!(w.read_range(b"/a", 0, 7).unwrap(), b"HELLO!!".to_vec());
    assert_eq!(w.read_range(b"/b", 0, 5).unwrap(), b"WORLD".to_vec());
}

#[test]
fn overwrite_replaces_file() {
    let mut w = DirectoryStreamWriter::new();
    w.write_fragment(b"/a".to_vec(), b"AAA", false).unwrap();
    w.write_fragment(b"/a".to_vec(), b"BB", true).unwrap();

    assert_eq!(w.file_len(b"/a"), Some(2));
    assert_eq!(w.read_range(b"/a", 0, 2).unwrap(), b"BB".to_vec());
    assert!(w.file_exists(b"/a"));
}

#[test]
fn overwrite_then_append_concatenates() {
    let mut w = DirectoryStreamWriter::new();
    w.write_fragment(b"/p".to_vec(), b"AA", true).unwrap();
    w.write_fragment(b"/p".to_vec(), b"BBB", false).unwrap();
    assert_eq!(w.file_len(b"/p"), Some(5));
    assert_eq!(w.read_range(b"/p", 0, 5).unwrap(), b"AABBB".to_vec());

    w.write_fragment(b"/p".to_vec(), b"C", true).unwrap();
    assert_eq!(w.read_range(b"/p", 0, 1).unwrap(), b"C".to_vec());
    assert_eq!(w.file_len(b"/p"), Some(1));
}

#[test]
fn delete_removes_only_its_file() {
    let mut w = DirectoryStreamWriter::new();
    w.write_fragment(b"/a".to_vec(), b"HELLO", false).unwrap();
    w.write_fragment(b"/b".to_vec(), b"WORLD", false).unwrap();
    w.write_fragment(b"/a".to_vec(), b"!!", false).unwrap();

    w.delete_file(b"/b").unwrap();
    assert!(!w.file_exists(b"/b"));
    assert_eq!(w.read_range(b"/b", 0, 1), Err(SegmentError::NotFound));
    assert_eq!(w.read_range(b"/a", 0, 7).unwrap(), b"HELLO!!".to_vec());
}

#[test]
fn delete_is_idempotent() {
    let mut w = DirectoryStreamWriter::new();
    w.write_fragment(b"/a".to_vec(), b"X", false).unwrap();
    w.delete_file(b"/a").unwrap();
    w.delete_file(b"/a").unwrap();
    assert!(!w.file_exists(b"/a"));
}

#[test]
fn non_contiguous_read() {
    let mut w = DirectoryStreamWriter::new();
    let mib = 1 << 20;
    w.write_fragment(b"/x".to_vec(), &vec![0x01u8; mib], false).unwrap();
    w.write_fragment(b"/y".to_vec(), &vec![0x02u8; mib], false).unwrap();
    w.write_fragment(b"/x".to_vec(), &vec![0x03u8; mib], false).unwrap();

    assert_eq!(w.file_len(b"/x"), Some(2 * mib));
    let got = w.read_range(b"/x", 1_048_570, 1_048_580).unwrap();
    let mut expected = vec![0x01u8; 6];
    expected.extend_from_slice(&[0x03u8; 4]);
    assert_eq!(got, expected);
}

#[test]
fn read_forces_flush() {
    let mut w = DirectoryStreamWriter::new();
    let data = vec![0xABu8; 100 << 10];
    w.write_fragment(b"/a".to_vec(), &data, false).unwrap();
    assert_eq!(w.flushed_pos, 0);

    let got = w.read_range(b"/a", 0, 100 << 10).unwrap();
    assert_eq!(got, data);
    assert!(w.flushed_pos >= 100 << 10);
}

#[test]
fn read_below_flushed_pos_leaves_it_alone() {
    let mut w = DirectoryStreamWriter::new();
    w.write_fragment(b"/a".to_vec(), b"early", false).unwrap();
    w.read_range(b"/a", 0, 5).unwrap();
    let flushed = w.flushed_pos;
    w.read_range(b"/a", 0, 5).unwrap();
    assert_eq!(w.flushed_pos, flushed);
}

#[test]
fn partial_read_matches_slice_of_full_read() {
    let mut w = DirectoryStreamWriter::new();
    w.write_fragment(b"/a".to_vec(), b"HELLO", false).unwrap();
    w.write_fragment(b"/a".to_vec(), b"WORLD", false).unwrap();
    let full = w.read_range(b"/a", 0, 10).unwrap();
    for lo in 0..=10usize {
        for hi in lo..=10usize {
            assert_eq!(w.read_range(b"/a", lo, hi).unwrap(), full[lo..hi].to_vec());
        }
    }
}

#[test]
fn read_past_end_truncates_and_never_errs() {
    let mut w = DirectoryStreamWriter::new();
    w.write_fragment(b"/a".to_vec(), b"HELLO!!", false).unwrap();
    assert_eq!(w.read_range(b"/a", 0, 100).unwrap(), b"HELLO!!".to_vec());
    assert_eq!(w.read_range(b"/a", 5, 100).unwrap(), b"!!".to_vec());
    assert_eq!(w.read_range(b"/a", 7, 9).unwrap(), Vec::<u8>::new());
    assert_eq!(w.read_range(b"/a", 50, 60).unwrap(), Vec::<u8>::new());
}

#[test]
fn empty_writes_create_no_fragments() {
    let mut w = DirectoryStreamWriter::new();
    w.write_fragment(b"/e".to_vec(), b"", false).unwrap();
    assert!(!w.file_exists(b"/e"));

    w.write_fragment(b"/a".to_vec(), b"data", false).unwrap();
    w.write_fragment(b"/a".to_vec(), b"", false).unwrap();
    assert_eq!(w.file_len(b"/a"), Some(4));

    w.write_fragment(b"/a".to_vec(), b"", true).unwrap();
    assert!(!w.file_exists(b"/a"));
}

#[test]
fn missing_file_is_not_found() {
    let mut w = DirectoryStreamWriter::new();
    assert_eq!(w.read_range(b"/nope", 0, 1), Err(SegmentError::NotFound));
    assert_eq!(w.file_len(b"/nope"), None);
    assert!(!w.file_exists(b"/nope"));
}

#[test]
fn closed_writer_is_finalised() {
    let mut w = DirectoryStreamWriter::new();
    w.write_fragment(b"/a".to_vec(), b"unflushed", false).unwrap();
    w.close();
    assert_eq!(
        w.write_fragment(b"/b".to_vec(), b"more", false),
        Err(SegmentError::Finalised)
    );
    assert_eq!(w.read_range(b"/a", 0, 9), Err(SegmentError::Finalised));
    assert_eq!(w.export_segment(Vec::new()).unwrap_err(), SegmentError::Finalised);
    assert_eq!(SegmentError::Finalised.message(), "Writer has already been finalised.");
}

#[test]
fn closed_writer_still_serves_flushed_reads_and_deletes() {
    let mut w = DirectoryStreamWriter::new();
    w.write_fragment(b"/a".to_vec(), b"HELLO", false).unwrap();
    w.read_range(b"/a", 0, 5).unwrap();
    w.close();
    assert_eq!(w.read_range(b"/a", 0, 5).unwrap(), b"HELLO".to_vec());
    w.delete_file(b"/a").unwrap();
    assert!(!w.file_exists(b"/a"));
}

#[test]
fn segment_size_is_every_byte_ever_written() {
    let mut w = DirectoryStreamWriter::new();
    w.write_fragment(b"/a".to_vec(), b"12345", false).unwrap();
    w.write_fragment(b"/a".to_vec(), b"678", true).unwrap();
    w.delete_file(b"/a").unwrap();
    assert_eq!(w.get_segment_size(), 8);
}

#[test]
fn write_fragment_owned_behaves_like_borrowed() {
    let mut w = DirectoryStreamWriter::new();
    w.write_fragment_owned(b"/a".to_vec(), b"HELLO".to_vec(), false).unwrap();
    w.write_fragment_owned(b"/a".to_vec(), b"!!".to_vec(), false).unwrap();
    assert_eq!(w.read_range(b"/a", 0, 7).unwrap(), b"HELLO!!".to_vec());
}
