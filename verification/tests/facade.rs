use jocky::directory::LinearSegmentWriter;
use jocky::errors::SegmentError;
use jocky::reader::DirectoryReader;

#[test]
fn prefix_is_prepended_to_every_path() {
    let mut d = LinearSegmentWriter::new(b"seg-1".to_vec());
    assert_eq!(d.with_prefix(b"/meta.json"), b"seg-1/meta.json".to_vec());
    d.write(b"/a", b"HELLO").unwrap();
    assert!(d.file_exists(b"/a"));
    assert!(d.writer.file_exists(b"seg-1/a"));
    assert!(!d.writer.file_exists(b"/a"));
}

#[test]
fn two_facades_share_no_files() {
    let mut d1 = LinearSegmentWriter::new(b"one".to_vec());
    let mut d2 = LinearSegmentWriter::new(b"two".to_vec());
    d1.write(b"/a", b"X").unwrap();
    d2.write(b"/b", b"Y").unwrap();
    assert!(d1.file_exists(b"/a"));
    assert!(!d1.file_exists(b"/b"));
    assert!(!d2.file_exists(b"/a"));
    assert!(d2.file_exists(b"/b"));
}

#[test]
fn stream_writes_append_and_read_back() {
    let mut d = LinearSegmentWriter::new(Vec::new());
    d.write(b"/doc", b"HELLO").unwrap();
    d.write(b"/doc", b" WORLD").unwrap();
    assert_eq!(d.file_len(b"/doc"), Some(11));
    assert_eq!(d.read_bytes(b"/doc", 0, 11).unwrap(), b"HELLO WORLD".to_vec());
    assert_eq!(d.read_bytes(b"/doc", 6, 11).unwrap(), b"WORLD".to_vec());
}

#[test]
fn atomic_files_are_served_from_memory() {
    let mut d = LinearSegmentWriter::new(Vec::new());
    d.atomic_write(b"/meta.json", b"{}").unwrap();
    assert_eq!(d.atomic_read(b"/meta.json").unwrap(), b"{}".to_vec());
    assert_eq!(d.atomic_read(b"/other"), None);

    // The newest atomic write wins.
    d.atomic_write(b"/meta.json", b"{\"v\":2}").unwrap();
    assert_eq!(d.atomic_read(b"/meta.json").unwrap(), b"{\"v\":2}".to_vec());

    // The bytes were also forwarded to the writer as an overwrite.
    assert_eq!(d.read_bytes(b"/meta.json", 0, 7).unwrap(), b"{\"v\":2}".to_vec());
}

#[test]
fn facade_delete_and_errors() {
    let mut d = LinearSegmentWriter::new(Vec::new());
    d.write(b"/a", b"X").unwrap();
    d.delete(b"/a").unwrap();
    assert!(!d.file_exists(b"/a"));
    assert_eq!(d.read_bytes(b"/a", 0, 1), Err(SegmentError::NotFound));
}

#[test]
fn facade_export_packs_everything() {
    let mut d = LinearSegmentWriter::new(Vec::new());
    d.write(b"/body", b"TEXT").unwrap();
    d.atomic_write(b"/meta", b"M").unwrap();
    let out = d.export_segment(vec![1, 2, 3]).unwrap();
    let reader = DirectoryReader::open(out).unwrap();
    assert_eq!(reader.atomic_read(b"/body").unwrap(), b"TEXT".to_vec());
    assert_eq!(reader.atomic_read(b"/meta").unwrap(), b"M".to_vec());
    assert_eq!(reader.hot_cache().clone(), vec![1, 2, 3]);
}

#[test]
fn write_stream_defers_failures_to_the_next_write() {
    let mut d = LinearSegmentWriter::new(Vec::new());
    let mut stream = d.open_write(b"/doc");
    assert_eq!(stream.write(&mut d, b"HELLO"), Ok(5));
    d.writer.close();
    // The write that hits the closed writer still reports its byte count;
    // the failure surfaces at the next operation, and the stream stays
    // failed from then on.
    assert_eq!(stream.write(&mut d, b" WORLD"), Ok(6));
    assert_eq!(stream.write(&mut d, b"!"), Err(SegmentError::Finalised));
    assert_eq!(stream.write(&mut d, b"!"), Err(SegmentError::Finalised));
}

#[test]
fn file_handle_caches_its_length() {
    let mut d = LinearSegmentWriter::new(b"p".to_vec());
    d.write(b"/a", b"HELLO").unwrap();
    let handle = d.get_file_handle(b"/a").unwrap();
    assert_eq!(handle.len(), 5);
    assert!(d.get_file_handle(b"/nope").is_none());

    // The handle's length stays what it was at open; reads see the writer's
    // current state.
    d.write(b"/a", b" WORLD").unwrap();
    assert_eq!(handle.len(), 5);
    assert_eq!(d.file_len(b"/a"), Some(11));
    assert_eq!(
        handle.read_bytes(&mut d.writer, 0, 11).unwrap(),
        b"HELLO WORLD".to_vec()
    );
}

#[test]
fn make_buffer_is_one_zeroed_block() {
    let buf = jocky::writer::make_buffer();
    assert_eq!(buf.len(), jocky::writer::BLOCK_SIZE);
    assert_eq!(buf.len(), 512 << 10);
    assert!(buf.iter().all(|b| *b == 0));
}

#[test]
fn facade_reads_past_the_end_truncate_and_never_err() {
    let mut d = LinearSegmentWriter::new(Vec::new());
    d.write(b"/a", b"HELLO").unwrap();
    assert_eq!(d.read_bytes(b"/a", 0, 100).unwrap(), b"HELLO".to_vec());
    assert_eq!(d.read_bytes(b"/a", 3, 100).unwrap(), b"LO".to_vec());
    assert_eq!(d.read_bytes(b"/a", 50, 60).unwrap(), Vec::<u8>::new());

    let handle = d.get_file_handle(b"/a").unwrap();
    assert_eq!(handle.read_bytes(&mut d.writer, 0, 100).unwrap(), b"HELLO".to_vec());
    assert_eq!(
        handle.read_bytes(&mut d.writer, 50, 60).unwrap(),
        Vec::<u8>::new()
    );
}
