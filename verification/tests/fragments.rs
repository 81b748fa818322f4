use jocky::errors::SegmentError;
use jocky::fragments::{DiskFragments, Fragment};

#[test]
fn mark_and_query_fragments() {
    let mut fr = DiskFragments::new();
    fr.mark_fragment_location(b"/a".to_vec(), Fragment { start: 0, end: 5 }, false);
    fr.mark_fragment_location(b"/b".to_vec(), Fragment { start: 5, end: 10 }, false);
    fr.mark_fragment_location(b"/a".to_vec(), Fragment { start: 10, end: 12 }, false);

    assert!(fr.file_exists(b"/a"));
    assert!(fr.file_exists(b"/b"));
    assert!(!fr.file_exists(b"/c"));
    assert_eq!(fr.file_size(b"/a"), Some(7));
    assert_eq!(fr.file_size(b"/b"), Some(5));
    assert_eq!(fr.file_size(b"/c"), None);
    assert_eq!(fr.total_size(), 12);
}

#[test]
fn total_size_sums_every_present_path() {
    let mut fr = DiskFragments::new();
    fr.mark_fragment_location(b"/a".to_vec(), Fragment { start: 0, end: 3 }, false);
    fr.mark_fragment_location(b"/b".to_vec(), Fragment { start: 3, end: 8 }, false);
    fr.mark_fragment_location(b"/c".to_vec(), Fragment { start: 8, end: 9 }, false);
    assert_eq!(
        fr.total_size(),
        fr.file_size(b"/a").unwrap() + fr.file_size(b"/b").unwrap()
            + fr.file_size(b"/c").unwrap()
    );
}

#[test]
fn overwrite_mark_drops_earlier_fragments() {
    let mut fr = DiskFragments::new();
    fr.mark_fragment_location(b"/a".to_vec(), Fragment { start: 0, end: 5 }, false);
    fr.mark_fragment_location(b"/a".to_vec(), Fragment { start: 5, end: 7 }, true);
    assert_eq!(fr.file_size(b"/a"), Some(2));
    assert_eq!(fr.total_size(), 2);
}

#[test]
fn clear_fragments_is_idempotent() {
    let mut fr = DiskFragments::new();
    fr.mark_fragment_location(b"/a".to_vec(), Fragment { start: 0, end: 5 }, false);
    fr.clear_fragments(b"/a");
    fr.clear_fragments(b"/a");
    assert!(!fr.file_exists(b"/a"));
    assert_eq!(fr.total_size(), 0);
}

#[test]
fn entries_come_back_in_ascending_path_order() {
    let mut fr = DiskFragments::new();
    fr.mark_fragment_location(b"/z".to_vec(), Fragment { start: 0, end: 1 }, false);
    fr.mark_fragment_location(b"/a".to_vec(), Fragment { start: 1, end: 2 }, false);
    fr.mark_fragment_location(b"/m".to_vec(), Fragment { start: 2, end: 3 }, false);
    let entries = fr.inner();
    assert_eq!(entries.len(), 3);
    assert_eq!(entries[0].path, b"/a".to_vec());
    assert_eq!(entries[1].path, b"/m".to_vec());
    assert_eq!(entries[2].path, b"/z".to_vec());
}

#[test]
fn resolve_selects_the_asked_range() {
    let mut fr = DiskFragments::new();
    fr.mark_fragment_location(b"/a".to_vec(), Fragment { start: 0, end: 5 }, false);
    fr.mark_fragment_location(b"/a".to_vec(), Fragment { start: 10, end: 12 }, false);

    let sel = fr.get_selected_fragments(b"/a", 0, 7).unwrap();
    assert_eq!(sel.fragments, vec![(0, 5), (10, 2)]);
    assert_eq!(sel.minimum_flushed_pos, 12);

    let sel = fr.get_selected_fragments(b"/a", 2, 4).unwrap();
    assert_eq!(sel.fragments, vec![(2, 2)]);
}

#[test]
fn resolve_skips_fragments_below_the_offset() {
    let mut fr = DiskFragments::new();
    fr.mark_fragment_location(b"/a".to_vec(), Fragment { start: 0, end: 5 }, false);
    fr.mark_fragment_location(b"/a".to_vec(), Fragment { start: 10, end: 12 }, false);
    // lo = 5 is past the whole first fragment: it is skipped entirely.
    let sel = fr.get_selected_fragments(b"/a", 5, 7).unwrap();
    assert_eq!(sel.fragments, vec![(10, 2)]);
    assert_eq!(sel.minimum_flushed_pos, 12);
}

#[test]
fn resolve_of_missing_path_is_not_found() {
    let fr = DiskFragments::new();
    assert!(matches!(
        fr.get_selected_fragments(b"/a", 0, 1),
        Err(SegmentError::NotFound)
    ));
    assert_eq!(SegmentError::NotFound.message(), "File not found");
}

#[test]
fn resolve_past_the_end_selects_what_exists() {
    let mut fr = DiskFragments::new();
    fr.mark_fragment_location(b"/a".to_vec(), Fragment { start: 0, end: 5 }, false);
    let sel = fr.get_selected_fragments(b"/a", 3, 100).unwrap();
    assert_eq!(sel.fragments, vec![(3, 2)]);
    let sel = fr.get_selected_fragments(b"/a", 9, 100).unwrap();
    assert_eq!(sel.fragments, Vec::<(u64, usize)>::new());
}
