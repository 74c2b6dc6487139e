use mini_sqlite::commit_log::{LSMTreeStorage, LogDetail, LogEntry};
use mini_sqlite::pager::Pager;
use mini_sqlite::value::Value;

#[test]
fn empty_blob_leaves_no_page() {
    let mut p = Pager::new(4096);
    p.write_blob(&[1, 2, 3]);
    p.write_blob(&[]);
    assert_eq!(p.read_blob(), Vec::<u8>::new());
    assert_eq!(p.stats().pages, 0);
    assert!(p.to_file_bytes().is_empty());
}

#[test]
fn blob_round_trip_across_pages() {
    let mut p = Pager::new(4);
    let data: Vec<u8> = (1..=10).collect();
    p.write_blob(&data);
    assert_eq!(p.read_blob(), data);
    assert_eq!(p.stats().pages, 3);
    assert_eq!(p.stats().page_size, 4);
    assert_eq!(p.read_page(2), Some(&[9u8, 10, 0, 0][..]));
    assert_eq!(p.read_page(3), None);
    let exact: Vec<u8> = (1..=8).collect();
    p.write_blob(&exact);
    assert_eq!(p.stats().pages, 2);
    assert_eq!(p.read_blob(), exact);
}

#[test]
fn file_image_layout() {
    let mut p = Pager::new(4);
    p.write_blob(&[7, 8, 9, 10, 11]);
    let img = p.to_file_bytes();
    assert_eq!(&img[..4], b"MDB1");
    assert_eq!(&img[4..8], &[4, 0, 0, 0]);
    assert_eq!(&img[8..16], &[5, 0, 0, 0, 0, 0, 0, 0]);
    assert_eq!(&img[16..], &[7, 8, 9, 10, 11, 0, 0, 0]);
    let q = Pager::from_file_bytes(&img, 4096);
    assert_eq!(q.stats().page_size, 4);
    assert_eq!(q.read_blob(), vec![7, 8, 9, 10, 11]);
}

#[test]
fn bad_header_starts_empty() {
    let q = Pager::from_file_bytes(b"XDB1\x04\x00\x00\x00\x05\x00\x00\x00\x00\x00\x00\x00abcd", 64);
    assert_eq!(q.stats().page_size, 64);
    assert_eq!(q.stats().pages, 0);
    let short = Pager::from_file_bytes(b"MDB1", 64);
    assert_eq!(short.read_blob(), Vec::<u8>::new());
    let zero_size = Pager::from_file_bytes(b"MDB1\x00\x00\x00\x00\x02\x00\x00\x00\x00\x00\x00\x00ab", 8);
    assert_eq!(zero_size.stats().page_size, 8);
    assert_eq!(zero_size.read_blob(), b"ab".to_vec());
}

#[test]
fn raw_page_access() {
    let mut p = Pager::new(4);
    assert_eq!(p.allocate_page(), 0);
    p.write_page(2, &[1, 2, 3, 4, 5, 6]);
    assert_eq!(p.stats().pages, 3);
    assert_eq!(p.read_page(0), Some(&[0u8, 0, 0, 0][..]));
    assert_eq!(p.read_page(2), Some(&[1u8, 2, 3, 4][..]));
    p.write_page(2, &[9]);
    assert_eq!(p.read_page(2), Some(&[9u8, 2, 3, 4][..]));
}

fn entry(n: i64) -> LogEntry {
    LogEntry {
        db: "default".to_string(),
        command: "INSERT".to_string(),
        details: vec![LogDetail { key: "count".to_string(), value: Value::Integer(n) }],
    }
}

#[test]
fn commit_flushes_pending() {
    let mut log = LSMTreeStorage::new();
    log.log(entry(1));
    log.log(entry(2));
    assert_eq!(log.pending(), 2);
    assert_eq!(log.snapshot(), vec![entry(1), entry(2)]);
    assert_eq!(log.pending(), 2);
    assert_eq!(log.commit(), vec![entry(1), entry(2)]);
    assert_eq!(log.pending(), 0);
    assert!(log.commit().is_empty());
    assert_eq!(log.history(), vec![entry(1), entry(2)]);
}

#[test]
fn history_keeps_last_ten() {
    let mut log = LSMTreeStorage::new();
    for i in 0..12 {
        log.log(entry(i));
    }
    assert_eq!(log.commit().len(), 12);
    let kept: Vec<LogEntry> = (2..12).map(entry).collect();
    assert_eq!(log.history(), kept);
}
