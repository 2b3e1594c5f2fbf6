use dirwatch::change::Change;
use dirwatch::codec::CsvHandler;
use dirwatch::parse::{make_header, scan_log};

fn handler() -> CsvHandler {
    CsvHandler::new(b"changes.csv".to_vec())
}

fn change(path: &[u8], timestamp: u64) -> Change {
    Change::new(path.to_vec(), timestamp)
}

#[test]
fn empty_batch_is_a_noop() {
    // An empty batch must append nothing, whether or not the store exists,
    // so the store is neither created nor touched.
    let h = handler();
    assert!(h.render_batch(&vec![], false).is_none());
    assert!(h.render_batch(&vec![], true).is_none());
}

#[test]
fn first_batch_opens_with_header() {
    let h = handler();
    let bytes = h.render_batch(&vec![change(b"/r/a.txt", 1234)], false).unwrap();
    assert_eq!(bytes, b"path,timestamp\n\"/r/a.txt\",1234\n".to_vec());
}

#[test]
fn later_batch_has_no_header() {
    let h = handler();
    let bytes = h.render_batch(&vec![change(b"/r/a.txt", 1234)], true).unwrap();
    assert_eq!(bytes, b"\"/r/a.txt\",1234\n".to_vec());
}

#[test]
fn embedded_quotes_are_doubled() {
    let h = handler();
    let bytes = h.render_batch(&vec![change(b"/r/say \"hi\".txt", 7)], true).unwrap();
    assert_eq!(bytes, b"\"/r/say \"\"hi\"\".txt\",7\n".to_vec());
}

#[test]
fn timestamp_zero_renders_as_one_digit() {
    let h = handler();
    let bytes = h.render_batch(&vec![change(b"/r/a", 0)], true).unwrap();
    assert_eq!(bytes, b"\"/r/a\",0\n".to_vec());
}

#[test]
fn large_timestamp_renders_all_digits() {
    let h = handler();
    let bytes = h.render_batch(&vec![change(b"/r/a", u64::MAX)], true).unwrap();
    assert_eq!(bytes, b"\"/r/a\",18446744073709551615\n".to_vec());
}

#[test]
fn batch_lines_keep_order() {
    let h = handler();
    let bytes = h
        .render_batch(&vec![change(b"/r/a", 1), change(b"/r/b", 2)], true)
        .unwrap();
    assert_eq!(bytes, b"\"/r/a\",1\n\"/r/b\",2\n".to_vec());
}

#[test]
fn written_log_reads_back_to_same_changes() {
    // Writing N changes and re-reading the log yields the N changes again,
    // with the quote doubling reversed, after the one header line.
    let h = handler();
    let written = vec![
        change(b"/r/a.txt", 100),
        change(b"/r/with \"quote\"", 101),
        change(b"/r/sub/deep.rs", 18446744073709551615),
    ];
    let bytes = h.render_batch(&written, false).unwrap();
    let data_lines = bytes.iter().filter(|b| **b == b'\n').count() - 1;
    assert_eq!(data_lines, written.len());
    let read = scan_log(&bytes).unwrap();
    assert_eq!(read, written);
}

#[test]
fn log_of_header_alone_reads_back_empty() {
    let read = scan_log(&make_header()).unwrap();
    assert!(read.is_empty());
}

#[test]
fn log_without_header_is_refused() {
    assert!(scan_log(&b"\"/r/a\",1\n".to_vec()).is_none());
    assert!(scan_log(&b"".to_vec()).is_none());
    assert!(scan_log(&b"path,timestamp".to_vec()).is_none());
}

#[test]
fn malformed_lines_are_refused() {
    let mut d = make_header();
    d.extend_from_slice(b"/r/a,1\n"); // path not quoted
    assert!(scan_log(&d).is_none());

    let mut d = make_header();
    d.extend_from_slice(b"\"/r/a\"1\n"); // missing comma
    assert!(scan_log(&d).is_none());

    let mut d = make_header();
    d.extend_from_slice(b"\"/r/a\",\n"); // missing timestamp
    assert!(scan_log(&d).is_none());

    let mut d = make_header();
    d.extend_from_slice(b"\"/r/a\",12"); // missing newline
    assert!(scan_log(&d).is_none());

    let mut d = make_header();
    d.extend_from_slice(b"\"/r/a\",99999999999999999999999\n"); // overflow
    assert!(scan_log(&d).is_none());
}

#[test]
fn handler_keeps_its_target() {
    let h = CsvHandler::new(b"changes.csv".to_vec());
    assert_eq!(h.target(), &b"changes.csv".to_vec());
}
