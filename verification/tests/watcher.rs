use keyence_integration::watcher::{content_changed, resume_offset, split_new_lines};

const LINE_1: &str =
    "301,2026,8,26,13,34,40,OK,OK,OK,'400111062103002382600605,MMO-26052028-001-P005";
const LINE_2: &str =
    "325,2026,8,26,13,52,37,OK,OK,OK,'400111062103002382600597,MMO-26052028-001-P005";

/// What reading a file holding `contents` from `offset` gives.
fn read_from(contents: &[u8], offset: u64) -> Vec<(String, u64)> {
    let start = resume_offset(contents.len() as u64, offset);
    split_new_lines(&contents[start as usize..], start)
}

#[test]
fn reads_all_lines_from_zero_offset() {
    let file = format!("{LINE_1}\n{LINE_2}\n");
    let lines = read_from(file.as_bytes(), 0);
    assert_eq!(lines.len(), 2);
    assert_eq!(lines[0].0, LINE_1);
    assert_eq!(lines[1].0, LINE_2);
}

#[test]
fn resumes_from_offset_without_reprocessing_old_lines() {
    let mut file = format!("{LINE_1}\n");
    let first = read_from(file.as_bytes(), 0);
    assert_eq!(first.len(), 1);
    let committed_offset = first[0].1;

    let second = read_from(file.as_bytes(), committed_offset);
    assert_eq!(second.len(), 0);

    file.push_str(&format!("{LINE_2}\n"));
    let third = read_from(file.as_bytes(), committed_offset);
    assert_eq!(third.len(), 1);
    assert_eq!(third[0].0, LINE_2);
}

#[test]
fn keeps_incomplete_trailing_line_for_next_poll() {
    let mut file = LINE_1.to_string();
    let first = read_from(file.as_bytes(), 0);
    assert_eq!(first.len(), 0, "an unfinished line must not be returned");
    file.push('\n');
    let second = read_from(file.as_bytes(), 0);
    assert_eq!(second.len(), 1);
}

#[test]
fn per_line_offset_allows_partial_commit() {
    let file = format!("{LINE_1}\n{LINE_2}\n");
    let lines = read_from(file.as_bytes(), 0);
    let after_line_1 = lines[0].1;
    let retry = read_from(file.as_bytes(), after_line_1);
    assert_eq!(retry.len(), 1);
    assert_eq!(retry[0].0, LINE_2);
}

#[test]
fn truncated_file_shorter_than_offset_is_read_from_start_again() {
    let file = format!("{LINE_1}\n{LINE_2}\n");
    let lines = read_from(file.as_bytes(), 0);
    let stale_offset = lines[1].1;
    let rotated = "short\n";
    let after_rotate = read_from(rotated.as_bytes(), stale_offset);
    assert_eq!(after_rotate.len(), 1);
    assert_eq!(after_rotate[0].0, "short");
}

#[test]
fn has_new_content_false_when_size_matches_offset() {
    let size = LINE_1.len() as u64;
    assert!(!content_changed(Some(size), size), "offset == size -> nothing new");
}

#[test]
fn has_new_content_true_when_file_grew() {
    let old_size = LINE_1.len() as u64;
    let new_size = format!("{LINE_1}{LINE_2}\n").len() as u64;
    assert!(content_changed(Some(new_size), old_size), "a longer file has new lines");
}

#[test]
fn has_new_content_true_when_file_shrunk_truncated() {
    let old_size = format!("{LINE_1}\n{LINE_2}\n").len() as u64;
    let new_size = "short\n".len() as u64;
    assert!(content_changed(Some(new_size), old_size));
}

#[test]
fn has_new_content_true_when_file_missing() {
    assert!(content_changed(None, 0));
}

#[test]
fn offsets_are_file_positions_after_each_line() {
    let lines = split_new_lines(b"ab\r\n\ncd\nrest", 100);
    assert_eq!(
        lines,
        vec![
            ("ab".to_string(), 104),
            (String::new(), 105),
            ("cd".to_string(), 108)
        ]
    );
}

#[test]
fn invalid_utf8_is_replaced_not_dropped() {
    let lines = split_new_lines(&[b'a', 0xff, b'b', b'\n'], 0);
    assert_eq!(lines, vec![("a\u{fffd}b".to_string(), 4)]);
}

#[test]
fn resume_offset_cases() {
    assert_eq!(resume_offset(10, 4), 4);
    assert_eq!(resume_offset(10, 10), 10);
    assert_eq!(resume_offset(3, 10), 0);
}

#[test]
fn appended_bytes_keep_earlier_lines() {
    let before = split_new_lines(b"a\nb", 0);
    let after = split_new_lines(b"a\nb\nc\n", 0);
    assert_eq!(before, vec![("a".to_string(), 2)]);
    assert_eq!(&after[..before.len()], &before[..]);
    assert_eq!(after.len(), 3);
}
