use chat_trigger::tailer::{log_name_pattern, newest, whole_lines, Tail};

#[test]
fn start_reads_from_end_of_existing_file() {
    let tail = Tail::start(Some("Log/chat_000002.txt".to_owned()), 1234);
    assert_eq!(tail.offset, 1234);
    assert_eq!(tail.file.as_deref(), Some("Log/chat_000002.txt"));
    let tail = Tail::start(None, 1234);
    assert_eq!(tail.offset, 0);
    assert!(tail.file.is_none());
}

#[test]
fn take_returns_only_appended_whole_lines() {
    let mut tail = Tail::start(Some("a".to_owned()), 10);
    let lines = tail.take(&b"one\r\ntwo\nthr".to_vec());
    assert_eq!(lines, vec!["one".to_owned(), "two".to_owned()]);
    assert_eq!(tail.offset, 19);
    let lines = tail.take(&b"three\n".to_vec());
    assert_eq!(lines, vec!["three".to_owned()]);
    assert_eq!(tail.offset, 25);
    let lines = tail.take(&Vec::new());
    assert!(lines.is_empty());
    assert_eq!(tail.offset, 25);
}

#[test]
fn take_decodes_gb18030() {
    let mut tail = Tail::new();
    let bytes = vec![0xC4, 0xE3, 0xBA, 0xC3, b'\n'];
    assert_eq!(tail.take(&bytes), vec!["你好".to_owned()]);
    assert_eq!(tail.offset, 5);
}

#[test]
fn rotation_restarts_at_zero() {
    let mut tail = Tail::start(Some("chat_000001.txt".to_owned()), 500);
    assert!(!tail.needs_rescan("chat_000001.txt"));
    assert!(tail.needs_rescan("chat_000002.txt"));
    tail.follow(Some("chat_000001.txt".to_owned()));
    assert_eq!(tail.offset, 500);
    tail.follow(Some("chat_000002.txt".to_owned()));
    assert_eq!(tail.offset, 0);
    assert_eq!(tail.file.as_deref(), Some("chat_000002.txt"));
    let lines = tail.take(&b"new\n".to_vec());
    assert_eq!(lines, vec!["new".to_owned()]);
    assert_eq!(tail.offset, 4);
}

#[test]
fn no_file_needs_rescan() {
    let tail = Tail::new();
    assert!(tail.needs_rescan("anything"));
}

#[test]
fn whole_lines_leaves_partial_line() {
    let (lines, used) = whole_lines(b"abc");
    assert!(lines.is_empty());
    assert_eq!(used, 0);
    let (lines, used) = whole_lines(b"\n\nx");
    assert_eq!(lines, vec!["".to_owned(), "".to_owned()]);
    assert_eq!(used, 2);
}

#[test]
fn newest_picks_greatest_log_name() {
    let pattern = log_name_pattern().unwrap();
    let names = vec![
        "chat_000002.txt".to_owned(),
        "chat_000010.txt".to_owned(),
        "other.txt".to_owned(),
        "chat_000009.txt".to_owned(),
        "chat_99.txt".to_owned(),
        "chat_000011.txt.bak".to_owned(),
    ];
    assert_eq!(newest(&names, &pattern), Some(1));
    assert_eq!(newest(&vec!["x.txt".to_owned()], &pattern), None);
    assert_eq!(newest(&Vec::new(), &pattern), None);
}
