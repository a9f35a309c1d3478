use bfc::ByteStream;

#[test]
fn stream_tracks_lines_and_columns() {
    let mut bs = ByteStream::from_str(String::from("in.b"), "ab\ncd");
    assert!(bs.is_start());
    assert_eq!(bs.current(), Some(b'a'));
    let l = bs.loc();
    assert_eq!((l.file.as_str(), l.line, l.column), ("in.b", 1, 1));
    assert!(bs.next());
    assert!(bs.next());
    assert_eq!(bs.current(), Some(b'\n'));
    assert_eq!((bs.loc().line, bs.loc().column), (1, 3));
    assert!(bs.next());
    assert_eq!((bs.loc().line, bs.loc().column), (2, 1));
    assert!(bs.next());
    assert!(bs.next());
    assert!(bs.is_eof());
    assert_eq!(bs.current(), None);
    assert_eq!((bs.loc().line, bs.loc().column), (2, 3));
    assert!(!bs.next());
    assert_eq!((bs.loc().line, bs.loc().column), (2, 3));
}

#[test]
fn stream_retreats_over_a_newline() {
    let mut bs = ByteStream::from_bstr(String::from("in.b"), b"xyz\nq".to_vec());
    while bs.next() {}
    assert!(bs.is_eof());
    assert!(bs.previous());
    assert_eq!(bs.current(), Some(b'q'));
    assert_eq!((bs.loc().line, bs.loc().column), (2, 1));
    assert!(bs.previous());
    assert_eq!(bs.current(), Some(b'\n'));
    assert_eq!((bs.loc().line, bs.loc().column), (1, 4));
    assert!(bs.previous());
    assert!(bs.previous());
    assert!(bs.previous());
    assert!(bs.is_start());
    assert_eq!((bs.loc().line, bs.loc().column), (1, 1));
    assert!(!bs.previous());
    assert_eq!(bs.current(), Some(b'x'));
}

#[test]
fn empty_stream_is_at_start_and_end() {
    let mut bs = ByteStream::from_str(String::from("e"), "");
    assert!(bs.is_start());
    assert!(bs.is_eof());
    assert_eq!(bs.current(), None);
    assert!(!bs.next());
    assert!(!bs.previous());
}
