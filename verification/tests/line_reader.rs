use pdfmeta::utils::read_previous_line;

#[test]
fn test_read_previous_line() {
    let bytes = b"fuga\r\nfoo\nhoge";
    let (line, pos) = read_previous_line(bytes, bytes.len() - 1);
    assert_eq!(line, "hoge".to_string());
    let (line, pos) = read_previous_line(bytes, pos);
    assert_eq!(line, "foo".to_string());
    let (line, _pos) = read_previous_line(bytes, pos);
    assert_eq!(line, "fuga".to_string());
}

#[test]
fn test_read_previous_line_with_empty() {
    let (line, pos) = read_previous_line(b"", 0);
    assert_eq!(line, "".to_string());
    assert_eq!(pos, 0);
}

#[test]
fn backward_reads_yield_lines_in_reverse() {
    // A stream that ends in terminated lines: the first backward call eats
    // the final terminator, the next ones replay the lines in reverse.
    let bytes = b"alpha\nbeta\r\ngamma\n";
    let (line, pos) = read_previous_line(bytes, bytes.len() - 1);
    assert_eq!(line, "".to_string());
    let (line, pos) = read_previous_line(bytes, pos);
    assert_eq!(line, "gamma".to_string());
    let (line, pos) = read_previous_line(bytes, pos);
    assert_eq!(line, "beta".to_string());
    let (line, _pos) = read_previous_line(bytes, pos);
    assert_eq!(line, "alpha".to_string());
}

#[test]
fn trailing_whitespace_is_trimmed() {
    let bytes = b"first\nsecond  \t ";
    let (line, _pos) = read_previous_line(bytes, bytes.len() - 1);
    assert_eq!(line, "second".to_string());
}

#[test]
fn invalid_utf8_is_replaced() {
    let bytes: Vec<u8> = vec![0xFF, b'a', b'b', b'c'];
    let (line, _pos) = read_previous_line(&bytes, bytes.len() - 1);
    assert_eq!(line, "\u{FFFD}abc".to_string());
}

#[test]
fn read_previous_line_is_restartable() {
    let bytes = b"one\ntwo\nthree";
    let p = bytes.len() - 1;
    let first = read_previous_line(bytes, p);
    let again = read_previous_line(bytes, p);
    assert_eq!(first, again);
}
