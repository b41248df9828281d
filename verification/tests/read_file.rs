use flate2::write::GzEncoder;
use flate2::Compression;
use nginx_logs::read_file::{get_file_reader, get_lines_in_file, read_lines, ReadError};
use std::io::Write;

fn gz(data: &[u8]) -> Vec<u8> {
    let mut encoder = GzEncoder::new(Vec::new(), Compression::default());
    encoder.write_all(data).unwrap();
    encoder.finish().unwrap()
}

#[test]
fn lines_end_at_line_feeds() {
    assert_eq!(Ok(vec!["a".to_string(), "b".to_string(), "c".to_string()]), read_lines(b"a\nb\nc\n"));
    assert_eq!(Ok(vec!["a".to_string(), "b".to_string(), "c".to_string()]), read_lines(b"a\nb\nc"));
    assert_eq!(Ok(vec!["a".to_string()]), read_lines(b"a"));
    assert_eq!(Ok(vec![]), read_lines(b""));
}

#[test]
fn empty_lines_are_lines() {
    assert_eq!(Ok(vec!["".to_string()]), read_lines(b"\n"));
    assert_eq!(Ok(vec!["".to_string(), "".to_string(), "x".to_string()]), read_lines(b"\n\nx"));
    assert_eq!(Ok(vec!["x".to_string(), "".to_string()]), read_lines(b"x\n\n"));
}

#[test]
fn a_carriage_return_before_the_line_feed_is_no_part_of_the_line() {
    assert_eq!(
        Ok(vec!["a".to_string(), "b\r".to_string(), "".to_string(), "c\r".to_string()]),
        read_lines(b"a\r\nb\r\r\n\r\nc\r")
    );
    assert_eq!(Ok(vec!["a\rb".to_string()]), read_lines(b"a\rb\n"));
}

#[test]
fn lines_agree_with_the_standard_library() {
    for data in ["", "\n", "a", "a\n", "a\r\n", "\r", "\r\n\r\n", "a\nb", "a\n\nb\r", "\u{e9}\n\u{1f600}\r\n"] {
        let expected: Vec<String> =
            std::io::BufRead::lines(data.as_bytes()).map(|line| line.unwrap()).collect();
        assert_eq!(Ok(expected), read_lines(data.as_bytes()), "{:?}", data);
    }
}

#[test]
fn a_line_that_is_not_utf8_stops_the_reading() {
    assert_eq!(Err(ReadError::InvalidText { line: 0 }), read_lines(b"\xff"));
    assert_eq!(Err(ReadError::InvalidText { line: 2 }), read_lines(b"a\nb\n\xc3\nd\n\xff\n"));
    assert_eq!(Err(ReadError::InvalidText { line: 1 }), read_lines(b"ok\n\xed\xa0\x80"));
    assert_eq!(Err(ReadError::InvalidText { line: 0 }), read_lines(b"\xc3\n\xa9"));
}

#[test]
fn a_plain_file_is_read_as_it_is() {
    let content = b"one\ntwo\n";
    assert_eq!(
        Ok(vec!["one".to_string(), "two".to_string()]),
        get_lines_in_file("/var/log/access.log", content)
    );
    assert_eq!(
        Ok(vec!["one".to_string(), "two".to_string()]),
        get_lines_in_file("access.log.gzip", content)
    );
    let reader = get_file_reader("access.log.1", content).ok().unwrap();
    assert_eq!(&content[..], reader.bytes());
}

#[test]
fn a_compressed_file_is_decompressed() {
    let content = gz(b"one\ntwo\r\nthree");
    assert_ne!(&content[..], b"one\ntwo\r\nthree");
    assert_eq!(
        Ok(vec!["one".to_string(), "two".to_string(), "three".to_string()]),
        get_lines_in_file("access.log.1.gz", &content)
    );
    let reader = get_file_reader("x.gz", &content).ok().unwrap();
    assert_eq!(b"one\ntwo\r\nthree", reader.bytes());
    assert_eq!(Ok(vec![]), get_lines_in_file(".gz", &gz(b"")));
}

#[test]
fn a_large_compressed_file_is_read_whole() {
    let mut text = Vec::new();
    let mut expected = Vec::new();
    for i in 0..20_000 {
        let line = format!("line number {}", i);
        text.extend_from_slice(line.as_bytes());
        text.push(b'\n');
        expected.push(line);
    }
    assert_eq!(Ok(expected), get_lines_in_file("access.log.9.gz", &gz(&text)));
}

#[test]
fn a_corrupt_stream_is_an_error() {
    assert_eq!(Err(ReadError::CorruptStream), get_lines_in_file("access.log.1.gz", b"one\ntwo\n"));
    assert_eq!(Err(ReadError::CorruptStream), get_lines_in_file("access.log.1.gz", b""));
    let mut content = gz(b"some text that is long enough to be cut in the middle");
    content.truncate(content.len() - 5);
    assert_eq!(Err(ReadError::CorruptStream), get_lines_in_file("a.gz", &content));
    let mut content = gz(b"some text");
    let last = content.len() - 1;
    content[last] ^= 0xff;
    assert!(get_file_reader("a.gz", &content).is_err());
}

#[test]
fn compressed_text_that_is_not_utf8_is_an_error() {
    assert_eq!(
        Err(ReadError::InvalidText { line: 1 }),
        get_lines_in_file("access.log.2.gz", &gz(b"fine\n\xfe\n"))
    );
}
