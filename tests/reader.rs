use http_lib::http::reader::{RequestReader, RequestReaderError};
use http_lib::http::text::{chars_eq, chars_of, find_in_chunk, split_chars};

#[test]
fn read_until_returns_correct_output() {
    let data = "ABCDEF012345\r\nXX".as_bytes();
    let mut req_reader = RequestReader::from_reader(data);
    let out = req_reader
        .read_until_with_chunk_size::<16>("\r\n".as_bytes())
        .expect("error reading until");

    assert_eq!(out, "ABCDEF012345\r\n".as_bytes());

    // The whole 16-byte chunk was read; the 2 bytes after the delimiter stay buffered.
    assert_eq!(*req_reader.buffered(), "XX".as_bytes())
}

#[test]
fn read_until_errors_when_pattern_not_found() {
    let data = "ABCD".as_bytes();
    let mut req_reader = RequestReader::from_reader(data);
    let e = req_reader
        .read_until_with_chunk_size::<16>("badpattern".as_bytes())
        .expect_err("expected error when reading until non-existent pattern");

    assert!(matches!(e, RequestReaderError::EndOfStream));
}

#[test]
fn read_until_spans_several_chunks() {
    let data = "0123456789abcdefghij\r\nrest".as_bytes();
    let mut reader = RequestReader::from_reader(data);
    let out = reader.read_until_with_chunk_size::<8>(b"\r\n").expect("found");
    assert_eq!(out, "0123456789abcdefghij\r\n".as_bytes());
    // The source handed over everything at once; the chunk's tail "re" goes back in front
    // of the still-pending "st".
    assert_eq!(*reader.buffered(), "rest".as_bytes());
    let next = reader.read_until_with_chunk_size::<8>(b"st").expect("found");
    assert_eq!(next, "rest".as_bytes());
    assert!(reader.buffered().is_empty());
}

#[test]
fn read_until_misses_a_delimiter_split_across_chunks() {
    let data = "ABCDEFGHIJKLMNO\r\nZ".as_bytes();
    let mut reader = RequestReader::from_reader(data);
    let e = reader.read_until_with_chunk_size::<16>(b"\r\n").expect_err("split delimiter");
    assert!(matches!(e, RequestReaderError::EndOfStream));
}

#[test]
fn read_start_line_and_headers() {
    let data = "GET / HTTP/1.1\r\nA: 1\r\nB: 2\r\n\r\nbody".as_bytes();
    let mut reader = RequestReader::from_reader(data);
    assert_eq!(reader.read_start_line().expect("line"), "GET / HTTP/1.1");
    assert_eq!(reader.read_headers().expect("headers"), vec!["A: 1".to_string(), "B: 2".to_string()]);
    assert_eq!(*reader.buffered(), "body".as_bytes());
}

#[test]
fn read_start_line_rejects_invalid_utf8() {
    let data: &[u8] = b"\xc3\x28 / HTTP/1\r\n";
    let mut reader = RequestReader::from_reader(data);
    assert!(matches!(reader.read_start_line(), Err(RequestReaderError::Encoding)));
}

#[test]
fn find_first_occurrence() {
    assert_eq!(find_in_chunk(b"ab\r\ncd\r\n", b"\r\n"), Some(2));
    assert_eq!(find_in_chunk(b"abcd", b"x"), None);
    assert_eq!(find_in_chunk(b"ab", b"abc"), None);
    assert_eq!(find_in_chunk(b"aaab", b"ab"), Some(2));
    assert_eq!(find_in_chunk(b"", b"a"), None);
}

#[test]
fn split_on_separator() {
    let s: Vec<char> = "a  b".chars().collect();
    let parts = split_chars(&s, &[' ']);
    assert_eq!(parts, vec![vec!['a'], vec![], vec!['b']]);
    let s: Vec<char> = "x\r\n\r\ny".chars().collect();
    let parts = split_chars(&s, &['\r', '\n']);
    assert_eq!(parts, vec![vec!['x'], vec![], vec!['y']]);
    let parts = split_chars(&[], &[' ']);
    assert_eq!(parts, vec![Vec::<char>::new()]);
    let s: Vec<char> = "\r\r\n".chars().collect();
    assert_eq!(split_chars(&s, &['\r', '\n']), vec![vec!['\r'], vec![]]);
}

#[test]
fn compare_chars() {
    assert!(chars_eq(&['a', 'b'], &['a', 'b']));
    assert!(!chars_eq(&['a', 'b'], &['a', 'c']));
    assert!(!chars_eq(&['a'], &['a', 'b']));
}

#[test]
fn characters_of_text() {
    assert_eq!(chars_of("aé b"), vec!['a', 'é', ' ', 'b']);
    assert_eq!(chars_of(""), Vec::<char>::new());
}

#[test]
fn internal_read_drains_pending_bytes_first() {
    let data = "GET / HTTP/1\r\nHost: x\r\n\r\n".as_bytes();
    let mut reader = RequestReader::from_reader(data);
    let first = reader.internal_read(4).expect("read");
    assert_eq!(first, "GET ".as_bytes());
    assert_eq!(reader.buffered().len(), data.len() - 4);
    let second = reader.internal_read(100).expect("read");
    assert_eq!(second, "/ HTTP/1\r\nHost: x\r\n\r\n".as_bytes());
    assert!(reader.buffered().is_empty());
    assert!(reader.internal_read(5).expect("read").is_empty());
}

struct PiecewiseSource {
    pieces: Vec<Vec<u8>>,
}

impl http_lib::http::reader::ByteSource for PiecewiseSource {
    fn pull(&mut self, max: usize) -> Result<Vec<u8>, std::io::Error> {
        if self.pieces.is_empty() {
            return Ok(Vec::new());
        }
        let mut piece = self.pieces.remove(0);
        if piece.len() > max {
            let rest = piece.split_off(max);
            self.pieces.insert(0, rest);
        }
        Ok(piece)
    }
}

#[test]
fn read_until_accumulates_only_bytes_read() {
    let source = PiecewiseSource { pieces: vec![b"AB".to_vec(), b"\r\n".to_vec()] };
    let mut reader = RequestReader::from_reader(source);
    let out = reader.read_until_with_chunk_size::<16>(b"\r\n").expect("found");
    assert_eq!(out, b"AB\r\n".to_vec());
}

#[test]
fn read_until_resumes_right_after_the_delimiter() {
    let data = "A\r\nBCDEFGHIJKLMNOPQRSTUVWXYZ".as_bytes();
    let mut reader = RequestReader::from_reader(data);
    let out = reader.read_until_with_chunk_size::<16>(b"\r\n").expect("found");
    assert_eq!(out, b"A\r\n".to_vec());
    assert_eq!(*reader.buffered(), "BCDEFGHIJKLMNOPQRSTUVWXYZ".as_bytes());
}
