use http_lib::http::reader::{ByteSource, RequestReader, RequestReaderError};
use http_lib::http::{parse_start_line, Method, Request, RequestParsingError, Version};

fn parse(message: &[u8]) -> Result<Request, RequestParsingError> {
    let mut reader = RequestReader::from_reader(message);
    Request::try_from_reader(&mut reader)
}

struct FailingSource;

impl ByteSource for FailingSource {
    fn pull(&mut self, _max: usize) -> Result<Vec<u8>, std::io::Error> {
        Err(std::io::Error::new(std::io::ErrorKind::Other, "connection reset"))
    }
}

#[test]
fn request_parses_correctly() {
    let message = "GET / HTTP/1.1\r
Host: 127.0.0.1:8080\r
User-Agent: curl/8.9.1\r
Accept: */*\r
\r
";
    let mut reader = RequestReader::from_reader(message.as_bytes());
    let request = Request::try_from_reader(&mut reader).expect("error parsing request");

    assert_eq!(request.method(), Method::Get);
    assert_eq!(request.target(), "/");
    assert_eq!(request.version(), Version::V1_1);
    assert_eq!(request.headers().len(), 3);
}

#[test]
fn request_errors_when_invalid_method() {
    let message = "GeT / HTTP/1.1\r
Host: 127.0.0.1:8080\r
User-Agent: curl/8.9.1\r
Accept: */*\r
\r
";
    let mut reader = RequestReader::from_reader(message.as_bytes());
    let request_err =
        Request::try_from_reader(&mut reader).expect_err("expected error while parsing request");

    assert!(matches!(request_err, RequestParsingError::Format));
}

#[test]
fn request_errors_when_invalid_version() {
    let message = "GET / HTTp/1.1\r
Host: 127.0.0.1:8080\r
User-Agent: curl/8.9.1\r
Accept: */*\r
\r
";
    let mut reader = RequestReader::from_reader(message.as_bytes());
    let request_err =
        Request::try_from_reader(&mut reader).expect_err("expected error while parsing request");

    assert!(matches!(request_err, RequestParsingError::Format));
}

#[test]
fn request_errors_when_invalid_start_line() {
    let message = "GET / HTTP/1.1 extradata\r
Host: 127.0.0.1:8080\r
User-Agent: curl/8.9.1\r
Accept: */*\r
\r
";
    let mut reader = RequestReader::from_reader(message.as_bytes());
    let request_err =
        Request::try_from_reader(&mut reader).expect_err("expected error while parsing request");

    assert!(matches!(request_err, RequestParsingError::Format));
}

#[test]
fn request_errors_when_invalid_start_line_2() {
    let message = "GET /\r
Host: 127.0.0.1:8080\r
User-Agent: curl/8.9.1\r
Accept: */*\r
\r
";
    let mut reader = RequestReader::from_reader(message.as_bytes());
    let request_err =
        Request::try_from_reader(&mut reader).expect_err("expected error while parsing request");

    assert!(matches!(request_err, RequestParsingError::Format));
}

#[test]
fn request_has_exact_fields_and_header_lines() {
    let request = parse(b"GET / HTTP/1.1\r\nHost: x\r\nUser-Agent: y\r\n\r\n").expect("parses");
    assert_eq!(request.method(), Method::Get);
    assert_eq!(request.target(), "/");
    assert_eq!(request.version(), Version::V1_1);
    assert_eq!(request.headers(), &vec!["Host: x".to_string(), "User-Agent: y".to_string()]);
    assert!(request.body().is_none());
}

#[test]
fn request_keeps_header_order_and_duplicates() {
    let request = parse(b"POST /a HTTP/1\r\nB: 2\r\nA: 1\r\nB: 2\r\n\r\n").expect("parses");
    assert_eq!(request.method(), Method::Post);
    assert_eq!(request.target(), "/a");
    assert_eq!(request.version(), Version::V1);
    assert_eq!(
        request.headers(),
        &vec!["B: 2".to_string(), "A: 1".to_string(), "B: 2".to_string()]
    );
}

#[test]
fn request_after_short_start_line_keeps_byte_order() {
    // The start line is 14 bytes, so the first 16-byte chunk already holds "Ho" of the
    // header block; those bytes must come first in the next read.
    let request = parse(b"GET / HTTP/1\r\nHost: x\r\n\r\n").expect("parses");
    assert_eq!(request.version(), Version::V1);
    assert_eq!(request.headers(), &vec!["Host: x".to_string()]);
}

#[test]
fn request_with_unicode_target() {
    let request = parse("PUT /é HTTP/1.1\r\nA: ü\r\n\r\n".as_bytes()).expect("parses");
    assert_eq!(request.method(), Method::Put);
    assert_eq!(request.target(), "/é");
    assert_eq!(request.headers(), &vec!["A: ü".to_string()]);
}

#[test]
fn request_errors_when_unsupported_version() {
    let err = parse(b"GET / HTTP/2\r\nHost: x\r\n\r\n").expect_err("unsupported");
    assert!(matches!(err, RequestParsingError::UnsupportedVersion(Version::V2)));
    let err = parse(b"GET / HTTP/0.9\r\n\r\n").expect_err("unsupported");
    assert!(matches!(err, RequestParsingError::UnsupportedVersion(Version::V0_9)));
    let err = parse(b"GET / HTTP/3\r\n\r\n").expect_err("unsupported");
    assert!(matches!(err, RequestParsingError::UnsupportedVersion(Version::V3)));
}

#[test]
fn request_errors_when_start_line_is_not_utf8() {
    let err = parse(b"GET \xff HTTP/1\r\n\r\n").expect_err("bad text");
    assert!(matches!(err, RequestParsingError::Format));
}

#[test]
fn request_errors_when_headers_are_not_utf8() {
    let err = parse(b"GET / HTTP/1.1\r\nA: \xff\r\n\r\n").expect_err("bad text");
    assert!(matches!(err, RequestParsingError::Format));
}

#[test]
fn request_errors_at_end_of_stream() {
    let err = parse(b"").expect_err("empty source");
    assert!(matches!(err, RequestParsingError::EndOfStream));
    let err = parse(b"GET / HTTP/1.1\r\nHost: x\r\n").expect_err("no blank line");
    assert!(matches!(err, RequestParsingError::EndOfStream));
}

#[test]
fn request_errors_when_source_fails() {
    let mut reader = RequestReader::from_reader(FailingSource);
    let err = Request::try_from_reader(&mut reader).expect_err("source fails");
    assert!(matches!(err, RequestParsingError::Io(_)));
}

#[test]
fn start_line_parts() {
    let (m, t, v) = parse_start_line("DELETE /x?y=1 HTTP/1").expect("parses");
    assert_eq!(m, Method::Delete);
    assert_eq!(t, "/x?y=1");
    assert_eq!(v, Version::V1);
}

#[test]
fn start_line_extra_tokens_come_before_unsupported_version() {
    let err = parse_start_line("GET / HTTP/2 extra").expect_err("malformed");
    assert!(matches!(err, RequestParsingError::Format));
    let err = parse_start_line("GET / HTTP/2").expect_err("unsupported");
    assert!(matches!(err, RequestParsingError::UnsupportedVersion(Version::V2)));
}

#[test]
fn start_line_format_errors() {
    for line in ["", "GET", "GET /", "GET  / HTTP/1.1", "get / HTTP/1.1", "GET / HTTP/1.1 ", "GET / http/1.1"] {
        let err = parse_start_line(line).expect_err("malformed");
        assert!(matches!(err, RequestParsingError::Format), "{:?}", line);
    }
}

#[test]
fn method_tokens_round_trip() {
    let all = [
        (Method::Get, "GET"),
        (Method::Head, "HEAD"),
        (Method::Post, "POST"),
        (Method::Put, "PUT"),
        (Method::Delete, "DELETE"),
        (Method::Connect, "CONNECT"),
        (Method::Options, "OPTIONS"),
        (Method::Trace, "TRACE"),
    ];
    for (m, s) in all {
        let text: String = m.text().into_iter().collect();
        assert_eq!(text, s);
        assert_eq!(Method::try_from(s).expect("known"), m);
        assert_eq!(Method::from_chars(&m.text()), Some(m));
    }
    assert!(matches!(Method::try_from("GeT"), Err(RequestParsingError::Format)));
    assert!(matches!(Method::try_from("PATCH"), Err(RequestParsingError::Format)));
    assert_eq!(Method::from_chars(&['g', 'e', 't']), None);
}

#[test]
fn version_texts_round_trip() {
    let all = [
        (Version::V0_9, "HTTP/0.9"),
        (Version::V1, "HTTP/1"),
        (Version::V1_1, "HTTP/1.1"),
        (Version::V2, "HTTP/2"),
        (Version::V3, "HTTP/3"),
    ];
    for (v, s) in all {
        assert_eq!(v.to_string(), s);
        assert_eq!(Version::try_from(s).expect("known"), v);
        assert_eq!(Version::from_chars(&v.text()), Some(v));
    }
    assert!(matches!(Version::try_from("HTTp/1.1"), Err(RequestParsingError::Format)));
    assert!(matches!(Version::try_from("HTTP/1.0"), Err(RequestParsingError::Format)));
}

#[test]
fn version_support() {
    assert!(!Version::V0_9.is_supported());
    assert!(Version::V1.is_supported());
    assert!(Version::V1_1.is_supported());
    assert!(!Version::V2.is_supported());
    assert!(!Version::V3.is_supported());
}

#[test]
fn versions_are_ordered_by_generation() {
    assert!(Version::V0_9 < Version::V1);
    assert!(Version::V1 < Version::V1_1);
    assert!(Version::V1_1 < Version::V2);
    assert!(Version::V2 < Version::V3);
    assert!(Version::V3 > Version::V0_9);
    assert_eq!(Version::V1.partial_cmp(&Version::V1), Some(std::cmp::Ordering::Equal));
    let mut all = vec![Version::V3, Version::V1, Version::V0_9, Version::V2, Version::V1_1];
    all.sort();
    assert_eq!(all, vec![Version::V0_9, Version::V1, Version::V1_1, Version::V2, Version::V3]);
    assert_eq!(Version::V1_1.generation(), 2);
}

#[test]
fn reader_errors_become_parsing_errors() {
    assert!(matches!(
        RequestParsingError::from(RequestReaderError::Encoding),
        RequestParsingError::Format
    ));
    assert!(matches!(
        RequestParsingError::from(RequestReaderError::EndOfStream),
        RequestParsingError::EndOfStream
    ));
}
