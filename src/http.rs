use vstd::prelude::*;
use vstd::utf8::{decode_utf8, valid_utf8};

pub mod reader;
pub mod text;

use reader::{
    crlf, crlf_crlf, header_lines, lemma_scan_bounds, scan_from, strings_of, ByteSource,
    RequestReader, RequestReaderError,
};
use text::{chars_eq, chars_of, split_chars, split_seq, string_of, views_of};

verus! {

/// Why a request could not be parsed.
#[derive(Debug)]
pub enum RequestParsingError {
    /// The underlying source failed.
    Io(std::io::Error),
    /// The source was exhausted before the request was complete.
    EndOfStream,
    /// The request is malformed: a wrong number of start-line tokens, an unknown method or
    /// version, or text that is not valid UTF-8.
    Format,
    /// The version is a known one that is not supported for processing.
    UnsupportedVersion(Version),
}

/// An HTTP request method.
#[derive(Debug, Clone, Copy, PartialEq, Eq, Structural)]
pub enum Method {
    Get,
    Head,
    Post,
    Put,
    Delete,
    Connect,
    Options,
    Trace,
}

/// The canonical token of a method.
pub open spec fn method_text(m: Method) -> Seq<char> {
    match m {
        Method::Get => seq!['G', 'E', 'T'],
        Method::Head => seq!['H', 'E', 'A', 'D'],
        Method::Post => seq!['P', 'O', 'S', 'T'],
        Method::Put => seq!['P', 'U', 'T'],
        Method::Delete => seq!['D', 'E', 'L', 'E', 'T', 'E'],
        Method::Connect => seq!['C', 'O', 'N', 'N', 'E', 'C', 'T'],
        Method::Options => seq!['O', 'P', 'T', 'I', 'O', 'N', 'S'],
        Method::Trace => seq!['T', 'R', 'A', 'C', 'E'],
    }
}

/// The method whose canonical token is exactly `t` (case-sensitive), if any.
pub open spec fn method_of(t: Seq<char>) -> Option<Method> {
    if t == method_text(Method::Get) {
        Some(Method::Get)
    } else if t == method_text(Method::Head) {
        Some(Method::Head)
    } else if t == method_text(Method::Post) {
        Some(Method::Post)
    } else if t == method_text(Method::Put) {
        Some(Method::Put)
    } else if t == method_text(Method::Delete) {
        Some(Method::Delete)
    } else if t == method_text(Method::Connect) {
        Some(Method::Connect)
    } else if t == method_text(Method::Options) {
        Some(Method::Options)
    } else if t == method_text(Method::Trace) {
        Some(Method::Trace)
    } else {
        None
    }
}

impl Method {
    /// The canonical token of this method.
    pub fn text(&self) -> (r: Vec<char>)
        ensures
            r@ == method_text(*self),
    {
        match self {
            Method::Get => vec!['G', 'E', 'T'],
            Method::Head => vec!['H', 'E', 'A', 'D'],
            Method::Post => vec!['P', 'O', 'S', 'T'],
            Method::Put => vec!['P', 'U', 'T'],
            Method::Delete => vec!['D', 'E', 'L', 'E', 'T', 'E'],
            Method::Connect => vec!['C', 'O', 'N', 'N', 'E', 'C', 'T'],
            Method::Options => vec!['O', 'P', 'T', 'I', 'O', 'N', 'S'],
            Method::Trace => vec!['T', 'R', 'A', 'C', 'E'],
        }
    }

    /// The method whose canonical token is exactly `t`; `None` for anything else.
    pub fn from_chars(t: &[char]) -> (r: Option<Method>)
        ensures
            r == method_of(t@),
    {
        if chars_eq(t, Method::Get.text().as_slice()) {
            Some(Method::Get)
        } else if chars_eq(t, Method::Head.text().as_slice()) {
            Some(Method::Head)
        } else if chars_eq(t, Method::Post.text().as_slice()) {
            Some(Method::Post)
        } else if chars_eq(t, Method::Put.text().as_slice()) {
            Some(Method::Put)
        } else if chars_eq(t, Method::Delete.text().as_slice()) {
            Some(Method::Delete)
        } else if chars_eq(t, Method::Connect.text().as_slice()) {
            Some(Method::Connect)
        } else if chars_eq(t, Method::Options.text().as_slice()) {
            Some(Method::Options)
        } else if chars_eq(t, Method::Trace.text().as_slice()) {
            Some(Method::Trace)
        } else {
            None
        }
    }
}

/// What decoding the token `t` gives: the method it names, or a format error.
pub open spec fn method_result(t: Seq<char>) -> Result<Method, RequestParsingError> {
    match method_of(t) {
        Some(x) => Ok(x),
        None => Err(RequestParsingError::Format),
    }
}

impl<'a> TryFrom<&'a str> for Method {
    type Error = RequestParsingError;

    fn try_from(value: &'a str) -> (r: Result<Method, RequestParsingError>) {
        let chars = chars_of(value);
        match Method::from_chars(chars.as_slice()) {
            Some(x) => Ok(x),
            None => Err(RequestParsingError::Format),
        }
    }
}

impl<'a> vstd::std_specs::convert::TryFromSpecImpl<&'a str> for Method {
    open spec fn obeys_try_from_spec() -> bool {
        true
    }

    open spec fn try_from_spec(v: &'a str) -> Result<Method, RequestParsingError> {
        method_result(v@)
    }
}

/// An HTTP protocol version, ordered by generation.
#[derive(Debug, Clone, Copy, PartialEq, Eq, Structural, Ord)]
pub enum Version {
    V0_9,
    V1,
    V1_1,
    V2,
    V3,
}

/// The canonical text of a version.
pub open spec fn version_text(v: Version) -> Seq<char> {
    match v {
        Version::V0_9 => seq!['H', 'T', 'T', 'P', '/', '0', '.', '9'],
        Version::V1 => seq!['H', 'T', 'T', 'P', '/', '1'],
        Version::V1_1 => seq!['H', 'T', 'T', 'P', '/', '1', '.', '1'],
        Version::V2 => seq!['H', 'T', 'T', 'P', '/', '2'],
        Version::V3 => seq!['H', 'T', 'T', 'P', '/', '3'],
    }
}

/// The version whose canonical text is exactly `t` (case-sensitive), if any.
pub open spec fn version_of(t: Seq<char>) -> Option<Version> {
    if t == version_text(Version::V0_9) {
        Some(Version::V0_9)
    } else if t == version_text(Version::V1) {
        Some(Version::V1)
    } else if t == version_text(Version::V1_1) {
        Some(Version::V1_1)
    } else if t == version_text(Version::V2) {
        Some(Version::V2)
    } else if t == version_text(Version::V3) {
        Some(Version::V3)
    } else {
        None
    }
}

/// The versions that requests may use: 1 and 1.1.
pub open spec fn supported(v: Version) -> bool {
    v == Version::V1 || v == Version::V1_1
}

/// The rank of a version in the order of generations, oldest first.
pub open spec fn generation(v: Version) -> nat {
    match v {
        Version::V0_9 => 0,
        Version::V1 => 1,
        Version::V1_1 => 2,
        Version::V2 => 3,
        Version::V3 => 4,
    }
}

/// The order of two versions by generation.
pub open spec fn version_cmp(a: Version, b: Version) -> core::cmp::Ordering {
    if generation(a) < generation(b) {
        core::cmp::Ordering::Less
    } else if generation(a) == generation(b) {
        core::cmp::Ordering::Equal
    } else {
        core::cmp::Ordering::Greater
    }
}

impl PartialOrd for Version {
    fn partial_cmp(&self, other: &Version) -> (r: Option<core::cmp::Ordering>) {
        let a = self.generation();
        let b = other.generation();
        if a < b {
            Some(core::cmp::Ordering::Less)
        } else if a == b {
            Some(core::cmp::Ordering::Equal)
        } else {
            Some(core::cmp::Ordering::Greater)
        }
    }
}

impl vstd::std_specs::cmp::PartialOrdSpecImpl for Version {
    open spec fn obeys_partial_cmp_spec() -> bool {
        true
    }

    open spec fn partial_cmp_spec(&self, other: &Version) -> Option<core::cmp::Ordering> {
        Some(version_cmp(*self, *other))
    }
}

impl Version {
    /// The rank of this version in the order of generations, oldest first.
    pub fn generation(&self) -> (r: u8)
        ensures
            r as nat == generation(*self),
    {
        match self {
            Version::V0_9 => 0,
            Version::V1 => 1,
            Version::V1_1 => 2,
            Version::V2 => 3,
            Version::V3 => 4,
        }
    }

    /// Whether requests of this version are accepted for processing.
    pub fn is_supported(&self) -> (r: bool)
        ensures
            r == supported(*self),
    {
        matches!(self, Version::V1 | Version::V1_1)
    }

    /// The canonical text of this version.
    pub fn text(&self) -> (r: Vec<char>)
        ensures
            r@ == version_text(*self),
    {
        match self {
            Version::V0_9 => vec!['H', 'T', 'T', 'P', '/', '0', '.', '9'],
            Version::V1 => vec!['H', 'T', 'T', 'P', '/', '1'],
            Version::V1_1 => vec!['H', 'T', 'T', 'P', '/', '1', '.', '1'],
            Version::V2 => vec!['H', 'T', 'T', 'P', '/', '2'],
            Version::V3 => vec!['H', 'T', 'T', 'P', '/', '3'],
        }
    }

    /// The canonical text of this version, as a string.
    pub fn to_string(&self) -> (r: String)
        ensures
            r@ == version_text(*self),
    {
        string_of(self.text().as_slice())
    }

    /// The version whose canonical text is exactly `t`; `None` for anything else.
    pub fn from_chars(t: &[char]) -> (r: Option<Version>)
        ensures
            r == version_of(t@),
    {
        if chars_eq(t, Version::V0_9.text().as_slice()) {
            Some(Version::V0_9)
        } else if chars_eq(t, Version::V1.text().as_slice()) {
            Some(Version::V1)
        } else if chars_eq(t, Version::V1_1.text().as_slice()) {
            Some(Version::V1_1)
        } else if chars_eq(t, Version::V2.text().as_slice()) {
            Some(Version::V2)
        } else if chars_eq(t, Version::V3.text().as_slice()) {
            Some(Version::V3)
        } else {
            None
        }
    }
}

/// What decoding the token `t` gives: the version it names, or a format error.
pub open spec fn version_result(t: Seq<char>) -> Result<Version, RequestParsingError> {
    match version_of(t) {
        Some(x) => Ok(x),
        None => Err(RequestParsingError::Format),
    }
}

impl<'a> TryFrom<&'a str> for Version {
    type Error = RequestParsingError;

    fn try_from(value: &'a str) -> (r: Result<Version, RequestParsingError>) {
        let chars = chars_of(value);
        match Version::from_chars(chars.as_slice()) {
            Some(x) => Ok(x),
            None => Err(RequestParsingError::Format),
        }
    }
}

impl<'a> vstd::std_specs::convert::TryFromSpecImpl<&'a str> for Version {
    open spec fn obeys_try_from_spec() -> bool {
        true
    }

    open spec fn try_from_spec(v: &'a str) -> Result<Version, RequestParsingError> {
        version_result(v@)
    }
}

/// The single space that separates the tokens of a start line.
pub open spec fn space() -> Seq<char> {
    seq![' ']
}

/// What a start line (without its line break) parses to: exactly three space-separated
/// tokens, a known method, any target and a known, supported version. A known version that
/// is not supported is reported as such, once the line is otherwise well formed.
pub open spec fn start_line_outcome(line: Seq<char>) -> Result<
    (Method, Seq<char>, Version),
    RequestParsingError,
> {
    let t = split_seq(line, space());
    if t.len() != 3 || method_of(t[0]) is None || version_of(t[2]) is None {
        Err(RequestParsingError::Format)
    } else if !supported(version_of(t[2])->Some_0) {
        Err(RequestParsingError::UnsupportedVersion(version_of(t[2])->Some_0))
    } else {
        Ok((method_of(t[0])->Some_0, t[1], version_of(t[2])->Some_0))
    }
}

/// Splits a start line (without its line break) into its method, target and version.
pub fn parse_start_line(line: &str) -> (r: Result<(Method, String, Version), RequestParsingError>)
    ensures
        match start_line_outcome(line@) {
            Ok((m, t, v)) => r is Ok && r->Ok_0.0 == m && r->Ok_0.1@ == t && r->Ok_0.2 == v,
            Err(RequestParsingError::UnsupportedVersion(v)) => r is Err && r->Err_0
                == RequestParsingError::UnsupportedVersion(v),
            Err(_) => r is Err && r->Err_0 is Format,
        },
{
    let chars = chars_of(line);
    let separator: Vec<char> = vec![' '];
    let tokens = split_chars(chars.as_slice(), separator.as_slice());
    assert(separator@ =~= space());
    let ghost t = split_seq(line@, space());
    assert(views_of(tokens@) == t);
    if tokens.len() != 3 {
        return Err(RequestParsingError::Format);
    }
    assert(t[0] == tokens@[0]@ && t[1] == tokens@[1]@ && t[2] == tokens@[2]@);
    let method = match Method::from_chars(tokens[0].as_slice()) {
        Some(m) => m,
        None => {
            return Err(RequestParsingError::Format);
        },
    };
    let version = match Version::from_chars(tokens[2].as_slice()) {
        Some(v) => v,
        None => {
            return Err(RequestParsingError::Format);
        },
    };
    if !version.is_supported() {
        return Err(RequestParsingError::UnsupportedVersion(version));
    }
    let target = string_of(tokens[1].as_slice());
    Ok((method, target, version))
}

/// The parsing error that a reading error becomes: an encoding failure is a format error.
pub open spec fn parsing_error_of(e: RequestReaderError) -> RequestParsingError {
    match e {
        RequestReaderError::Io(x) => RequestParsingError::Io(x),
        RequestReaderError::EndOfStream => RequestParsingError::EndOfStream,
        RequestReaderError::Encoding => RequestParsingError::Format,
    }
}

impl From<RequestReaderError> for RequestParsingError {
    fn from(value: RequestReaderError) -> (r: Self)
        ensures
            r == parsing_error_of(value),
    {
        match value {
            RequestReaderError::Io(e) => RequestParsingError::Io(e),
            RequestReaderError::EndOfStream => RequestParsingError::EndOfStream,
            RequestReaderError::Encoding => RequestParsingError::Format,
        }
    }
}

impl vstd::std_specs::convert::FromSpecImpl<RequestReaderError> for RequestParsingError {
    open spec fn obeys_from_spec() -> bool {
        true
    }

    open spec fn from_spec(v: RequestReaderError) -> Self {
        parsing_error_of(v)
    }
}

/// The mathematical content of a request.
pub struct RequestView {
    pub method: Method,
    pub target: Seq<char>,
    pub version: Version,
    pub headers: Seq<Seq<char>>,
    pub body: Option<Seq<char>>,
}

/// A parsed HTTP request.
#[derive(Debug)]
pub struct Request {
    method: Method,
    target: String,
    version: Version,
    headers: Vec<String>,
    body: Option<String>,
}

impl View for Request {
    type V = RequestView;

    closed spec fn view(&self) -> RequestView {
        RequestView {
            method: self.method,
            target: self.target@,
            version: self.version,
            headers: strings_of(self.headers@),
            body: match self.body {
                Some(b) => Some(b@),
                None => None,
            },
        }
    }
}

/// True when `req` is what a start line and a header block parse to: the start line parses
/// to its method, target and version, its header lines are those of the block, in order,
/// and it has no body.
pub open spec fn request_from(req: RequestView, line: Seq<char>, block: Seq<char>) -> bool {
    &&& start_line_outcome(line) == Ok::<(Method, Seq<char>, Version), RequestParsingError>(
        (req.method, req.target, req.version),
    )
    &&& req.headers == header_lines(block)
    &&& req.body is None
}

/// What reading one request from the byte stream `s` gives: the start line up to the first
/// line break found in 16-byte chunks, then the header block up to the first blank line
/// found in 64-byte chunks.
pub open spec fn request_outcome(s: Seq<u8>) -> Result<RequestView, RequestParsingError> {
    match scan_from(s, crlf(), 16, 0) {
        None => Err(RequestParsingError::EndOfStream),
        Some(e1) => {
            let line = s.take(e1 - 2);
            if !valid_utf8(line) {
                Err(RequestParsingError::Format)
            } else {
                match start_line_outcome(decode_utf8(line)) {
                    Err(x) => Err(x),
                    Ok((m, t, v)) => {
                        let s2 = s.skip(e1);
                        match scan_from(s2, crlf_crlf(), 64, 0) {
                            None => Err(RequestParsingError::EndOfStream),
                            Some(e2) => {
                                let block = s2.take(e2 - 4);
                                if !valid_utf8(block) {
                                    Err(RequestParsingError::Format)
                                } else {
                                    Ok(
                                        RequestView {
                                            method: m,
                                            target: t,
                                            version: v,
                                            headers: header_lines(decode_utf8(block)),
                                            body: None,
                                        },
                                    )
                                }
                            },
                        }
                    },
                }
            }
        },
    }
}

impl Request {
    /// Reads one request from `reader`: its start line, then its header block.
    pub fn try_from_reader<R: ByteSource>(reader: &mut RequestReader<R>) -> (r: Result<
        Request,
        RequestParsingError,
    >)
        requires
            old(reader).wf(),
        ensures
            final(reader).wf(),
            old(reader).pulled().is_prefix_of(final(reader).pulled()),
            match r {
                Ok(req) => exists|line: Seq<u8>, block: Seq<u8>|
                    {
                        &&& final(reader).taken() == old(reader).taken() + line + crlf() + block
                            + crlf_crlf()
                        &&& valid_utf8(line)
                        &&& valid_utf8(block)
                        &&& request_from(req@, decode_utf8(line), decode_utf8(block))
                    },
                Err(RequestParsingError::UnsupportedVersion(v)) => exists|line: Seq<u8>|
                    {
                        &&& final(reader).taken() == old(reader).taken() + line + crlf()
                        &&& valid_utf8(line)
                        &&& start_line_outcome(decode_utf8(line)) == Err::<
                            (Method, Seq<char>, Version),
                            RequestParsingError,
                        >(RequestParsingError::UnsupportedVersion(v))
                    },
                Err(RequestParsingError::Format) => (exists|line: Seq<u8>|
                    {
                        &&& final(reader).taken() == old(reader).taken() + line + crlf()
                        &&& (!valid_utf8(line) || start_line_outcome(decode_utf8(line)) == Err::<
                            (Method, Seq<char>, Version),
                            RequestParsingError,
                        >(RequestParsingError::Format))
                    }) || (exists|line: Seq<u8>, block: Seq<u8>|
                    {
                        &&& final(reader).taken() == old(reader).taken() + line + crlf() + block
                            + crlf_crlf()
                        &&& valid_utf8(line)
                        &&& start_line_outcome(decode_utf8(line)) is Ok
                        &&& !valid_utf8(block)
                    }),
                Err(_) => true,
            },
            old(reader).source().modelled() ==> match r {
                Ok(req) => exists|line: Seq<u8>, block: Seq<u8>|
                    {
                        &&& old(reader).stream() == line + crlf() + block + crlf_crlf()
                            + final(reader).stream()
                        &&& valid_utf8(line)
                        &&& valid_utf8(block)
                        &&& request_from(req@, decode_utf8(line), decode_utf8(block))
                    },
                Err(RequestParsingError::UnsupportedVersion(v)) => exists|line: Seq<u8>|
                    {
                        &&& old(reader).stream() == line + crlf() + final(reader).stream()
                        &&& valid_utf8(line)
                        &&& start_line_outcome(decode_utf8(line)) == Err::<
                            (Method, Seq<char>, Version),
                            RequestParsingError,
                        >(RequestParsingError::UnsupportedVersion(v))
                    },
                Err(RequestParsingError::Format) => (exists|line: Seq<u8>|
                    {
                        &&& old(reader).stream() == line + crlf() + final(reader).stream()
                        &&& (!valid_utf8(line) || start_line_outcome(decode_utf8(line)) == Err::<
                            (Method, Seq<char>, Version),
                            RequestParsingError,
                        >(RequestParsingError::Format))
                    }) || (exists|line: Seq<u8>, block: Seq<u8>|
                    {
                        &&& old(reader).stream() == line + crlf() + block + crlf_crlf()
                            + final(reader).stream()
                        &&& valid_utf8(line)
                        &&& start_line_outcome(decode_utf8(line)) is Ok
                        &&& !valid_utf8(block)
                    }),
                Err(RequestParsingError::EndOfStream) => final(reader).stream().len() == 0,
                Err(RequestParsingError::Io(_)) => !old(reader).source().delivers_fully(),
            },
            old(reader).source().modelled() && old(reader).source().delivers_fully() ==> match request_outcome(
                old(reader).stream(),
            ) {
                Ok(v) => r is Ok && r->Ok_0@ == v,
                Err(e) => r is Err && r->Err_0 == e,
            },
    {
        let ghost t0 = reader.taken();
        let ghost s = reader.stream();
        let ghost modelled = reader.source().modelled();
        let ghost df = modelled && reader.source().delivers_fully();
        proof {
            lemma_scan_bounds(s, crlf(), 16, 0);
        }
        let start_line = match reader.read_start_line() {
            Ok(text) => text,
            Err(e) => {
                return Err(RequestParsingError::from(e));
            },
        };
        let ghost line = choose|line: Seq<u8>|
            {
                &&& s == line + crlf() + reader.stream()
                &&& valid_utf8(line)
                &&& start_line@ == decode_utf8(line)
            };
        let ghost tline = choose|line: Seq<u8>|
            {
                &&& reader.taken() == t0 + line + crlf()
                &&& valid_utf8(line)
                &&& start_line@ == decode_utf8(line)
            };
        let ghost t1 = reader.taken();
        let ghost s2 = reader.stream();
        proof {
            if df {
                let e1 = scan_from(s, crlf(), 16, 0)->Some_0;
                assert(s.take(e1 - 2) =~= line);
            }
            lemma_scan_bounds(s2, crlf_crlf(), 64, 0);
        }
        let (method, target, version) = match parse_start_line(start_line.as_str()) {
            Ok(parts) => parts,
            Err(e) => {
                return Err(e);
            },
        };
        let headers = match reader.read_headers() {
            Ok(h) => h,
            Err(e) => {
                proof {
                    if e is Encoding {
                        let tblock = choose|block: Seq<u8>|
                            {
                                &&& reader.taken() == t1 + block + crlf_crlf()
                                &&& !valid_utf8(block)
                            };
                        assert(reader.taken() =~= t0 + tline + crlf() + tblock + crlf_crlf());
                    }
                    if modelled {
                        assert(s =~= line + crlf() + (s2));
                    }
                    if modelled && e is Encoding {
                        let block = choose|block: Seq<u8>|
                            {
                                &&& s2 == block + crlf_crlf() + reader.stream()
                                &&& !valid_utf8(block)
                            };
                        assert(s =~= line + crlf() + block + crlf_crlf() + reader.stream());
                    }
                }
                return Err(RequestParsingError::from(e));
            },
        };
        let ghost block = choose|block: Seq<u8>|
            {
                &&& s2 == block + crlf_crlf() + reader.stream()
                &&& valid_utf8(block)
                &&& strings_of(headers@) == header_lines(decode_utf8(block))
            };
        proof {
            if df {
                let e2 = scan_from(s2, crlf_crlf(), 64, 0)->Some_0;
                assert(s2.take(e2 - 4) =~= block);
            }
        }
        let ghost tblock = choose|block: Seq<u8>|
            {
                &&& reader.taken() == t1 + block + crlf_crlf()
                &&& valid_utf8(block)
                &&& strings_of(headers@) == header_lines(decode_utf8(block))
            };
        let req = Request { method, target, version, headers, body: None };
        proof {
            assert(start_line_outcome(decode_utf8(tline)) == Ok::<
                (Method, Seq<char>, Version),
                RequestParsingError,
            >((method, target@, version)));
            assert(req@.headers == strings_of(headers@));
            assert(request_from(req@, decode_utf8(tline), decode_utf8(tblock)));
            assert(reader.taken() =~= t0 + tline + crlf() + tblock + crlf_crlf());
            if modelled {
                assert(start_line_outcome(decode_utf8(line)) == Ok::<
                    (Method, Seq<char>, Version),
                    RequestParsingError,
                >((method, target@, version)));
                assert(req@.headers == strings_of(headers@));
                assert(request_from(req@, decode_utf8(line), decode_utf8(block)));
                assert(s =~= line + crlf() + block + crlf_crlf() + reader.stream());
            }
        }
        Ok(req)
    }

    /// The request method.
    pub fn method(&self) -> (r: Method)
        ensures
            r == self@.method,
    {
        self.method
    }

    /// The request target, as sent.
    pub fn target(&self) -> (r: &str)
        ensures
            r@ == self@.target,
    {
        self.target.as_str()
    }

    /// The protocol version.
    pub fn version(&self) -> (r: Version)
        ensures
            r == self@.version,
    {
        self.version
    }

    /// The raw header lines, in the order in which they came.
    pub fn headers(&self) -> (r: &Vec<String>)
        ensures
            strings_of(r@) == self@.headers,
    {
        &self.headers
    }

    /// The body, which is never read.
    pub fn body(&self) -> (r: &Option<String>)
        ensures
            r is None <==> self@.body is None,
    {
        &self.body
    }
}


/// A start line that does not split into exactly three space-separated tokens is malformed,
/// whatever its tokens; one of three tokens naming a known method and a known but
/// unsupported version is reported as that version.
pub proof fn lemma_start_line_tokens(line: Seq<char>)
    ensures
        split_seq(line, space()).len() != 3 ==> start_line_outcome(line) == Err::<
            (Method, Seq<char>, Version),
            RequestParsingError,
        >(RequestParsingError::Format),
        ({
            let t = split_seq(line, space());
            t.len() == 3 && method_of(t[0]) is Some && version_of(t[2]) is Some && !supported(
                version_of(t[2])->Some_0,
            ) ==> start_line_outcome(line) == Err::<(Method, Seq<char>, Version), RequestParsingError>(
                RequestParsingError::UnsupportedVersion(version_of(t[2])->Some_0),
            )
        }),
{
}

/// Decoding a method's canonical token gives that method back, and a token that decodes to
/// a method is that method's canonical token.
pub proof fn lemma_method_round_trip(m: Method, s: Seq<char>)
    ensures
        method_of(method_text(m)) == Some(m),
        method_of(s) == Some(m) ==> method_text(m) == s,
{
    let g = method_text(Method::Get);
    let h = method_text(Method::Head);
    let po = method_text(Method::Post);
    let pu = method_text(Method::Put);
    let d = method_text(Method::Delete);
    let c = method_text(Method::Connect);
    let o = method_text(Method::Options);
    let t = method_text(Method::Trace);
    assert(h[0] != g[0]);
    assert(po[0] != g[0] && po[0] != h[0]);
    assert(pu[0] != g[0] && pu[0] != h[0] && pu[1] != po[1]);
    assert(d[0] != g[0] && d[0] != h[0] && d[0] != po[0] && d[0] != pu[0]);
    assert(c[0] != g[0] && c[0] != h[0] && c[0] != po[0] && c[0] != pu[0] && c[0] != d[0]);
    assert(o[0] != g[0] && o[0] != h[0] && o[0] != po[0] && o[0] != pu[0] && o[0] != d[0] && o[0]
        != c[0]);
    assert(t[0] != g[0] && t[0] != h[0] && t[0] != po[0] && t[0] != pu[0] && t[0] != d[0] && t[0]
        != c[0] && t[0] != o[0]);
}

/// Decoding a version's canonical text gives that version back, and a text that decodes to
/// a version is that version's canonical text.
pub proof fn lemma_version_round_trip(v: Version, s: Seq<char>)
    ensures
        version_of(version_text(v)) == Some(v),
        version_of(s) == Some(v) ==> version_text(v) == s,
{
    let a = version_text(Version::V0_9);
    let b = version_text(Version::V1);
    let c = version_text(Version::V1_1);
    let d = version_text(Version::V2);
    let e = version_text(Version::V3);
    assert(b.len() != a.len());
    assert(c[5] != a[5] && c.len() != b.len());
    assert(d[5] != a[5] && d[5] != b[5] && d.len() != c.len());
    assert(e[5] != a[5] && e[5] != b[5] && e.len() != c.len() && e[5] != d[5]);
}

/// The versions are totally ordered by generation, oldest first: 0.9, 1, 1.1, 2, 3. Of two
/// versions exactly one precedes the other, unless they are the same version.
pub proof fn lemma_version_order(a: Version, b: Version)
    ensures
        version_cmp(Version::V0_9, Version::V1) == core::cmp::Ordering::Less,
        version_cmp(Version::V1, Version::V1_1) == core::cmp::Ordering::Less,
        version_cmp(Version::V1_1, Version::V2) == core::cmp::Ordering::Less,
        version_cmp(Version::V2, Version::V3) == core::cmp::Ordering::Less,
        version_cmp(a, b) == core::cmp::Ordering::Equal <==> a == b,
        version_cmp(a, b) == core::cmp::Ordering::Less <==> version_cmp(b, a)
            == core::cmp::Ordering::Greater,
        vstd::std_specs::cmp::PartialOrdSpec::partial_cmp_spec(&a, &b) == Some(version_cmp(a, b)),
{
}

} // verus!
