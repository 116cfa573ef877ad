use std::collections::VecDeque;
use vstd::prelude::*;
use vstd::slice::{slice_subrange, slice_to_vec};
use vstd::utf8::{decode_utf8, valid_utf8};

use crate::http::text::{
    chars_of, find_from, find_in_chunk, occurs_at, split_chars, split_seq, string_of, utf8_text, views_of,
};

verus! {

/// `std::io::Error`, with which a byte source reports a failure; carried through unopened.
#[verifier::external_type_specification]
#[verifier::external_body]
pub struct ExIoError(std::io::Error);

/// Size of the staging buffer that one pull from the underlying source may fill.
pub const STAGING_CAPACITY: usize = 2048;

/// The smaller of two integers.
pub open spec fn at_most(a: int, b: int) -> int {
    if a < b {
        a
    } else {
        b
    }
}

/// A sequential source of bytes, such as a network stream. Users implement it for their
/// sources; what is proved of a reader holds for every source that keeps this contract.
pub trait ByteSource {
    /// True of a source that states what it holds through `rest`.
    open spec fn modelled(&self) -> bool {
        false
    }

    /// For a modelled source, the bytes that it has yet to hand out, in order.
    open spec fn rest(&self) -> Seq<u8> {
        Seq::empty()
    }

    /// True of a modelled source whose every pull succeeds and hands out as many bytes as
    /// asked for, while that many remain (a source held in memory).
    open spec fn delivers_fully(&self) -> bool {
        false
    }

    /// Pulls at most `max` bytes from the front of the source. For a modelled source, an
    /// empty result for a positive `max` means that the source is exhausted.
    fn pull(&mut self, max: usize) -> (r: Result<Vec<u8>, std::io::Error>)
        ensures
            final(self).modelled() == old(self).modelled(),
            final(self).delivers_fully() == old(self).delivers_fully(),
            r is Ok ==> r->Ok_0@.len() <= max,
            old(self).modelled() ==> match r {
                Ok(v) => {
                    &&& v@.len() <= old(self).rest().len()
                    &&& v@ == old(self).rest().take(v@.len() as int)
                    &&& final(self).rest() == old(self).rest().skip(v@.len() as int)
                    &&& max > 0 && v@.len() == 0 ==> old(self).rest().len() == 0
                },
                Err(_) => true,
            },
            old(self).modelled() && old(self).delivers_fully() ==> r is Ok && r->Ok_0@.len()
                == at_most(max as int, old(self).rest().len() as int),
    ;
}

/// A byte slice is a source that hands out its bytes front to back.
impl<'a> ByteSource for &'a [u8] {
    open spec fn modelled(&self) -> bool {
        true
    }

    open spec fn rest(&self) -> Seq<u8> {
        (*self)@
    }

    open spec fn delivers_fully(&self) -> bool {
        true
    }

    fn pull(&mut self, max: usize) -> (r: Result<Vec<u8>, std::io::Error>) {
        let len = self.len();
        let k = if max < len {
            max
        } else {
            len
        };
        let out = slice_to_vec(slice_subrange(*self, 0, k));
        *self = slice_subrange(*self, k, len);
        Ok(out)
    }
}

/// Why reading from a request stream failed.
#[derive(Debug)]
pub enum RequestReaderError {
    /// The underlying source failed.
    Io(std::io::Error),
    /// The source was exhausted before the awaited delimiter came.
    EndOfStream,
    /// The bytes read are not valid UTF-8 text.
    Encoding,
}

/// The carriage return and line feed that end a line.
pub open spec fn crlf() -> Seq<u8> {
    seq![13u8, 10u8]
}

/// The blank line that ends a header block.
pub open spec fn crlf_crlf() -> Seq<u8> {
    seq![13u8, 10u8, 13u8, 10u8]
}

/// True when `s` ends with `suffix`.
pub open spec fn ends_with(s: Seq<u8>, suffix: Seq<u8>) -> bool {
    suffix.len() <= s.len() && s.subrange(s.len() - suffix.len(), s.len() as int) == suffix
}

/// True when `i` is the first index at which `pattern` occurs in `s`.
pub open spec fn first_occurrence(s: Seq<u8>, pattern: Seq<u8>, i: int) -> bool {
    occurs_at(s, pattern, i) && forall|j: int| 0 <= j < i ==> !occurs_at(s, pattern, j)
}

/// True when each of `chunks` is a non-empty run of at most `n` bytes in which `pattern`
/// does not occur.
pub open spec fn missed_chunks(chunks: Seq<Seq<u8>>, pattern: Seq<u8>, n: nat) -> bool {
    forall|k: int|
        0 <= k < chunks.len() ==> {
            &&& 0 < #[trigger] chunks[k].len() <= n
            &&& forall|j: int| !occurs_at(chunks[k], pattern, j)
        }
}

/// True when `out` is what a search for `pattern` read: the `chunks`, none of which holds
/// `pattern`, then the `last` chunk of at most `n` bytes up to the end of the first
/// occurrence of `pattern`, at `i`; the rest of `last` is at the front of `pending`.
pub open spec fn chunked_scan(
    chunks: Seq<Seq<u8>>,
    last: Seq<u8>,
    i: int,
    pattern: Seq<u8>,
    n: nat,
    out: Seq<u8>,
    pending: Seq<u8>,
) -> bool {
    &&& missed_chunks(chunks, pattern, n)
    &&& 0 < last.len() <= n
    &&& first_occurrence(last, pattern, i)
    &&& out == chunks.flatten_alt() + last.take(i + pattern.len())
    &&& last.skip(i + pattern.len()).is_prefix_of(pending)
}

/// Where a search for `pattern` through `s`, in chunks of `n` bytes from `start` on, stops:
/// just past the first occurrence of `pattern` in the first chunk that holds one; `None`
/// when no chunk does. Each chunk is searched on its own.
pub open spec fn scan_from(s: Seq<u8>, pattern: Seq<u8>, n: int, start: int) -> Option<int>
    decreases s.len() + n - start,
{
    if n <= 0 || start < 0 || start >= s.len() {
        None
    } else {
        let chunk = s.subrange(start, at_most(start + n, s.len() as int));
        match find_from(chunk, pattern, 0) {
            Some(i) => Some(start + i + pattern.len()),
            None => scan_from(s, pattern, n, start + n),
        }
    }
}

/// A first occurrence found at or after `k` lies wholly inside `s`.
pub proof fn lemma_find_bounds(s: Seq<u8>, pattern: Seq<u8>, k: int)
    ensures
        find_from(s, pattern, k) matches Some(i) ==> k <= i && i + pattern.len() <= s.len()
            && occurs_at(s, pattern, i),
    decreases s.len() + 1 - k,
{
    if k < 0 || k + pattern.len() > s.len() {
    } else if occurs_at(s, pattern, k) {
    } else {
        lemma_find_bounds(s, pattern, k + 1);
    }
}

/// Where a chunked search stops lies past the whole pattern and within `s`.
pub proof fn lemma_scan_bounds(s: Seq<u8>, pattern: Seq<u8>, n: int, start: int)
    ensures
        scan_from(s, pattern, n, start) matches Some(e) ==> start + pattern.len() <= e <= s.len(),
    decreases s.len() + n - start,
{
    if n <= 0 || start < 0 || start >= s.len() {
    } else {
        let chunk = s.subrange(start, at_most(start + n, s.len() as int));
        lemma_find_bounds(chunk, pattern, 0);
        if find_from(chunk, pattern, 0) is None {
            lemma_scan_bounds(s, pattern, n, start + n);
        }
    }
}

/// True when a read of `len` bytes that found only `pending` queued handed on `out` and
/// left `left` queued, having staged `fresh` from one pull: the queued bytes, then as many
/// staged bytes as still fit, the surplus staged bytes being queued.
pub open spec fn staged_read(
    pending: Seq<u8>,
    len: int,
    fresh: Seq<u8>,
    out: Seq<u8>,
    left: Seq<u8>,
) -> bool {
    let m = at_most(fresh.len() as int, len - pending.len());
    &&& fresh.len() <= STAGING_CAPACITY
    &&& out == pending + fresh.take(m)
    &&& left == fresh.skip(m)
}

/// A chunked search through bytes in which `pattern` never occurs finds nothing: such a
/// search ends with the end of the stream, never with a result.
pub proof fn lemma_scan_misses_absent_pattern(s: Seq<u8>, pattern: Seq<u8>, n: int, start: int)
    requires
        forall|j: int| !occurs_at(s, pattern, j),
    ensures
        scan_from(s, pattern, n, start) is None,
    decreases s.len() + n - start,
{
    if n <= 0 || start < 0 || start >= s.len() {
    } else {
        let end = at_most(start + n, s.len() as int);
        let chunk = s.subrange(start, end);
        lemma_find_bounds(chunk, pattern, 0);
        if let Some(i) = find_from(chunk, pattern, 0) {
            assert(chunk.subrange(i, i + pattern.len()) =~= s.subrange(
                start + i,
                start + i + pattern.len(),
            ));
            assert(occurs_at(s, pattern, start + i));
        } else {
            lemma_scan_misses_absent_pattern(s, pattern, n, start + n);
        }
    }
}

/// The line break between two header lines.
pub open spec fn line_break() -> Seq<char> {
    seq!['\r', '\n']
}

/// The header lines of a decoded header block, in order.
pub open spec fn header_lines(block: Seq<char>) -> Seq<Seq<char>> {
    split_seq(block, line_break())
}

/// The texts of a sequence of strings.
pub open spec fn strings_of(v: Seq<String>) -> Seq<Seq<char>> {
    v.map_values(|x: String| x@)
}

/// A buffered reader over a byte source, with a queue of bytes that were pulled from the
/// source but not yet handed on.
pub struct RequestReader<R: ByteSource> {
    reader: R,
    internal: VecDeque<u8>,
    pulled: Ghost<Seq<u8>>,
    taken: Ghost<Seq<u8>>,
}

impl<R: ByteSource> RequestReader<R> {
    /// Every byte that the source has handed over so far, in order.
    pub closed spec fn pulled(&self) -> Seq<u8> {
        self.pulled@
    }

    /// Every byte that this reader has handed on so far, in order.
    pub closed spec fn taken(&self) -> Seq<u8> {
        self.taken@
    }

    /// The bytes pulled from the source and not yet handed on, oldest first.
    pub closed spec fn pending(&self) -> Seq<u8> {
        self.internal@
    }

    /// The source that this reader reads from, as it stands now.
    pub closed spec fn source(&self) -> R {
        self.reader
    }

    /// The bytes still to be read: the pending ones, then those the source has yet to hand
    /// out.
    pub open spec fn stream(&self) -> Seq<u8> {
        self.pending() + self.source().rest()
    }

    /// True when this reader is `before` after a read of `len` bytes that found too few
    /// queued, made one pull that staged `fresh`, and handed on `out`: the queued bytes, then
    /// as many staged bytes as fit, the surplus being queued.
    pub open spec fn staged_from(&self, before: &Self, len: int, fresh: Seq<u8>, out: Seq<u8>) -> bool {
        &&& staged_read(before.pending(), len, fresh, out, self.pending())
        &&& self.pulled() == before.pulled() + fresh
        &&& before.source().modelled() ==> {
            &&& fresh == before.source().rest().take(fresh.len() as int)
            &&& self.source().rest() == before.source().rest().skip(fresh.len() as int)
            &&& before.source().delivers_fully() ==> fresh.len() == at_most(
                STAGING_CAPACITY as int,
                before.source().rest().len() as int,
            )
        }
    }

    /// No byte is lost or duplicated: what was pulled is what was handed on, followed by
    /// what is pending.
    pub open spec fn wf(&self) -> bool {
        self.pulled() == self.taken() + self.pending()
    }

    /// A reader over `r` that has read nothing yet.
    pub fn from_reader(r: R) -> (s: Self)
        ensures
            s.wf(),
            s.pulled() == Seq::<u8>::empty(),
            s.taken() == Seq::<u8>::empty(),
            s.pending() == Seq::<u8>::empty(),
            s.source() == r,
            s.stream() == r.rest(),
    {
        let s = RequestReader {
            reader: r,
            internal: VecDeque::with_capacity(STAGING_CAPACITY),
            pulled: Ghost(Seq::empty()),
            taken: Ghost(Seq::empty()),
        };
        assert(s.taken@ + s.internal@ =~= Seq::<u8>::empty());
        assert(s.stream() =~= r.rest());
        s
    }

    /// The bytes pulled from the source and not yet handed on, oldest first.
    pub fn buffered(&self) -> (r: &VecDeque<u8>)
        ensures
            r@ == self.pending(),
    {
        &self.internal
    }

    /// Reads the start line: the bytes up to the first line break, read in chunks of 16
    /// bytes, decoded as UTF-8 without the line break.
    pub fn read_start_line(&mut self) -> (r: Result<String, RequestReaderError>)
        requires
            old(self).wf(),
        ensures
            final(self).wf(),
            old(self).pulled().is_prefix_of(final(self).pulled()),
            final(self).source().modelled() == old(self).source().modelled(),
            final(self).source().delivers_fully() == old(self).source().delivers_fully(),
            match r {
                Ok(s) => exists|line: Seq<u8>|
                    {
                        &&& final(self).taken() == old(self).taken() + line + crlf()
                        &&& valid_utf8(line)
                        &&& s@ == decode_utf8(line)
                    },
                Err(RequestReaderError::Encoding) => exists|line: Seq<u8>|
                    {
                        &&& final(self).taken() == old(self).taken() + line + crlf()
                        &&& !valid_utf8(line)
                    },
                Err(_) => true,
            },
            old(self).source().modelled() ==> match r {
                Ok(s) => exists|line: Seq<u8>|
                    {
                        &&& old(self).stream() == line + crlf() + final(self).stream()
                        &&& valid_utf8(line)
                        &&& s@ == decode_utf8(line)
                    },
                Err(RequestReaderError::Encoding) => exists|line: Seq<u8>|
                    {
                        &&& old(self).stream() == line + crlf() + final(self).stream()
                        &&& !valid_utf8(line)
                    },
                Err(RequestReaderError::EndOfStream) => final(self).stream().len() == 0,
                Err(RequestReaderError::Io(_)) => !old(self).source().delivers_fully(),
            },
            old(self).source().modelled() && old(self).source().delivers_fully() ==> match scan_from(
                old(self).stream(),
                crlf(),
                16,
                0,
            ) {
                Some(e) => {
                    &&& final(self).stream() == old(self).stream().skip(e)
                    &&& if valid_utf8(old(self).stream().take(e - 2)) {
                        r is Ok && r->Ok_0@ == decode_utf8(old(self).stream().take(e - 2))
                    } else {
                        r matches Err(RequestReaderError::Encoding)
                    }
                },
                None => r matches Err(RequestReaderError::EndOfStream),
            },
    {
        let delimiter: Vec<u8> = vec![13u8, 10u8];
        assert(delimiter@ =~= crlf());
        let mut bytes = match self.read_until_with_chunk_size::<16>(delimiter.as_slice()) {
            Ok(b) => b,
            Err(e) => {
                return Err(e);
            },
        };
        proof {
            lemma_scan_bounds(old(self).stream(), crlf(), 16, 0);
        }
        let ghost all = bytes@;
        let k = bytes.len() - 2;
        bytes.truncate(k);
        assert(all =~= bytes@ + crlf());
        assert(old(self).source().modelled() ==> old(self).stream() =~= bytes@ + crlf()
            + self.stream());
        assert(self.taken() =~= old(self).taken() + bytes@ + crlf());
        assert(old(self).source().modelled() && old(self).source().delivers_fully() ==> bytes@
            =~= old(self).stream().take(
            all.len() - 2,
        ) && self.stream() =~= old(self).stream().skip(all.len() as int));
        match utf8_text(bytes) {
            Some(s) => Ok(s),
            None => Err(RequestReaderError::Encoding),
        }
    }

    /// Reads the header block: the bytes up to the first blank line, read in chunks of 64
    /// bytes, decoded as UTF-8 without the blank line and split into lines.
    pub fn read_headers(&mut self) -> (r: Result<Vec<String>, RequestReaderError>)
        requires
            old(self).wf(),
        ensures
            final(self).wf(),
            old(self).pulled().is_prefix_of(final(self).pulled()),
            final(self).source().modelled() == old(self).source().modelled(),
            final(self).source().delivers_fully() == old(self).source().delivers_fully(),
            match r {
                Ok(h) => exists|block: Seq<u8>|
                    {
                        &&& final(self).taken() == old(self).taken() + block + crlf_crlf()
                        &&& valid_utf8(block)
                        &&& strings_of(h@) == header_lines(decode_utf8(block))
                    },
                Err(RequestReaderError::Encoding) => exists|block: Seq<u8>|
                    {
                        &&& final(self).taken() == old(self).taken() + block + crlf_crlf()
                        &&& !valid_utf8(block)
                    },
                Err(_) => true,
            },
            old(self).source().modelled() ==> match r {
                Ok(h) => exists|block: Seq<u8>|
                    {
                        &&& old(self).stream() == block + crlf_crlf() + final(self).stream()
                        &&& valid_utf8(block)
                        &&& strings_of(h@) == header_lines(decode_utf8(block))
                    },
                Err(RequestReaderError::Encoding) => exists|block: Seq<u8>|
                    {
                        &&& old(self).stream() == block + crlf_crlf() + final(self).stream()
                        &&& !valid_utf8(block)
                    },
                Err(RequestReaderError::EndOfStream) => final(self).stream().len() == 0,
                Err(RequestReaderError::Io(_)) => !old(self).source().delivers_fully(),
            },
            old(self).source().modelled() && old(self).source().delivers_fully() ==> match scan_from(
                old(self).stream(),
                crlf_crlf(),
                64,
                0,
            ) {
                Some(e) => {
                    &&& final(self).stream() == old(self).stream().skip(e)
                    &&& if valid_utf8(old(self).stream().take(e - 4)) {
                        r is Ok && strings_of(r->Ok_0@) == header_lines(
                            decode_utf8(old(self).stream().take(e - 4)),
                        )
                    } else {
                        r matches Err(RequestReaderError::Encoding)
                    }
                },
                None => r matches Err(RequestReaderError::EndOfStream),
            },
    {
        let delimiter: Vec<u8> = vec![13u8, 10u8, 13u8, 10u8];
        assert(delimiter@ =~= crlf_crlf());
        let mut bytes = match self.read_until_with_chunk_size::<64>(delimiter.as_slice()) {
            Ok(b) => b,
            Err(e) => {
                return Err(e);
            },
        };
        proof {
            lemma_scan_bounds(old(self).stream(), crlf_crlf(), 64, 0);
        }
        let ghost all = bytes@;
        let k = bytes.len() - 4;
        bytes.truncate(k);
        assert(all =~= bytes@ + crlf_crlf());
        assert(old(self).source().modelled() ==> old(self).stream() =~= bytes@ + crlf_crlf()
            + self.stream());
        assert(self.taken() =~= old(self).taken() + bytes@ + crlf_crlf());
        assert(old(self).source().modelled() && old(self).source().delivers_fully() ==> bytes@
            =~= old(self).stream().take(
            all.len() - 4,
        ) && self.stream() =~= old(self).stream().skip(all.len() as int));
        let text = match utf8_text(bytes) {
            Some(t) => t,
            None => {
                return Err(RequestReaderError::Encoding);
            },
        };
        let chars = chars_of(text.as_str());
        let line_break: Vec<char> = vec!['\r', '\n'];
        let pieces = split_chars(chars.as_slice(), line_break.as_slice());
        let mut headers: Vec<String> = Vec::new();
        let mut i: usize = 0;
        while i < pieces.len()
            invariant
                i <= pieces@.len(),
                strings_of(headers@) == views_of(pieces@).take(i as int),
            decreases pieces@.len() - i,
        {
            let line = string_of(pieces[i].as_slice());
            assert(views_of(pieces@)[i as int] == line@);
            let ghost prev = strings_of(headers@);
            headers.push(line);
            assert(strings_of(headers@) =~= prev.push(line@));
            i = i + 1;
            assert(strings_of(headers@) =~= views_of(pieces@).take(i as int));
        }
        assert(views_of(pieces@).take(i as int) =~= views_of(pieces@));
        Ok(headers)
    }

    /// Reads chunks of `N` bytes until one of them holds `pattern`, and returns every byte
    /// read up to and including the first occurrence of `pattern` in that chunk. The bytes
    /// of that chunk after the pattern go back to the front of the pending queue. Each chunk
    /// is searched on its own, so an occurrence split across two chunks is not seen.
    #[verifier::rlimit(60)]
    #[verifier::spinoff_prover]
    pub fn read_until_with_chunk_size<const N: usize>(&mut self, pattern: &[u8]) -> (r: Result<
        Vec<u8>,
        RequestReaderError,
    >)
        requires
            old(self).wf(),
            pattern@.len() > 0,
        ensures
            final(self).wf(),
            old(self).pulled().is_prefix_of(final(self).pulled()),
            match r {
                Ok(out) => {
                    &&& final(self).taken() == old(self).taken() + out@
                    &&& ends_with(out@, pattern@)
                    &&& occurs_at(
                        final(self).pulled(),
                        pattern@,
                        old(self).taken().len() + out@.len() - pattern@.len(),
                    )
                    &&& exists|chunks: Seq<Seq<u8>>, last: Seq<u8>, i: int|
                        #[trigger] chunked_scan(
                            chunks,
                            last,
                            i,
                            pattern@,
                            N as nat,
                            out@,
                            final(self).pending(),
                        )
                },
                Err(e) => e is Io || e is EndOfStream,
            },
            final(self).source().modelled() == old(self).source().modelled(),
            final(self).source().delivers_fully() == old(self).source().delivers_fully(),
            old(self).source().modelled() && r is Ok ==> old(self).stream() == r->Ok_0@
                + final(self).stream(),
            old(self).source().modelled() && old(self).source().delivers_fully() && old(
                self,
            ).source().rest().len() <= STAGING_CAPACITY ==> final(self).source().rest() == old(
                self,
            ).source().rest() || final(self).source().rest().len() == 0,
            (old(self).source().modelled() && N > 0 && r matches Err(
                RequestReaderError::EndOfStream,
            )) ==> {
                &&& final(self).stream().len() == 0
                &&& exists|chunks: Seq<Seq<u8>>|
                    {
                        &&& #[trigger] missed_chunks(chunks, pattern@, N as nat)
                        &&& old(self).stream() == chunks.flatten_alt()
                        &&& final(self).taken() == old(self).taken() + chunks.flatten_alt()
                    }
            },
            0 < N <= old(self).pending().len() && find_from(
                old(self).pending().take(N as int),
                pattern@,
                0,
            ) is Some ==> r is Ok && final(self).pulled() == old(self).pulled(),
            old(self).source().modelled() && old(self).source().delivers_fully() && 0 < N
                <= STAGING_CAPACITY ==> match scan_from(old(self).stream(), pattern@, N as int, 0) {
                Some(e) => r is Ok && r->Ok_0@ == old(self).stream().take(e),
                None => r matches Err(RequestReaderError::EndOfStream),
            },
    {
        let ghost s = old(self).stream();
        let ghost modelled = old(self).source().modelled();
        let ghost fully = modelled && old(self).source().delivers_fully() && 0 < N
            <= STAGING_CAPACITY;
        let ghost served = 0 < N <= old(self).pending().len() && find_from(
            old(self).pending().take(N as int),
            pattern@,
            0,
        ) is Some;
        let plen = pattern.len();
        let mut output: Vec<u8> = Vec::new();
        let ghost mut chunks: Seq<Seq<u8>> = Seq::empty();
        loop
            invariant
                output@ == chunks.flatten_alt(),
                missed_chunks(chunks, pattern@, N as nat),
                self.wf(),
                plen == pattern@.len(),
                plen > 0,
                old(self).pulled().is_prefix_of(self.pulled()),
                self.taken() == old(self).taken() + output@,
                self.source().delivers_fully() == old(self).source().delivers_fully(),
                self.source().modelled() == modelled,
                modelled ==> s == output@ + self.stream(),
                modelled && old(self).source().delivers_fully() && old(self).source().rest().len()
                    <= STAGING_CAPACITY ==> self.source().rest() == old(self).source().rest()
                    || self.source().rest().len() == 0,
                fully ==> scan_from(s, pattern@, N as int, 0) == scan_from(
                    s,
                    pattern@,
                    N as int,
                    output@.len() as int,
                ),
                served ==> output@.len() == 0 && self.internal@ == old(self).internal@
                    && self.pulled() == old(self).pulled(),
                served == (0 < N <= old(self).pending().len() && find_from(
                    old(self).pending().take(N as int),
                    pattern@,
                    0,
                ) is Some),
                modelled == old(self).source().modelled(),
                fully == (modelled && old(self).source().delivers_fully() && 0 < N
                    <= STAGING_CAPACITY),
                s == old(self).stream(),
            decreases usize::MAX - output@.len(),
        {
            let ghost before = self.pulled();
            let ghost stream0 = self.stream();
            let ghost o = output@.len() as int;
            let chunk = match self.internal_read(N) {
                Ok(c) => c,
                Err(e) => {
                    assert(!served);
                    return Err(RequestReaderError::Io(e));
                },
            };
            assert(old(self).pulled().is_prefix_of(self.pulled())) by {
                assert(self.pulled().take(before.len() as int).take(
                    old(self).pulled().len() as int,
                ) =~= self.pulled().take(old(self).pulled().len() as int));
            }
            let clen = chunk.len();
            let ghost src1 = self.reader;
            assert(modelled ==> s =~= output@ + chunk@ + self.stream());
            if clen == 0 {
                assert(modelled && N > 0 ==> stream0.len() == 0);
                assert(modelled && N > 0 ==> self.stream().len() == 0);
                assert(modelled && N > 0 ==> s =~= chunks.flatten_alt());
                assert(N > 0 ==> missed_chunks(chunks, pattern@, N as nat));
                assert(!served);
                return Err(RequestReaderError::EndOfStream);
            }
            let ghost out0 = output@;
            let ghost rest = self.internal@;
            assert(fully ==> chunk@ =~= s.subrange(o, at_most(o + N, s.len() as int)));
            assert(served ==> chunk@ == old(self).pending().take(N as int));
            assert(self.taken() =~= old(self).taken() + out0 + chunk@);
            assert(self.pulled() == old(self).taken() + out0 + chunk@ + rest);
            match find_in_chunk(chunk.as_slice(), pattern) {
                Some(i) => {
                    let end = i + plen;
                    let mut j: usize = 0;
                    while j < end
                        invariant
                            end <= clen,
                            clen == chunk@.len(),
                            j <= end,
                            output@ == out0 + chunk@.take(j as int),
                            self.pulled() == old(self).taken() + out0 + chunk@ + rest,
                            self.internal@ == rest,
                            self.reader == src1,
                        decreases end - j,
                    {
                        output.push(chunk[j]);
                        j = j + 1;
                        assert(output@ =~= out0 + chunk@.take(j as int));
                    }
                    let mut k: usize = clen;
                    while k > end
                        invariant
                            end <= k <= clen,
                            clen == chunk@.len(),
                            self.internal@ == chunk@.subrange(k as int, clen as int) + rest,
                            self.pulled() == old(self).taken() + out0 + chunk@ + rest,
                            self.reader == src1,
                        decreases k,
                    {
                        k = k - 1;
                        self.internal.push_front(chunk[k]);
                        assert(self.internal@ =~= chunk@.subrange(k as int, clen as int) + rest);
                    }
                    self.taken = Ghost(old(self).taken() + output@);
                    assert(chunk@ =~= chunk@.take(end as int) + chunk@.subrange(
                        end as int,
                        clen as int,
                    ));
                    assert(old(self).taken() + out0 + chunk@ + rest =~= old(self).taken() + (out0
                        + chunk@.take(end as int)) + (chunk@.subrange(end as int, clen as int)
                        + rest));
                    assert(self.pulled() =~= self.taken() + self.pending());
                    assert(chunk@.subrange(end as int, clen as int) =~= chunk@.skip(end as int));
                    assert(output@ == chunks.flatten_alt() + chunk@.take(i + plen));
                    assert(first_occurrence(chunk@, pattern@, i as int));
                    assert(chunk@.skip(i + plen).is_prefix_of(self.pending())) by {
                        assert(self.pending().take(chunk@.skip(i + plen).len() as int)
                            =~= chunk@.skip(i + plen));
                    }
                    assert(output@.subrange(output@.len() - plen, output@.len() as int)
                        =~= chunk@.subrange(i as int, end as int));
                    let ghost at = old(self).taken().len() + output@.len() - plen;
                    assert(self.pulled().subrange(at, at + plen) =~= output@.subrange(
                        output@.len() - plen,
                        output@.len() as int,
                    ));
                    assert(self.stream() =~= chunk@.skip(end as int) + rest + src1.rest());
                    assert(modelled ==> s =~= output@ + self.stream());
                    assert(fully ==> output@ =~= s.take(o + i + plen));
                    assert(served ==> self.pulled() == old(self).pulled());
                    assert(self.taken() == old(self).taken() + output@);
                    assert(ends_with(output@, pattern@));
                    assert(occurs_at(self.pulled(), pattern@, old(self).taken().len() + output@.len() - plen));
                    assert(chunked_scan(chunks, chunk@, i as int, pattern@, N as nat, output@, self.pending()));
                    assert(exists|c: Seq<Seq<u8>>, l: Seq<u8>, k: int|
                        #[trigger] chunked_scan(c, l, k, pattern@, N as nat, output@, self.pending()));
                    return Ok(output);
                },
                None => {
                    let mut j: usize = 0;
                    while j < clen
                        invariant
                            clen == chunk@.len(),
                            j <= clen,
                            output@ == out0 + chunk@.take(j as int),
                            self.pulled() == old(self).taken() + out0 + chunk@ + rest,
                            self.taken() == old(self).taken() + out0 + chunk@,
                            self.internal@ == rest,
                            self.reader == src1,
                        decreases clen - j,
                    {
                        output.push(chunk[j]);
                        j = j + 1;
                        assert(output@ =~= out0 + chunk@.take(j as int));
                    }
                    assert(chunk@.take(clen as int) =~= chunk@);
                    assert(self.taken() =~= old(self).taken() + output@);
                    proof {
                        let grown = chunks.push(chunk@);
                        assert(grown.drop_last() =~= chunks);
                        assert(grown.flatten_alt() == chunks.flatten_alt() + chunk@);
                        assert forall|k: int| 0 <= k < grown.len() implies {
                            &&& 0 < #[trigger] grown[k].len() <= N as nat
                            &&& forall|j: int| !occurs_at(grown[k], pattern@, j)
                        } by {
                            if k < chunks.len() {
                                assert(grown[k] == chunks[k]);
                            }
                        }
                        chunks = grown;
                    }
                    // A vector's length fits in `usize`, which bounds the loop's measure.
                    let _length: usize = output.len();
                    assert(modelled ==> s =~= output@ + self.stream());
                    assert(fully ==> scan_from(s, pattern@, N as int, o) == scan_from(
                        s,
                        pattern@,
                        N as int,
                        output@.len() as int,
                    )) by {
                        if fully {
                            assert(scan_from(s, pattern@, N as int, o) == scan_from(
                                s,
                                pattern@,
                                N as int,
                                o + N,
                            ));
                        }
                    }
                },
            }
        }
    }

    /// Hands on up to `len` bytes: first from the pending queue, then, if more are wanted,
    /// from a single pull of the source into the staging buffer, whose surplus is queued.
    #[verifier::spinoff_prover]
    #[verifier::rlimit(100)]
    pub fn internal_read(&mut self, len: usize) -> (r: Result<Vec<u8>, std::io::Error>)
        requires
            old(self).wf(),
        ensures
            final(self).wf(),
            final(self).source().modelled() == old(self).source().modelled(),
            final(self).source().delivers_fully() == old(self).source().delivers_fully(),
            old(self).source().modelled() && r is Ok ==> old(self).stream() == r->Ok_0@
                + final(self).stream(),
            old(self).source().modelled() && len > 0 && r is Ok && r->Ok_0@.len() == 0
                ==> old(self).stream().len() == 0,
            old(self).source().modelled() && old(self).source().delivers_fully() && len
                <= STAGING_CAPACITY ==> r is Ok
                && r->Ok_0@ == old(self).stream().take(
                at_most(len as int, old(self).stream().len() as int),
            ),
            old(self).pulled().is_prefix_of(final(self).pulled()),
            len <= old(self).pending().len() ==> r is Ok && r->Ok_0@ == old(
                self,
            ).pending().take(len as int) && final(self).pulled() == old(self).pulled()
                && final(self).source() == old(self).source(),
            old(self).pending().len() < len && r is Ok ==> final(self).staged_from(
                &*old(self),
                len as int,
                final(self).pulled().skip(old(self).pulled().len() as int),
                r->Ok_0@,
            ),
            r is Err ==> old(self).pending().len() < len,
            old(self).source().modelled() && old(self).source().delivers_fully() && old(
                self,
            ).source().rest().len() <= STAGING_CAPACITY ==> final(self).source().rest() == old(
                self,
            ).source().rest() || final(self).source().rest().len() == 0,
            match r {
                Ok(out) => {
                    &&& out@.len() <= len
                    &&& final(self).taken() == old(self).taken() + out@
                    &&& old(self).pending().len() <= len ==> old(self).pending().is_prefix_of(
                        out@,
                    )
                    &&& out@.len() < len ==> final(self).pending().len() == 0
                },
                Err(_) => {
                    &&& final(self).taken() == old(self).taken() + old(self).pending()
                    &&& final(self).pending().len() == 0
                },
            },
    {
        let ghost p = self.internal@;
        let avail = self.internal.len();
        let n = if len < avail {
            len
        } else {
            avail
        };
        let mut out: Vec<u8> = Vec::new();
        let mut i: usize = 0;
        while i < n
            invariant
                n <= p.len(),
                n <= len,
                i <= n,
                out@ == p.take(i as int),
                self.internal@ == p.skip(i as int),
                self.reader == old(self).reader,
                self.pulled == old(self).pulled,
                self.taken == old(self).taken,
            decreases n - i,
        {
            if let Some(b) = self.internal.pop_front() {
                out.push(b);
            }
            i = i + 1;
            assert(out@ =~= p.take(i as int));
            assert(self.internal@ =~= p.skip(i as int));
        }
        self.taken = Ghost(self.taken@ + out@);
        assert(self.pulled@ =~= self.taken@ + self.internal@);
        if n < len {
            let ghost rest0 = self.reader.rest();
            let fresh = match self.reader.pull(STAGING_CAPACITY) {
                Ok(f) => f,
                Err(e) => {
                    assert(out@ =~= p);
                    return Err(e);
                },
            };
            self.pulled = Ghost(self.pulled@ + fresh@);
            let free = len - n;
            let end = if fresh.len() < free {
                fresh.len()
            } else {
                free
            };
            let ghost mid = self.taken@;
            let ghost source1 = self.reader;
            let mut j: usize = 0;
            while j < fresh.len()
                invariant
                    end <= fresh@.len(),
                    j <= fresh@.len(),
                    n == p.len(),
                    j <= end ==> self.internal@.len() == 0,
                    j > end ==> self.internal@ == fresh@.subrange(end as int, j as int),
                    self.taken@ == mid,
                    out@.len() <= len,
                    n + end <= len,
                    self.pulled@ == mid + fresh@,
                    self.reader == source1,
                    out@ == p.take(n as int) + fresh@.take(
                        (if j < end { j } else { end }) as int,
                    ),
                decreases fresh@.len() - j,
            {
                if j < end {
                    out.push(fresh[j]);
                } else {
                    self.internal.push_back(fresh[j]);
                }
                j = j + 1;
                assert(fresh@.take(j as int) =~= fresh@.take(j - 1).push(fresh@[j - 1]));
                assert(j > end ==> self.internal@ =~= fresh@.subrange(end as int, j as int));
                assert(out@ =~= p.take(n as int) + fresh@.take(
                    (if j < end { j } else { end }) as int,
                ));
            }
            assert(p.take(n as int) =~= p);
            self.taken = Ghost(mid + fresh@.take(end as int));
            assert(end == fresh@.len() ==> self.internal@.len() == 0);
            assert(fresh@ =~= fresh@.take(end as int) + fresh@.subrange(end as int, fresh@.len() as int));
            assert(self.pulled@ =~= self.taken@ + self.internal@);
            assert(self.taken@ =~= old(self).taken@ + out@);
            assert(out@ =~= p + fresh@.take(end as int));
            assert(self.internal@ =~= fresh@.skip(end as int));
            assert(staged_read(old(self).pending(), len as int, fresh@, out@, self.pending()));
            assert(self.pulled() == old(self).pulled() + fresh@);
            proof {
                if old(self).source().modelled() {
                    assert(fresh@ == rest0.take(fresh@.len() as int));
                    assert(rest0 =~= fresh@ + rest0.skip(fresh@.len() as int));
                    assert(old(self).stream() == p + rest0);
                    assert(self.stream() == fresh@.skip(end as int) + rest0.skip(
                        fresh@.len() as int,
                    ));
                    assert(old(self).stream() =~= out@ + self.stream());
                    assert(old(self).source().delivers_fully() && len <= STAGING_CAPACITY ==> out@
                        =~= old(self).stream().take(
                        at_most(len as int, old(self).stream().len() as int),
                    ));
                    assert(self.source().rest() == old(self).source().rest().skip(
                        fresh@.len() as int,
                    ));
                }
            }
            assert(self.staged_from(&*old(self), len as int, fresh@, out@));
            assert(fresh@ =~= self.pulled().skip(old(self).pulled().len() as int));
            Ok(out)
        } else {
            assert(self.taken@ == old(self).taken@ + out@);
            assert(old(self).stream() =~= out@ + self.stream());
            assert(out@ =~= old(self).stream().take(
                at_most(len as int, old(self).stream().len() as int),
            ));
            Ok(out)
        }
    }
}

} // verus!
