use vstd::prelude::*;
use vstd::slice::slice_to_vec;
use vstd::std_specs::iter::IteratorSpec;
use vstd::utf8::{decode_utf8, valid_utf8};

verus! {

/// True when `pattern` occurs in `s` starting at index `i`.
pub open spec fn occurs_at<T>(s: Seq<T>, pattern: Seq<T>, i: int) -> bool {
    0 <= i && i + pattern.len() <= s.len() && s.subrange(i, i + pattern.len()) == pattern
}

/// The pieces of `s` that lie between non-overlapping occurrences of `sep`, found from
/// left to right, while scanning at index `k` with the current piece starting at `start`.
pub open spec fn split_from<T>(s: Seq<T>, sep: Seq<T>, start: int, k: int) -> Seq<Seq<T>>
    decreases s.len() - k,
{
    if sep.len() == 0 || k < start || k + sep.len() > s.len() {
        seq![s.subrange(start, s.len() as int)]
    } else if occurs_at(s, sep, k) {
        seq![s.subrange(start, k)] + split_from(s, sep, k + sep.len(), k + sep.len())
    } else {
        split_from(s, sep, start, k + 1)
    }
}

/// The pieces of `s` between the non-overlapping occurrences of `sep` (never empty: a text
/// without any occurrence is a single piece).
pub open spec fn split_seq<T>(s: Seq<T>, sep: Seq<T>) -> Seq<Seq<T>> {
    split_from(s, sep, 0, 0)
}

/// The first index, at or after `k`, at which `pattern` occurs in `s`.
pub open spec fn find_from<T>(s: Seq<T>, pattern: Seq<T>, k: int) -> Option<int>
    decreases s.len() + 1 - k,
{
    if k < 0 || k + pattern.len() > s.len() {
        None
    } else if occurs_at(s, pattern, k) {
        Some(k)
    } else {
        find_from(s, pattern, k + 1)
    }
}

/// Whether `pattern` occurs in `s` at index `i`.
fn matches_at(s: &[u8], pattern: &[u8], i: usize) -> (r: bool)
    requires
        i + pattern@.len() <= s@.len(),
    ensures
        r == occurs_at(s@, pattern@, i as int),
{
    let n = s.len();
    let mut k: usize = 0;
    while k < pattern.len()
        invariant
            n == s@.len(),
            i + pattern@.len() <= s@.len(),
            k <= pattern@.len(),
            forall|t: int| 0 <= t < k ==> s@[i + t] == pattern@[t],
        decreases pattern@.len() - k,
    {
        if s[i + k] != pattern[k] {
            assert(s@.subrange(i as int, i + pattern@.len())[k as int] != pattern@[k as int]);
            return false;
        }
        k = k + 1;
    }
    assert(s@.subrange(i as int, i + pattern@.len()) =~= pattern@);
    true
}

/// Index of the first occurrence of `pattern` in `chunk`, if there is one.
pub fn find_in_chunk(chunk: &[u8], pattern: &[u8]) -> (r: Option<usize>)
    ensures
        match r {
            Some(i) => occurs_at(chunk@, pattern@, i as int) && forall|j: int|
                0 <= j < i ==> !occurs_at(chunk@, pattern@, j),
            None => forall|j: int| !occurs_at(chunk@, pattern@, j),
        },
        r matches Some(i) ==> find_from(chunk@, pattern@, 0) == Some(i as int),
        r is None ==> find_from(chunk@, pattern@, 0) is None,
{
    let plen = pattern.len();
    if plen > chunk.len() {
        return None;
    }
    let last = chunk.len() - plen;
    let mut i: usize = 0;
    loop
        invariant
            plen == pattern@.len(),
            last + plen == chunk@.len(),
            i <= last,
            forall|j: int| 0 <= j < i ==> !occurs_at(chunk@, pattern@, j),
            find_from(chunk@, pattern@, 0) == find_from(chunk@, pattern@, i as int),
        decreases last - i,
    {
        if matches_at(chunk, pattern, i) {
            return Some(i);
        }
        assert(find_from(chunk@, pattern@, i as int) == find_from(chunk@, pattern@, i + 1));
        if i == last {
            return None;
        }
        i = i + 1;
    }
}

/// The views of a sequence of character vectors.
pub open spec fn views_of(v: Seq<Vec<char>>) -> Seq<Seq<char>> {
    v.map_values(|x: Vec<char>| x@)
}

/// Whether `sep` occurs in `s` at index `i`.
fn chars_match_at(s: &[char], sep: &[char], i: usize) -> (r: bool)
    requires
        i + sep@.len() <= s@.len(),
    ensures
        r == occurs_at(s@, sep@, i as int),
{
    let n = s.len();
    let mut k: usize = 0;
    while k < sep.len()
        invariant
            n == s@.len(),
            i + sep@.len() <= s@.len(),
            k <= sep@.len(),
            forall|t: int| 0 <= t < k ==> s@[i + t] == sep@[t],
        decreases sep@.len() - k,
    {
        if s[i + k] != sep[k] {
            assert(s@.subrange(i as int, i + sep@.len())[k as int] != sep@[k as int]);
            return false;
        }
        k = k + 1;
    }
    assert(s@.subrange(i as int, i + sep@.len()) =~= sep@);
    true
}

/// Whether two character sequences are equal.
pub fn chars_eq(a: &[char], b: &[char]) -> (r: bool)
    ensures
        r == (a@ == b@),
{
    if a.len() != b.len() {
        return false;
    }
    let mut k: usize = 0;
    while k < a.len()
        invariant
            a@.len() == b@.len(),
            k <= a@.len(),
            forall|t: int| 0 <= t < k ==> a@[t] == b@[t],
        decreases a@.len() - k,
    {
        if a[k] != b[k] {
            return false;
        }
        k = k + 1;
    }
    assert(a@ =~= b@);
    true
}

/// Splits `s` at each non-overlapping occurrence of `sep`, scanning from the left.
pub fn split_chars(s: &[char], sep: &[char]) -> (r: Vec<Vec<char>>)
    ensures
        views_of(r@) == split_seq(s@, sep@),
{
    let n = s.len();
    let m = sep.len();
    if m == 0 || m > n {
        let whole = slice_to_vec(s);
        let r = vec![whole];
        assert(s@.subrange(0, s@.len() as int) =~= s@);
        assert(views_of(r@) =~= split_seq(s@, sep@));
        return r;
    }
    let last = n - m;
    let mut out: Vec<Vec<char>> = Vec::new();
    let mut cur: Vec<char> = Vec::new();
    let mut start: usize = 0;
    let mut k: usize = 0;
    while k <= last
        invariant
            n == s@.len(),
            m == sep@.len(),
            0 < m <= n,
            last == n - m,
            start <= k <= n,
            cur@ == s@.subrange(start as int, k as int),
            views_of(out@) + split_from(s@, sep@, start as int, k as int) == split_seq(s@, sep@),
        decreases n - k,
    {
        if chars_match_at(s, sep, k) {
            assert(split_from(s@, sep@, start as int, k as int) == seq![s@.subrange(start as int, k as int)]
                + split_from(s@, sep@, k + m, k + m));
            let ghost before = views_of(out@);
            out.push(cur);
            assert(views_of(out@) =~= before.push(s@.subrange(start as int, k as int)));
            assert(views_of(out@) + split_from(s@, sep@, k + m, k + m) =~= before + split_from(s@, sep@, start as int, k as int));
            cur = Vec::new();
            k = k + m;
            start = k;
            assert(cur@ =~= s@.subrange(start as int, k as int));
        } else {
            assert(split_from(s@, sep@, start as int, k as int) == split_from(s@, sep@, start as int, k + 1));
            cur.push(s[k]);
            k = k + 1;
            assert(cur@ =~= s@.subrange(start as int, k as int));
        }
    }
    assert(split_from(s@, sep@, start as int, k as int) == seq![s@.subrange(start as int, n as int)]);
    while k < n
        invariant
            n == s@.len(),
            start <= k <= n,
            cur@ == s@.subrange(start as int, k as int),
        decreases n - k,
    {
        cur.push(s[k]);
        k = k + 1;
        assert(cur@ =~= s@.subrange(start as int, k as int));
    }
    let ghost before = views_of(out@);
    out.push(cur);
    assert(views_of(out@) =~= before.push(s@.subrange(start as int, n as int)));
    assert(views_of(out@) =~= split_seq(s@, sep@));
    out
}

/// Decodes bytes as UTF-8 text; `None` when they are not valid UTF-8.
///
/// Relies on `String::from_utf8`, which accepts exactly the valid UTF-8 byte sequences and
/// keeps the characters they encode.
#[verifier::external_body]
pub(crate) fn utf8_text(bytes: Vec<u8>) -> (r: Option<String>)
    ensures
        r is Some <==> valid_utf8(bytes@),
        r is Some ==> r->Some_0@ == decode_utf8(bytes@),
{
    String::from_utf8(bytes).ok()
}

/// The characters of `s`, in order.
pub fn chars_of(s: &str) -> (r: Vec<char>)
    ensures
        r@ == s@,
{
    broadcast use vstd::string::axiom_spec_iter, vstd::string::next_postcondition;

    let mut it = s.chars();
    let mut out: Vec<char> = Vec::new();
    loop
        invariant
            it.obeys_prophetic_iter_laws(),
            it.decrease() is Some,
            out@ + it.remaining() == s@,
        ensures
            out@ == s@,
        decreases it.decrease()->Some_0,
    {
        match it.next() {
            Some(c) => {
                assert(out@.push(c) + it.remaining() =~= s@);
                out.push(c);
            },
            None => {
                assert(out@ =~= s@);
                break;
            },
        }
    }
    out
}

/// The text made of the characters of `c`, in order.
///
/// Relies on `String`'s `FromIterator<char>`: it appends each character in turn.
#[verifier::external_body]
pub(crate) fn string_of(c: &[char]) -> (r: String)
    ensures
        r@ == c@,
{
    c.iter().collect()
}

} // verus!
