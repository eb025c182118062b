//! From the target that a user names to the address that is asked for the
//! time: a scheme in front where there is none, and the well-known path at
//! the end.

use vstd::prelude::*;
use vstd::string::*;
use crate::http::TIME_PATH;

verus! {

/// The scheme of the single-shot transport without transport security.
pub const HTTP_SCHEME: &'static str = "http://";

/// The scheme of transport security, which the session transport needs.
pub const HTTPS_SCHEME: &'static str = "https://";

/// Whether `s` begins with `p`.
pub open spec fn has_prefix(s: Seq<char>, p: Seq<char>) -> bool {
    p.len() <= s.len() && s.subrange(0, p.len() as int) == p
}

/// Whether `s` ends with `p`.
pub open spec fn has_suffix(s: Seq<char>, p: Seq<char>) -> bool {
    p.len() <= s.len() && s.subrange(s.len() - p.len(), s.len() as int) == p
}

/// `s` without the run of `c` at its end.
pub open spec fn without_trailing(s: Seq<char>, c: char) -> Seq<char>
    decreases s.len(),
{
    if s.len() > 0 && s.last() == c {
        without_trailing(s.drop_last(), c)
    } else {
        s
    }
}

/// The target with the well-known path at its end: as it is where it ends
/// with that path already; otherwise its trailing slashes give way to the
/// path.
pub open spec fn with_time_path(url: Seq<char>) -> Seq<char> {
    if has_suffix(url, TIME_PATH@) {
        url
    } else {
        without_trailing(url, '/') + TIME_PATH@
    }
}

/// The address for the single-shot transport: a target that names neither
/// scheme is taken to mean the one without transport security.
pub open spec fn http_url_of(target: Seq<char>) -> Seq<char> {
    with_time_path(
        if has_prefix(target, HTTP_SCHEME@) || has_prefix(target, HTTPS_SCHEME@) {
            target
        } else {
            HTTP_SCHEME@ + target
        },
    )
}

/// The address for the session transport, which always has transport
/// security: the other scheme is replaced, and a target without a scheme
/// gets this one.
pub open spec fn session_url_of(target: Seq<char>) -> Seq<char> {
    with_time_path(
        if has_prefix(target, HTTPS_SCHEME@) {
            target
        } else if has_prefix(target, HTTP_SCHEME@) {
            HTTPS_SCHEME@ + target.skip(HTTP_SCHEME@.len() as int)
        } else {
            HTTPS_SCHEME@ + target
        },
    )
}

fn starts_with(s: &str, p: &str) -> (b: bool)
    ensures
        b == has_prefix(s@, p@),
{
    let n: usize = s.unicode_len();
    let m: usize = p.unicode_len();
    if m > n {
        return false;
    }
    let mut i: usize = 0;
    while i < m
        invariant
            i <= m <= n,
            n == s@.len(),
            m == p@.len(),
            forall|j: int| 0 <= j < i ==> s@[j] == p@[j],
        decreases m - i,
    {
        if s.get_char(i) != p.get_char(i) {
            assert(s@.subrange(0, m as int)[i as int] != p@[i as int]);
            return false;
        }
        i = i + 1;
    }
    assert(s@.subrange(0, m as int) =~= p@);
    true
}

fn ends_with(s: &str, p: &str) -> (b: bool)
    ensures
        b == has_suffix(s@, p@),
{
    let n: usize = s.unicode_len();
    let m: usize = p.unicode_len();
    if m > n {
        return false;
    }
    let from: usize = n - m;
    let mut i: usize = 0;
    while i < m
        invariant
            i <= m <= n,
            from == n - m,
            n == s@.len(),
            m == p@.len(),
            forall|j: int| 0 <= j < i ==> s@[from + j] == p@[j],
        decreases m - i,
    {
        if s.get_char(from + i) != p.get_char(i) {
            assert(s@.subrange(from as int, n as int)[i as int] != p@[i as int]);
            return false;
        }
        i = i + 1;
    }
    assert(s@.subrange(from as int, n as int) =~= p@);
    true
}

fn trimmed_len(s: &str, c: char) -> (n: usize)
    ensures
        n <= s@.len(),
        s@.subrange(0, n as int) == without_trailing(s@, c),
{
    let mut n: usize = s.unicode_len();
    assert(s@.subrange(0, n as int) =~= s@);
    while n > 0 && s.get_char(n - 1) == c
        invariant
            n <= s@.len(),
            without_trailing(s@.subrange(0, n as int), c) == without_trailing(s@, c),
        decreases n,
    {
        assert(s@.subrange(0, n as int).drop_last() =~= s@.subrange(0, n - 1));
        n = n - 1;
    }
    n
}

fn append_time_path(url: String) -> (out: String)
    ensures
        out@ == with_time_path(url@),
{
    if ends_with(url.as_str(), TIME_PATH) {
        url
    } else {
        let n: usize = trimmed_len(url.as_str(), '/');
        String::from_str(url.as_str().substring_char(0, n)).concat(TIME_PATH)
    }
}

/// The address that the single-shot transport asks, for the target that the
/// user named.
pub fn http_url(target: &str) -> (url: String)
    ensures
        url@ == http_url_of(target@),
{
    let with_scheme: String = if starts_with(target, HTTP_SCHEME) || starts_with(
        target,
        HTTPS_SCHEME,
    ) {
        String::from_str(target)
    } else {
        String::from_str(HTTP_SCHEME).concat(target)
    };
    append_time_path(with_scheme)
}

/// The address that the session transport connects to, for the target that
/// the user named.
pub fn session_url(target: &str) -> (url: String)
    ensures
        url@ == session_url_of(target@),
{
    let with_scheme: String = if starts_with(target, HTTPS_SCHEME) {
        String::from_str(target)
    } else if starts_with(target, HTTP_SCHEME) {
        let from: usize = HTTP_SCHEME.unicode_len();
        let to: usize = target.unicode_len();
        let rest = target.substring_char(from, to);
        assert(rest@ =~= target@.skip(HTTP_SCHEME@.len() as int));
        String::from_str(HTTPS_SCHEME).concat(rest)
    } else {
        String::from_str(HTTPS_SCHEME).concat(target)
    };
    append_time_path(with_scheme)
}

/// Every address ends with the well-known path.
pub proof fn lemma_url_ends_with_time_path(target: Seq<char>)
    ensures
        has_suffix(http_url_of(target), TIME_PATH@),
        has_suffix(session_url_of(target), TIME_PATH@),
        has_suffix(with_time_path(target), TIME_PATH@),
{
    lemma_with_time_path(target);
    lemma_with_time_path(HTTP_SCHEME@ + target);
    lemma_with_time_path(HTTPS_SCHEME@ + target);
    lemma_with_time_path(HTTPS_SCHEME@ + target.skip(HTTP_SCHEME@.len() as int));
}

proof fn lemma_with_time_path(url: Seq<char>)
    ensures
        has_suffix(with_time_path(url), TIME_PATH@),
{
    if !has_suffix(url, TIME_PATH@) {
        let head = without_trailing(url, '/');
        let all = head + TIME_PATH@;
        assert(all.subrange(all.len() - TIME_PATH@.len(), all.len() as int) =~= TIME_PATH@);
    }
}

} // verus!
