//! Network share addresses: which URIs use the private SMB/NFS transport,
//! normalisation of typed addresses, and the host part of a share URI.
use std::ops::Range;
use vstd::prelude::*;

use crate::text::{
    all_ascii_digits, ascii_lower_seq, ends_with, first_char, first_occurrence, last_char,
    only_ascii_digits, rfind_char, to_ascii_lower, is_suffix, chars_of, contains_char, extend, find_char_from, find_from, has_char, is_prefix, occurs_at,
    slice_of, starts_with, string_of, byte_pos, byte_offset, char_index_of_byte,
    lemma_byte_pos_increasing,
};

verus! {

/// One listed share, directory or photo.
#[derive(Clone, Debug)]
pub struct Entry {
    pub name: String,
    pub uri: String,
    pub is_dir: bool,
    /// Best-effort PC/server name, empty when unknown.
    pub server: String,
}

/// Plain-value view of an [`Entry`].
pub struct EntryView {
    pub name: Seq<char>,
    pub uri: Seq<char>,
    pub is_dir: bool,
    pub server: Seq<char>,
}

impl Entry {
    pub open spec fn view(&self) -> EntryView {
        EntryView { name: self.name@, uri: self.uri@, is_dir: self.is_dir, server: self.server@ }
    }
}

/// The views of a list of entries.
pub open spec fn entries_view(entries: Seq<Entry>) -> Seq<EntryView> {
    entries.map_values(|e: Entry| e.view())
}

/// A copy of an entry.
pub fn copy_entry(e: &Entry) -> (c: Entry)
    ensures
        c == *e,
{
    Entry { name: e.name.clone(), uri: e.uri.clone(), is_dir: e.is_dir, server: e.server.clone() }
}

/// What a stat of a share path reports.
#[derive(Clone, Debug)]
pub struct Metadata {
    pub size: u64,
    pub mtime: Option<i64>,
    pub is_dir: bool,
}

pub open spec fn smb_scheme() -> Seq<char> {
    seq!['s', 'm', 'b', ':', '/', '/']
}

pub open spec fn nfs_scheme() -> Seq<char> {
    seq!['n', 'f', 's', ':', '/', '/']
}

pub open spec fn scheme_separator() -> Seq<char> {
    seq![':', '/', '/']
}

pub open spec fn network_root() -> Seq<char> {
    seq!['n', 'e', 't', 'w', 'o', 'r', 'k', ':', '/', '/', '/']
}

pub open spec fn local_suffix() -> Seq<char> {
    seq!['.', 'l', 'o', 'c', 'a', 'l']
}

pub(crate) fn smb_scheme_chars() -> (v: Vec<char>)
    ensures
        v@ == smb_scheme(),
{
    let v = vec!['s', 'm', 'b', ':', '/', '/'];
    assert(v@ =~= smb_scheme());
    v
}

pub(crate) fn nfs_scheme_chars() -> (v: Vec<char>)
    ensures
        v@ == nfs_scheme(),
{
    let v = vec!['n', 'f', 's', ':', '/', '/'];
    assert(v@ =~= nfs_scheme());
    v
}

/// Whether a URI uses the private direct transport (`nfs://` or `smb://`).
pub open spec fn spec_private(uri: Seq<char>) -> bool {
    is_prefix(nfs_scheme(), uri) || is_prefix(smb_scheme(), uri)
}

/// Whether a URI is served by the private SMB/NFS transport.
pub fn private(uri: &str) -> (b: bool)
    ensures
        b == spec_private(uri@),
{
    let u = chars_of(uri);
    starts_with(&u, &nfs_scheme_chars()) || starts_with(&u, &smb_scheme_chars())
}

/// Whether `c` has the Unicode White_Space property (what `str::trim`
/// removes).
pub open spec fn is_white_space(c: char) -> bool {
    ||| '\t' <= c <= '\r'
    ||| c == ' '
    ||| c == '\u{85}'
    ||| c == '\u{A0}'
    ||| c == '\u{1680}'
    ||| '\u{2000}' <= c <= '\u{200A}'
    ||| c == '\u{2028}'
    ||| c == '\u{2029}'
    ||| c == '\u{202F}'
    ||| c == '\u{205F}'
    ||| c == '\u{3000}'
}

fn white_space(c: char) -> (b: bool)
    ensures
        b == is_white_space(c),
{
    ('\t' <= c && c <= '\r') || c == ' ' || c == '\u{85}' || c == '\u{A0}' || c == '\u{1680}' || (
    '\u{2000}' <= c && c <= '\u{200A}') || c == '\u{2028}' || c == '\u{2029}' || c == '\u{202F}'
        || c == '\u{205F}' || c == '\u{3000}'
}

/// `s` without leading white space.
pub open spec fn spec_trim_start(s: Seq<char>) -> Seq<char>
    decreases s.len(),
{
    if s.len() > 0 && is_white_space(s[0]) {
        spec_trim_start(s.drop_first())
    } else {
        s
    }
}

/// `s` without trailing white space.
pub open spec fn spec_trim_end(s: Seq<char>) -> Seq<char>
    decreases s.len(),
{
    if s.len() > 0 && is_white_space(s.last()) {
        spec_trim_end(s.drop_last())
    } else {
        s
    }
}

/// `s` without trailing `/`.
pub open spec fn spec_trim_end_slashes(s: Seq<char>) -> Seq<char>
    decreases s.len(),
{
    if s.len() > 0 && s.last() == '/' {
        spec_trim_end_slashes(s.drop_last())
    } else {
        s
    }
}

/// `s` without its trailing `/` characters (`trim_end_matches('/')`).
pub fn trim_end_slashes(s: &[char]) -> (out: Vec<char>)
    ensures
        out@ == spec_trim_end_slashes(s@),
{
    let mut b: usize = s.len();
    assert(s@.subrange(0, s@.len() as int) =~= s@);
    while b > 0 && s[b - 1] == '/'
        invariant
            b <= s@.len(),
            spec_trim_end_slashes(s@.subrange(0, b as int)) == spec_trim_end_slashes(s@),
        decreases b,
    {
        assert(s@.subrange(0, b as int).drop_last() =~= s@.subrange(0, b - 1));
        b -= 1;
    }
    slice_of(s, 0, b)
}

/// `s` without white space at either end (`str::trim`).
pub open spec fn spec_trim(s: Seq<char>) -> Seq<char> {
    spec_trim_end(spec_trim_start(s))
}

pub(crate) fn trim_chars(s: &[char]) -> (out: Vec<char>)
    ensures
        out@ == spec_trim(s@),
{
    let mut a: usize = 0;
    assert(s@.skip(0) =~= s@);
    while a < s.len() && white_space(s[a])
        invariant
            0 <= a <= s@.len(),
            spec_trim_start(s@.skip(a as int)) == spec_trim_start(s@),
        decreases s@.len() - a,
    {
        assert(s@.skip(a as int).drop_first() =~= s@.skip(a + 1));
        a += 1;
    }
    assert(spec_trim_start(s@) == s@.skip(a as int));
    let mut b: usize = s.len();
    assert(s@.subrange(a as int, s@.len() as int) =~= s@.skip(a as int));
    while b > a && white_space(s[b - 1])
        invariant
            a <= b <= s@.len(),
            spec_trim_end(s@.subrange(a as int, b as int)) == spec_trim_end(s@.skip(a as int)),
        decreases b,
    {
        assert(s@.subrange(a as int, b as int).drop_last() =~= s@.subrange(a as int, b - 1));
        b -= 1;
    }
    slice_of(s, a, b)
}

/// Every `\` replaced by `/`.
pub open spec fn spec_forward_slashes(s: Seq<char>) -> Seq<char> {
    s.map_values(|c: char| if c == '\\' { '/' } else { c })
}

/// The SMB URI for a typed host and path: `smb://host/` without a path,
/// else `smb://host/path`.
pub open spec fn spec_smb_uri(host: Seq<char>, path: Seq<char>) -> Seq<char> {
    smb_scheme() + host + seq!['/'] + path
}

/// The first `/` of `s`, splitting it into host and path; the whole of `s`
/// and an empty path when it holds none.
pub open spec fn spec_split_host(s: Seq<char>) -> (Seq<char>, Seq<char>) {
    if has_char(s, '/') {
        let k = choose|k: int|
            0 <= k < s.len() && s[k] == '/' && forall|j: int| 0 <= j < k ==> s[j] != '/';
        (s.take(k), s.skip(k + 1))
    } else {
        (s, Seq::empty())
    }
}

/// A typed address after the leading white space, trailing slashes and an
/// initial `//` are removed and `\` is read as `/`.
pub open spec fn spec_forward_address(trimmed: Seq<char>) -> Seq<char> {
    let slashed = spec_trim_end_slashes(spec_forward_slashes(trimmed));
    if is_prefix(seq!['/', '/'], slashed) {
        slashed.skip(2)
    } else {
        slashed
    }
}

/// What a typed network address becomes: `None` for an empty input, an
/// address with another scheme, an empty host or one holding `@`; explicit
/// `smb://`/`nfs://` URIs and `network:///` are kept (trimmed); anything else
/// (bare hosts, `host/path`, UNC `\\host\share`) becomes an `smb://` URI.
pub open spec fn spec_normalize_input(input: Seq<char>) -> Option<Seq<char>> {
    let trimmed = spec_trim(input);
    if trimmed.len() == 0 {
        None
    } else if trimmed == network_root() || is_prefix(smb_scheme(), trimmed) || is_prefix(
        nfs_scheme(),
        trimmed,
    ) {
        Some(trimmed)
    } else {
        let forward = spec_forward_address(trimmed);
        if exists|i: int| #[trigger] occurs_at(forward, scheme_separator(), i) {
            None
        } else {
            let (host, path) = spec_split_host(forward);
            if host.len() == 0 || has_char(host, '@') {
                None
            } else {
                Some(spec_smb_uri(host, path))
            }
        }
    }
}

fn forward_address(trimmed: &[char]) -> (forward: Vec<char>)
    ensures
        forward@ == spec_forward_address(trimmed@),
{
    let mut slashed: Vec<char> = Vec::new();
    let mut i: usize = 0;
    while i < trimmed.len()
        invariant
            0 <= i <= trimmed@.len(),
            slashed@ == spec_forward_slashes(trimmed@.take(i as int)),
        decreases trimmed@.len() - i,
    {
        let c = trimmed[i];
        slashed.push(if c == '\\' { '/' } else { c });
        assert(spec_forward_slashes(trimmed@.take(i + 1)) =~= spec_forward_slashes(
            trimmed@.take(i as int),
        ).push(if c == '\\' { '/' } else { c }));
        i += 1;
    }
    assert(trimmed@.take(trimmed@.len() as int) =~= trimmed@);
    let mut end = slashed.len();
    assert(slashed@.take(end as int) =~= slashed@);
    while end > 0 && slashed[end - 1] == '/'
        invariant
            end <= slashed@.len(),
            spec_trim_end_slashes(slashed@.take(end as int)) == spec_trim_end_slashes(slashed@),
        decreases end,
    {
        assert(slashed@.take(end as int).drop_last() =~= slashed@.take(end - 1));
        end -= 1;
    }
    let stripped = slice_of(&slashed, 0, end);
    assert(stripped@ =~= slashed@.take(end as int));
    let two = vec!['/', '/'];
    assert(two@ =~= seq!['/', '/']);
    if starts_with(&stripped, &two) {
        slice_of(&stripped, 2, stripped.len())
    } else {
        stripped
    }
}

fn split_host(forward: &[char]) -> (parts: (Vec<char>, Vec<char>))
    ensures
        (parts.0@, parts.1@) == spec_split_host(forward@),
{
    match find_char_from(forward, '/', 0) {
        Some(k) => {
            assert(forward@.len() == forward.len());
            (slice_of(forward, 0, k), slice_of(forward, k + 1, forward.len()))
        },
        None => {
            assert(!has_char(forward@, '/'));
            (slice_of(forward, 0, forward.len()), Vec::new())
        },
    }
}

/// Turn an address typed into the picker into a canonical share URI.
pub fn normalize_input(input: &str) -> (uri: Option<String>)
    ensures
        match uri {
            Some(u) => spec_normalize_input(input@) == Some(u@),
            None => spec_normalize_input(input@) is None,
        },
{
    let all = chars_of(input);
    let trimmed = trim_chars(&all);
    if trimmed.len() == 0 {
        return None;
    }
    let root = vec!['n', 'e', 't', 'w', 'o', 'r', 'k', ':', '/', '/', '/'];
    assert(root@ =~= network_root());
    let is_root = trimmed.len() == root.len() && starts_with(&trimmed, &root);
    proof {
        if trimmed@.len() == root@.len() {
            assert(trimmed@.subrange(0, root@.len() as int) =~= trimmed@);
        }
    }
    if is_root || starts_with(&trimmed, &smb_scheme_chars()) || starts_with(
        &trimmed,
        &nfs_scheme_chars(),
    ) {
        return Some(string_of(&trimmed));
    }
    let forward = forward_address(&trimmed);
    let sep = vec![':', '/', '/'];
    assert(sep@ =~= scheme_separator());
    if let Some(_) = find_from(&forward, &sep, 0) {
        return None;
    }
    let (host, path) = split_host(&forward);
    if host.len() == 0 || contains_char(&host, '@') {
        return None;
    }
    let mut uri = smb_scheme_chars();
    extend(&mut uri, &host);
    uri.push('/');
    extend(&mut uri, &path);
    assert(uri@ =~= spec_smb_uri(host@, path@));
    Some(string_of(&uri))
}

/// The host of a share URI and its character positions `[start, end)`:
/// the authority after the first `://`, up to the next `/`, without a
/// trailing `:port` of ASCII digits; `None` without `://`, for an empty
/// authority, one holding `@` (credentials) or a bracketed one.
pub open spec fn spec_uri_host(u: Seq<char>) -> Option<(Seq<char>, int, int)> {
    match first_occurrence(u, scheme_separator(), 0) {
        None => None,
        Some(i) => {
            let a = i + 3;
            let e = match first_char(u, '/', a) {
                Some(j) => j,
                None => u.len() as int,
            };
            let auth = u.subrange(a, e);
            if auth.len() == 0 || has_char(auth, '@') || auth[0] == '[' {
                None
            } else {
                let host = match last_char(auth, ':') {
                    Some(k) => if k + 1 < auth.len() && all_ascii_digits(auth.skip(k + 1)) {
                        auth.take(k)
                    } else {
                        auth
                    },
                    None => auth,
                };
                Some((host, a, a + host.len()))
            }
        },
    }
}

/// Whether `range` holds the UTF-8 byte offsets of character positions
/// `start` and `end` of `u`, with `0 <= start <= end <= u.len()`.
pub open spec fn is_byte_range(u: Seq<char>, start: int, end: int, range: Range<usize>) -> bool {
    &&& 0 <= start <= end <= u.len()
    &&& range.start == byte_pos(u, start)
    &&& range.end == byte_pos(u, end)
}

/// Host of a share URI with its byte range in the URI.
pub fn uri_host(uri: &str) -> (found: Option<(String, Range<usize>)>)
    ensures
        match found {
            Some((host, range)) => spec_uri_host(uri@) matches Some((h, s, e)) && h == host@
                && is_byte_range(uri@, s, e, range),
            None => spec_uri_host(uri@) is None,
        },
{
    let u = chars_of(uri);
    let sep = vec![':', '/', '/'];
    assert(sep@ =~= scheme_separator());
    let i = match find_from(&u, &sep, 0) {
        Some(i) => i,
        None => return None,
    };
    assert(u@.len() == u.len());
    let a = i + 3;
    let e = match find_char_from(&u, '/', a) {
        Some(j) => j,
        None => u.len(),
    };
    let auth = slice_of(&u, a, e);
    if auth.len() == 0 || contains_char(&auth, '@') || auth[0] == '[' {
        return None;
    }
    let host = match rfind_char(&auth, ':') {
        Some(k) => {
            if k + 1 < auth.len() && only_ascii_digits(&slice_of(&auth, k + 1, auth.len())) {
                assert(auth@.subrange(k + 1, auth@.len() as int) =~= auth@.skip(k + 1));
                slice_of(&auth, 0, k)
            } else {
                assert(auth@.subrange(k + 1, auth@.len() as int) =~= auth@.skip(k + 1));
                auth.clone()
            }
        },
        None => auth.clone(),
    };
    assert(host@ == auth@.take(host@.len() as int) || host@ == auth@);
    let end = a + host.len();
    let total = uri.as_bytes().len();
    assert(u@.take(u@.len() as int) =~= u@);
    assert(byte_pos(u@, u@.len() as int) == total);
    let byte_start = byte_offset(u.as_slice(), a);
    let byte_end = byte_offset(u.as_slice(), end);
    Some((string_of(&host), byte_start..byte_end))
}

/// `uri` with the characters in `range` replaced by `address`.
pub open spec fn spec_replace_range(u: Seq<char>, start: int, end: int, address: Seq<char>) -> Seq<char> {
    u.take(start) + address + u.skip(end)
}

/// Replace a host's byte range, as [`uri_host`] finds it, with another
/// address; the range must lie on character boundaries.
pub fn replace_host(uri: &str, range: Range<usize>, address: String) -> (routed: String)
    requires
        exists|s: int, e: int| #[trigger] is_byte_range(uri@, s, e, range),
    ensures
        forall|s: int, e: int| #[trigger] is_byte_range(uri@, s, e, range)
            ==> routed@ == spec_replace_range(uri@, s, e, address@),
{
    let u = chars_of(uri);
    let ghost (s0, e0) = choose|s: int, e: int| #[trigger] is_byte_range(uri@, s, e, range);
    assert(exists|j: int| 0 <= j <= u@.len() && #[trigger] byte_pos(u@, j) == range.start) by {
        assert(byte_pos(u@, s0) == range.start);
    }
    assert(exists|j: int| 0 <= j <= u@.len() && #[trigger] byte_pos(u@, j) == range.end) by {
        assert(byte_pos(u@, e0) == range.end);
    }
    let start = char_index_of_byte(u.as_slice(), range.start);
    let end = char_index_of_byte(u.as_slice(), range.end);
    proof {
        assert forall|s: int, e: int| #[trigger] is_byte_range(uri@, s, e, range) implies s == start && e
            == end by {
            if s < start {
                lemma_byte_pos_increasing(u@, s, start as int);
            } else if s > start {
                lemma_byte_pos_increasing(u@, start as int, s);
            }
            if e < end {
                lemma_byte_pos_increasing(u@, e, end as int);
            } else if e > end {
                lemma_byte_pos_increasing(u@, end as int, e);
            }
        }
        assert(is_byte_range(uri@, s0, e0, range));
        assert(start <= end);
    }
    let mut out = slice_of(&u, 0, start);
    let addr = chars_of(address.as_str());
    extend(&mut out, &addr);
    let rest = slice_of(&u, end, u.len());
    extend(&mut out, &rest);
    assert(u@.subrange(0, start as int) =~= u@.take(start as int));
    assert(u@.subrange(end as int, u@.len() as int) =~= u@.skip(end as int));
    string_of(&out)
}

/// Whether a host is an mDNS `.local` name (ASCII case-insensitively).
pub open spec fn spec_is_local_host(host: Seq<char>) -> bool {
    is_suffix(local_suffix(), ascii_lower_seq(host))
}

/// The host of a share URI when it is an mDNS `.local` name that must be
/// resolved to an address before connecting.
pub fn local_host(uri: &str) -> (found: Option<(String, Range<usize>)>)
    ensures
        match found {
            Some((host, range)) => spec_uri_host(uri@) matches Some((h, s, e)) && h == host@
                && spec_is_local_host(host@) && is_byte_range(uri@, s, e, range),
            None => match spec_uri_host(uri@) {
                Some((host, _, _)) => !spec_is_local_host(host),
                None => true,
            },
        },
{
    match uri_host(uri) {
        None => None,
        Some((host, range)) => {
            let lower = crate::text::lower_ascii(&chars_of(host.as_str()));
            let suffix = vec!['.', 'l', 'o', 'c', 'a', 'l'];
            assert(suffix@ =~= local_suffix());
            if ends_with(&lower, &suffix) {
                Some((host, range))
            } else {
                None
            }
        },
    }
}

/// A child URI listed through a routed (numeric) address, given back the
/// host of the URI that was asked for, so stored records keep the hostname.
pub open spec fn spec_with_original_host(entry_uri: Seq<char>, original_uri: Seq<char>) -> Seq<char> {
    match (spec_uri_host(original_uri), spec_uri_host(entry_uri)) {
        (Some((host, _, _)), Some((_, start, end))) => spec_replace_range(entry_uri, start, end, host),
        _ => entry_uri,
    }
}

/// Put the host of `original_uri` back into a listed child URI.
pub fn with_original_host(entry_uri: &str, original_uri: &str) -> (uri: String)
    ensures
        uri@ == spec_with_original_host(entry_uri@, original_uri@),
{
    match (uri_host(original_uri), uri_host(entry_uri)) {
        (Some((host, _)), Some((_, range))) => {
            replace_host(entry_uri, range, host)
        },
        _ => chars_string(entry_uri),
    }
}

fn chars_string(s: &str) -> (out: String)
    ensures
        out@ == s@,
{
    string_of(&chars_of(s))
}

/// Typed `smb://` and `nfs://` addresses pass through unchanged: an input
/// that starts with one of the schemes and has no white space at either end
/// is its own normal form.
pub proof fn lemma_share_uris_pass_through(input: Seq<char>)
    requires
        is_prefix(smb_scheme(), input) || is_prefix(nfs_scheme(), input),
        !is_white_space(input.last()),
    ensures
        spec_normalize_input(input) == Some(input),
{
    assert(input.len() >= 6);
    assert(input[0] == input.subrange(0, 6)[0]);
    assert(!is_white_space(input[0]));
    assert(spec_trim_start(input) == input);
    assert(spec_trim_end(input) == input);
}

} // verus!
