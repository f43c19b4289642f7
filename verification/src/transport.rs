//! The direct NFS transport's view of a URI: the server and the path
//! segments it names, the paths tried when mounting, and what a stat or a
//! directory listing reports.
use vstd::prelude::*;

use crate::nfs::{hex_value, path_segments, spec_join, spec_segments};
use crate::shares::nfs_scheme;
use crate::text::{chars_of, extend, first_char, find_char_from, is_prefix, slice_of, starts_with, string_of};

verus! {

/// The server and path segments of an `nfs://` URI.
#[derive(Debug, Clone)]
pub struct Target {
    pub host: String,
    pub segments: Vec<String>,
}

/// What a directory listing of the transport reports of one child.
#[derive(Debug, Clone)]
pub struct Entry {
    pub name: String,
    pub is_dir: bool,
    pub size: u64,
    pub mtime: i64,
}

/// What a stat of the transport reports.
#[derive(Debug, Clone)]
pub struct Metadata {
    pub is_dir: bool,
    pub size: u64,
    pub mtime: i64,
}

/// The value of two bytes read as a base-16 `u8` the way
/// `u8::from_str_radix(_, 16)` reads them: two hexadecimal digits, or a `+`
/// sign and one digit.
pub open spec fn radix16_pair(a: u8, b: u8) -> Option<u8> {
    if a == 0x2B {
        hex_value(b)
    } else {
        match (hex_value(a), hex_value(b)) {
            (Some(h), Some(l)) => Some((h * 16 + l) as u8),
            _ => None,
        }
    }
}

fn radix16_pair_of(a: u8, b: u8) -> (v: Option<u8>)
    ensures
        v == radix16_pair(a, b),
{
    let low = if 0x30 <= b && b <= 0x39 {
        Some(b - 0x30)
    } else if 0x61 <= b && b <= 0x66 {
        Some(b - 0x61 + 10)
    } else if 0x41 <= b && b <= 0x46 {
        Some(b - 0x41 + 10)
    } else {
        None
    };
    if a == 0x2B {
        return low;
    }
    let high = if 0x30 <= a && a <= 0x39 {
        Some(a - 0x30)
    } else if 0x61 <= a && a <= 0x66 {
        Some(a - 0x61 + 10)
    } else if 0x41 <= a && a <= 0x46 {
        Some(a - 0x41 + 10)
    } else {
        None
    };
    match (high, low) {
        (Some(h), Some(l)) => Some(h * 16 + l),
        _ => None,
    }
}

/// Lenient percent-decoding of bytes: a `%` followed by two more bytes that
/// read as a base-16 value becomes that byte; every other byte is kept.
pub open spec fn lossy_bytes(b: Seq<u8>) -> Seq<u8>
    decreases b.len(),
{
    if b.len() == 0 {
        b
    } else if b[0] == 0x25 && b.len() >= 3 && radix16_pair(b[1], b[2]) is Some {
        seq![radix16_pair(b[1], b[2])->0] + lossy_bytes(b.skip(3))
    } else {
        seq![b[0]] + lossy_bytes(b.skip(1))
    }
}

/// Every `%` followed by two more bytes is followed by whole characters:
/// the text can be cut right after those two bytes.
pub open spec fn escapes_cut_cleanly(b: Seq<u8>) -> bool {
    forall|i: int|
        0 <= i && i + 2 < b.len() && #[trigger] b[i] == 0x25 ==> vstd::utf8::is_char_boundary(b, i + 3)
}

/// The text that bytes spell, with each invalid UTF-8 sequence replaced by
/// U+FFFD, as `String::from_utf8_lossy` makes it.
pub uninterp spec fn utf8_lossy(bytes: Seq<u8>) -> Seq<char>;

/// `String::from_utf8_lossy`: its result is named [`utf8_lossy`] of the
/// bytes, and for valid UTF-8 it is the text they encode (its documented
/// behaviour); what replaces invalid sequences is not stated.
#[verifier::external_body]
pub(crate) fn lossy_string(bytes: &[u8]) -> (s: String)
    ensures
        s@ == utf8_lossy(bytes@),
        vstd::utf8::valid_utf8(bytes@) ==> s@ == vstd::utf8::decode_utf8(bytes@),
{
    String::from_utf8_lossy(bytes).into_owned()
}

/// The text a percent-encoded path stands for, read leniently.
pub open spec fn spec_lossy_decode(value: Seq<char>) -> Seq<char> {
    utf8_lossy(lossy_bytes(vstd::utf8::encode_utf8(value)))
}

/// Lenient percent-decoding of a path: `%XX` escapes that read as a byte
/// become that byte, anything else stays as it is, and invalid UTF-8 in the
/// result is replaced.
pub fn decode(value: &str) -> (text: String)
    requires
        escapes_cut_cleanly(vstd::utf8::encode_utf8(value@)),
    ensures
        text@ == spec_lossy_decode(value@),
        vstd::utf8::valid_utf8(lossy_bytes(vstd::utf8::encode_utf8(value@))) ==> text@ == vstd::utf8::decode_utf8(
            lossy_bytes(vstd::utf8::encode_utf8(value@)),
        ),
{
    let b = value.as_bytes();
    let mut out: Vec<u8> = Vec::new();
    let mut i: usize = 0;
    proof {
        assert(b@.skip(0) =~= b@);
        assert(out@ + lossy_bytes(b@) =~= lossy_bytes(b@));
    }
    while i < b.len()
        invariant
            0 <= i <= b@.len(),
            b@ == vstd::utf8::encode_utf8(value@),
            lossy_bytes(b@) == out@ + lossy_bytes(b@.skip(i as int)),
        decreases b@.len() - i,
    {
        let ghost rest = b@.skip(i as int);
        if b[i] == 0x25 && b.len() - i > 2 {
            if let Some(v) = radix16_pair_of(b[i + 1], b[i + 2]) {
                assert(rest.skip(3) =~= b@.skip(i + 3));
                let ghost before = out@;
                out.push(v);
                assert(before + (seq![v] + lossy_bytes(b@.skip(i + 3))) =~= out@ + lossy_bytes(b@.skip(i + 3)));
                i += 3;
                continue;
            }
        }
        assert(rest.skip(1) =~= b@.skip(i + 1));
        let ghost before = out@;
        out.push(b[i]);
        assert(before + (seq![b@[i as int]] + lossy_bytes(b@.skip(i + 1))) =~= out@ + lossy_bytes(b@.skip(i + 1)));
        i += 1;
    }
    assert(b@.skip(i as int) =~= Seq::<u8>::empty());
    assert(out@ + Seq::<u8>::empty() =~= out@);
    lossy_string(out.as_slice())
}

/// Whether a character is trimmed from an authority: `[` or `]`.
pub open spec fn is_bracket(c: char) -> bool {
    c == '[' || c == ']'
}

/// `s` without leading brackets.
pub open spec fn trim_start_brackets(s: Seq<char>) -> Seq<char>
    decreases s.len(),
{
    if s.len() > 0 && is_bracket(s[0]) {
        trim_start_brackets(s.drop_first())
    } else {
        s
    }
}

/// `s` without trailing brackets.
pub open spec fn trim_end_brackets(s: Seq<char>) -> Seq<char>
    decreases s.len(),
{
    if s.len() > 0 && is_bracket(s.last()) {
        trim_end_brackets(s.drop_last())
    } else {
        s
    }
}

/// The server of an authority: brackets trimmed from both ends, then
/// everything before the first `:`.
pub open spec fn target_host(authority: Seq<char>) -> Seq<char> {
    let t = trim_end_brackets(trim_start_brackets(authority));
    match first_char(t, ':', 0) {
        Some(k) => t.take(k),
        None => t,
    }
}

/// The part of an `nfs://` URI after the first `/` following the scheme.
pub open spec fn uri_path(u: Seq<char>) -> Seq<char> {
    let rest = u.skip(6);
    match first_char(rest, '/', 0) {
        Some(j) => rest.skip(j + 1),
        None => Seq::empty(),
    }
}

/// The server and path segments of an `nfs://` URI, or why there are none.
pub open spec fn spec_target(u: Seq<char>) -> Result<(Seq<char>, Seq<Seq<char>>), Seq<char>> {
    if !is_prefix(nfs_scheme(), u) {
        Err("not an nfs URI"@)
    } else {
        let rest = u.skip(6);
        match first_char(rest, '/', 0) {
            None => Err("NFS URI has no export"@),
            Some(j) => {
                let host = target_host(rest.take(j));
                if host.len() == 0 {
                    Err("NFS URI has no host"@)
                } else {
                    let segments = spec_segments(spec_lossy_decode(rest.skip(j + 1)));
                    if segments.len() == 0 {
                        Err("NFS URI has no export"@)
                    } else {
                        Ok((host, segments))
                    }
                }
            },
        }
    }
}

fn target_host_of(authority: &[char]) -> (host: Vec<char>)
    ensures
        host@ == target_host(authority@),
{
    let mut a: usize = 0;
    assert(authority@.skip(0) =~= authority@);
    while a < authority.len() && (authority[a] == '[' || authority[a] == ']')
        invariant
            0 <= a <= authority@.len(),
            trim_start_brackets(authority@.skip(a as int)) == trim_start_brackets(authority@),
        decreases authority@.len() - a,
    {
        assert(authority@.skip(a as int).drop_first() =~= authority@.skip(a + 1));
        a += 1;
    }
    assert(trim_start_brackets(authority@) == authority@.skip(a as int));
    let mut b: usize = authority.len();
    assert(authority@.subrange(a as int, authority@.len() as int) =~= authority@.skip(a as int));
    while b > a && (authority[b - 1] == '[' || authority[b - 1] == ']')
        invariant
            a <= b <= authority@.len(),
            trim_end_brackets(authority@.subrange(a as int, b as int)) == trim_end_brackets(
                authority@.skip(a as int),
            ),
        decreases b,
    {
        assert(authority@.subrange(a as int, b as int).drop_last() =~= authority@.subrange(a as int, b - 1));
        b -= 1;
    }
    let t = slice_of(authority, a, b);
    match find_char_from(&t, ':', 0) {
        Some(k) => {
            let h = slice_of(&t, 0, k);
            assert(h@ =~= t@.take(k as int));
            h
        },
        None => t,
    }
}

/// Whether [`target`] gets as far as decoding the path: the URI is an
/// `nfs://` one with a `/` after the authority and a non-empty host.
pub open spec fn target_decodes_path(u: Seq<char>) -> bool {
    &&& is_prefix(nfs_scheme(), u)
    &&& match first_char(u.skip(6), '/', 0) {
        Some(j) => target_host(u.skip(6).take(j)).len() > 0,
        None => false,
    }
}

/// The server and path segments of an `nfs://` URI: the host is the
/// authority without brackets and port; the segments are the non-empty
/// pieces of the leniently decoded path. Errors name what is missing. A
/// path that is decoded must not have an escape whose decoded byte ends
/// inside a character.
pub fn target(uri: &str) -> (result: Result<Target, String>)
    requires
        target_decodes_path(uri@) ==> escapes_cut_cleanly(vstd::utf8::encode_utf8(uri_path(uri@))),
    ensures
        match result {
            Ok(t) => spec_target(uri@) == Ok::<(Seq<char>, Seq<Seq<char>>), Seq<char>>(
                (t.host@, t.segments@.map_values(|s: String| s@)),
            ),
            Err(e) => spec_target(uri@) == Err::<(Seq<char>, Seq<Seq<char>>), Seq<char>>(e@),
        },
{
    broadcast use vstd::string::group_string_axioms;

    let u = chars_of(uri);
    if !starts_with(&u, &crate::shares::nfs_scheme_chars()) {
        return Err("not an nfs URI".to_string());
    }
    assert(u@.len() == u.len());
    let rest = slice_of(&u, 6, u.len());
    assert(rest@ =~= u@.skip(6));
    let j = match find_char_from(&rest, '/', 0) {
        Some(j) => j,
        None => return Err("NFS URI has no export".to_string()),
    };
    assert(j < rest@.len());
    let authority = slice_of(&rest, 0, j);
    assert(authority@ =~= rest@.take(j as int));
    let host = target_host_of(&authority);
    if host.len() == 0 {
        return Err("NFS URI has no host".to_string());
    }
    let path = slice_of(&rest, j + 1, rest.len());
    assert(path@ =~= rest@.skip(j + 1));
    let path_text = string_of(&path);
    let decoded = decode(path_text.as_str());
    let pieces = path_segments(&chars_of(decoded.as_str()));
    if pieces.len() == 0 {
        return Err("NFS URI has no export".to_string());
    }
    let ghost pv = pieces@.map_values(|v: Vec<char>| v@);
    let mut segments: Vec<String> = Vec::new();
    let mut i: usize = 0;
    while i < pieces.len()
        invariant
            0 <= i <= pieces@.len(),
            pv == pieces@.map_values(|v: Vec<char>| v@),
            segments@.map_values(|s: String| s@) =~= pv.take(i as int),
        decreases pieces@.len() - i,
    {
        let text = string_of(&pieces[i]);
        let ghost before = segments@.map_values(|s: String| s@);
        segments.push(text);
        assert(segments@.map_values(|s: String| s@) =~= before.push(text@));
        assert(pv.take(i + 1) =~= pv.take(i as int).push(pv[i as int]));
        i += 1;
    }
    assert(pv.take(pieces@.len() as int) =~= pv);
    Ok(Target { host: string_of(&host), segments })
}

/// `/` followed by the segments joined with `/`.
pub open spec fn rooted(segs: Seq<Seq<char>>) -> Seq<char> {
    seq!['/'] + spec_join(segs)
}

/// The NFSv3 attempt that mounts the first `len` segments as the export:
/// the export path and the path of the target relative to it (`/` when the
/// export is the target itself).
pub open spec fn v3_attempt(segs: Seq<Seq<char>>, len: int) -> (Seq<char>, Seq<char>) {
    (rooted(segs.take(len)), if len == segs.len() {
        seq!['/']
    } else {
        rooted(segs.skip(len))
    })
}

/// How a target is mounted: first the server's NFSv4 pseudo-root `/` with
/// the full path; then, for NFSv3, each prefix of the segments as the
/// export, longest first, with the rest as the relative path.
pub struct MountPlan {
    pub v4_path: String,
    pub v3_attempts: Vec<(String, String)>,
}

fn join_rooted(segs: &Vec<String>, from: usize, to: usize) -> (out: Vec<char>)
    requires
        from <= to <= segs@.len(),
    ensures
        out@ == rooted(segs@.map_values(|s: String| s@).subrange(from as int, to as int)),
{
    let ghost sv = segs@.map_values(|s: String| s@);
    let mut out: Vec<char> = vec!['/'];
    let mut i: usize = from;
    assert(sv.subrange(from as int, from as int) =~= Seq::<Seq<char>>::empty());
    while i < to
        invariant
            from <= i <= to <= segs@.len(),
            sv == segs@.map_values(|s: String| s@),
            out@ == rooted(sv.subrange(from as int, i as int)),
        decreases to - i,
    {
        if i > from {
            out.push('/');
        }
        let piece = chars_of(segs[i].as_str());
        extend(&mut out, &piece);
        proof {
            let part = sv.subrange(from as int, i + 1);
            assert(part.drop_last() =~= sv.subrange(from as int, i as int));
            assert(part.last() == piece@);
            if i == from {
                assert(spec_join(part) == part[0]);
            }
            assert(out@ =~= rooted(part));
        }
        i += 1;
    }
    out
}

/// The mount attempts for a target (see [`MountPlan`]).
pub fn mount_plan(target: &Target) -> (plan: MountPlan)
    ensures
        plan.v4_path@ == rooted(target.segments@.map_values(|s: String| s@)),
        plan.v3_attempts@.len() == target.segments@.len(),
        forall|m: int|
            0 <= m < plan.v3_attempts@.len() ==> ((#[trigger] plan.v3_attempts@[m]).0@, plan.v3_attempts@[m].1@)
                == v3_attempt(target.segments@.map_values(|s: String| s@), target.segments@.len() - m),
{
    let segs = &target.segments;
    let n = segs.len();
    let ghost sv = segs@.map_values(|s: String| s@);
    let full = join_rooted(segs, 0, n);
    assert(sv.subrange(0, n as int) =~= sv);
    let mut attempts: Vec<(String, String)> = Vec::new();
    let mut len: usize = n;
    while len > 0
        invariant
            len <= n == segs@.len(),
            sv == segs@.map_values(|s: String| s@),
            attempts@.len() == n - len,
            forall|m: int|
                0 <= m < attempts@.len() ==> ((#[trigger] attempts@[m]).0@, attempts@[m].1@) == v3_attempt(sv, n - m),
        decreases len,
    {
        let export = join_rooted(segs, 0, len);
        assert(sv.subrange(0, len as int) =~= sv.take(len as int));
        let relative = if len == n {
            vec!['/']
        } else {
            let r = join_rooted(segs, len, n);
            assert(sv.subrange(len as int, n as int) =~= sv.skip(len as int));
            r
        };
        assert(relative@ == v3_attempt(sv, len as int).1);
        attempts.push((string_of(&export), string_of(&relative)));
        len -= 1;
    }
    MountPlan { v4_path: string_of(&full), v3_attempts: attempts }
}

/// Whether a stat mode is a directory's (`S_IFDIR` under `S_IFMT`).
pub open spec fn mode_is_dir(mode: u64) -> bool {
    mode & 0o170000u64 == 0o040000u64
}

/// What a stat reports: a directory by its mode, the size, and the
/// modification time in seconds as a signed value.
pub fn metadata_from_stat(mode: u64, size: u64, mtime: u64) -> (meta: Metadata)
    ensures
        meta.is_dir == mode_is_dir(mode),
        meta.size == size,
        meta.mtime == mtime as i64,
{
    Metadata { is_dir: mode & 0o170000u64 == 0o040000u64, size, mtime: mtime as i64 }
}

/// One child of a directory listing: `.` and `..` are left out; the
/// listing's type 2 is a directory.
pub fn listed_entry(name: String, file_type: u32, size: u64, mtime: i64) -> (entry: Option<Entry>)
    ensures
        entry is None <==> (name@ == seq!['.'] || name@ == seq!['.', '.']),
        entry matches Some(e) ==> e.name@ == name@ && e.is_dir == (file_type == 2) && e.size == size
            && e.mtime == mtime,
{
    let chars = chars_of(name.as_str());
    let dot = vec!['.'];
    let dotdot = vec!['.', '.'];
    assert(dot@ =~= seq!['.']);
    assert(dotdot@ =~= seq!['.', '.']);
    if crate::text::same_chars(&chars, &dot) || crate::text::same_chars(&chars, &dotdot) {
        return None;
    }
    Some(Entry { name, is_dir: file_type == 2, size, mtime })
}

/// Most bytes a read of one file may gather: 512 MiB.
pub const READ_LIMIT: usize = 536870912;

/// What a read loop does after one read call.
#[derive(Debug, Clone, Copy, PartialEq, Eq, Structural)]
pub enum ReadProgress {
    /// The read call failed.
    Failed,
    /// The end of the file was reached.
    Finished,
    /// The bytes went past [`READ_LIMIT`].
    TooLarge,
    /// Read on; this many bytes are gathered now.
    Continue(usize),
}

/// The next step of a read loop that has gathered `gathered` bytes and
/// whose last read call returned `count`.
pub fn read_progress(gathered: usize, count: i32) -> (step: ReadProgress)
    requires
        gathered <= READ_LIMIT,
    ensures
        count < 0 ==> step == ReadProgress::Failed,
        count == 0 ==> step == ReadProgress::Finished,
        count > 0 && gathered + count > READ_LIMIT ==> step == ReadProgress::TooLarge,
        count > 0 && gathered + count <= READ_LIMIT ==> step == ReadProgress::Continue((gathered + count) as usize),
{
    if count < 0 {
        ReadProgress::Failed
    } else if count == 0 {
        ReadProgress::Finished
    } else {
        let c = count as usize;
        if c > READ_LIMIT - gathered {
            ReadProgress::TooLarge
        } else {
            ReadProgress::Continue(gathered + c)
        }
    }
}


/// The bytes one byte becomes in an encoded NFS path segment.
pub open spec fn encoded_byte_bytes(x: u8) -> Seq<u8> {
    if crate::nfs::is_unreserved(x) {
        seq![x]
    } else {
        seq![0x25u8, crate::nfs::hex_upper(x / 16) as u8, crate::nfs::hex_upper(x % 16) as u8]
    }
}

/// The bytes of an encoded NFS path segment, front to back.
pub open spec fn encoded_front(b: Seq<u8>) -> Seq<u8>
    decreases b.len(),
{
    if b.len() == 0 {
        Seq::empty()
    } else {
        encoded_byte_bytes(b[0]) + encoded_front(b.skip(1))
    }
}

proof fn lemma_encoded_front_concat(a: Seq<u8>, c: Seq<u8>)
    ensures
        encoded_front(a + c) == encoded_front(a) + encoded_front(c),
    decreases a.len(),
{
    if a.len() == 0 {
        assert(a + c =~= c);
        assert(Seq::<u8>::empty() + encoded_front(c) =~= encoded_front(c));
    } else {
        assert((a + c).skip(1) =~= a.skip(1) + c);
        assert((a + c)[0] == a[0]);
        lemma_encoded_front_concat(a.skip(1), c);
        assert(encoded_byte_bytes(a[0]) + (encoded_front(a.skip(1)) + encoded_front(c)) =~= (encoded_byte_bytes(a[0])
            + encoded_front(a.skip(1))) + encoded_front(c));
    }
}

proof fn lemma_encoded_chars(b: Seq<u8>)
    ensures
        vstd::utf8::is_ascii_chars(crate::nfs::spec_encode_bytes(b)),
        crate::nfs::spec_encode_bytes(b).map_values(|c: char| c as u8) == encoded_front(b),
    decreases b.len(),
{
    if b.len() > 0 {
        let front = b.drop_last();
        let x = b.last();
        lemma_encoded_chars(front);
        assert(front + seq![x] =~= b);
        lemma_encoded_front_concat(front, seq![x]);
        assert(seq![x].skip(1) =~= Seq::<u8>::empty());
        assert(encoded_front(Seq::<u8>::empty()) == Seq::<u8>::empty());
        assert(seq![x][0] == x);
        assert(encoded_front(seq![x]) == encoded_byte_bytes(x) + encoded_front(seq![x].skip(1)));
        assert(encoded_front(seq![x]) =~= encoded_byte_bytes(x));
        let e = crate::nfs::encoded_byte(x);
        assert(e.map_values(|c: char| c as u8) =~= encoded_byte_bytes(x)) by {
            if !crate::nfs::is_unreserved(x) {
                assert(x / 16 < 16 && x % 16 < 16);
            }
        }
        let whole = crate::nfs::spec_encode_bytes(front) + e;
        assert(whole.map_values(|c: char| c as u8) =~= crate::nfs::spec_encode_bytes(front).map_values(
            |c: char| c as u8,
        ) + e.map_values(|c: char| c as u8));
        assert(vstd::utf8::is_ascii_chars(whole)) by {
            assert forall|i: int| 0 <= i < whole.len() implies '\0' <= #[trigger] whole[i] <= '\u{7f}' by {
                if i >= crate::nfs::spec_encode_bytes(front).len() {
                    assert(x / 16 < 16 && x % 16 < 16);
                } else {
                    assert(whole[i] == crate::nfs::spec_encode_bytes(front)[i]);
                }
            }
        }
    }
}

proof fn lemma_hex_pair(x: u8)
    ensures
        radix16_pair(crate::nfs::hex_upper(x / 16) as u8, crate::nfs::hex_upper(x % 16) as u8) == Some(x),
{
    assert(x / 16 < 16 && x % 16 < 16);
    assert(x == 16 * (x / 16) + x % 16);
}

proof fn lemma_lossy_reads_encoded(b: Seq<u8>)
    ensures
        lossy_bytes(encoded_front(b)) == b,
    decreases b.len(),
{
    if b.len() > 0 {
        let x = b[0];
        let rest = encoded_front(b.skip(1));
        lemma_lossy_reads_encoded(b.skip(1));
        let e = encoded_front(b);
        if crate::nfs::is_unreserved(x) {
            assert(e.skip(1) =~= rest);
            assert(e[0] == x);
        } else {
            lemma_hex_pair(x);
            assert(e.skip(3) =~= rest);
            assert(e[0] == 0x25 && e[1] == crate::nfs::hex_upper(x / 16) as u8 && e[2] == crate::nfs::hex_upper(x % 16) as u8);
        }
        assert(seq![x] + b.skip(1) =~= b);
    }
}

/// A path segment that the share listing writes into a child URI (see
/// [`crate::nfs::encode`]) is read back unchanged by the direct transport's
/// lenient decoding: its escapes decode to the segment's own UTF-8 bytes,
/// which are valid UTF-8 spelling the segment, and every escape in it can
/// be cut cleanly.
pub proof fn lemma_transport_reads_encoded_segments(segment: Seq<char>)
    ensures
        ({
            let encoded = vstd::utf8::encode_utf8(crate::nfs::spec_encode_bytes(vstd::utf8::encode_utf8(segment)));
            &&& escapes_cut_cleanly(encoded)
            &&& lossy_bytes(encoded) == vstd::utf8::encode_utf8(segment)
        }),
        vstd::utf8::valid_utf8(vstd::utf8::encode_utf8(segment)),
        vstd::utf8::decode_utf8(vstd::utf8::encode_utf8(segment)) == segment,
{
    broadcast use vstd::utf8::group_utf8_lib;

    let bytes = vstd::utf8::encode_utf8(segment);
    let chars = crate::nfs::spec_encode_bytes(bytes);
    lemma_encoded_chars(bytes);
    vstd::utf8::is_ascii_chars_encode_utf8(chars);
    let encoded = vstd::utf8::encode_utf8(chars);
    assert(encoded =~= encoded_front(bytes)) by {
        assert forall|i: int| 0 <= i < encoded.len() implies encoded[i] == encoded_front(bytes)[i] by {
            assert(chars[i] as u8 == encoded[i]);
            assert(chars.map_values(|c: char| c as u8)[i] == chars[i] as u8);
        }
    }
    lemma_lossy_reads_encoded(bytes);
    assert forall|i: int| 0 <= i && i + 2 < encoded.len() && #[trigger] encoded[i] == 0x25 implies vstd::utf8::is_char_boundary(
        encoded,
        i + 3,
    ) by {
        if i + 3 < encoded.len() {
            assert(chars[i + 3] as u8 == encoded[i + 3]);
            assert(!vstd::utf8::is_continuation_byte(encoded[i + 3]));
        }
    }
}

} // verus!
