//! Paths of the direct NFS transport: percent-encoding of path segments,
//! parsing of `nfs://` URIs into host and path, and the choice of the export
//! that holds a path.
use vstd::prelude::*;

use crate::shares::nfs_scheme;
use crate::text::{
    chars_of, contains_char, extend, find_char_from, first_char, has_char, is_prefix, last_char,
    push_char, rfind_char, slice_of, starts_with, string_of,
};

verus! {

/// Why an `nfs://` URI or one of its path segments was refused.
#[derive(Debug, Clone, Copy, PartialEq, Eq, Structural)]
pub enum NfsUriError {
    /// The URI does not start with `nfs://`.
    NotNfs,
    /// The URI names no server.
    MissingServer,
    /// The server is empty or holds `@` or `[`.
    UnsupportedHost,
    /// A `%` is not followed by two more characters.
    TruncatedEscape,
    /// A `%` is followed by something other than two hexadecimal digits.
    InvalidEscape,
    /// An escape encodes `/` or NUL.
    EscapedSeparator,
    /// The decoded bytes are not UTF-8.
    NotUtf8,
    /// A segment is `.` or `..`.
    UnsafePath,
    /// No export of the server holds the path.
    NotExported,
}

/// Whether a byte is left as is by the segment encoder: ASCII letters,
/// digits and `-._~()`.
pub open spec fn is_unreserved(b: u8) -> bool {
    ||| 0x30 <= b <= 0x39
    ||| 0x41 <= b <= 0x5A
    ||| 0x61 <= b <= 0x7A
    ||| b == 0x2D
    ||| b == 0x2E
    ||| b == 0x5F
    ||| b == 0x7E
    ||| b == 0x28
    ||| b == 0x29
}

/// Upper-case hexadecimal digit for `v < 16`.
pub open spec fn hex_upper(v: u8) -> char {
    if v < 10 {
        (v + 48) as char
    } else {
        (v + 55) as char
    }
}

/// What one byte becomes in an encoded segment.
pub open spec fn encoded_byte(b: u8) -> Seq<char> {
    if is_unreserved(b) {
        seq![b as char]
    } else {
        seq!['%', hex_upper(b / 16), hex_upper(b % 16)]
    }
}

/// Percent-encoding of a byte string, byte by byte.
pub open spec fn spec_encode_bytes(b: Seq<u8>) -> Seq<char>
    decreases b.len(),
{
    if b.len() == 0 {
        Seq::empty()
    } else {
        spec_encode_bytes(b.drop_last()) + encoded_byte(b.last())
    }
}

fn unreserved(b: u8) -> (r: bool)
    ensures
        r == is_unreserved(b),
{
    (0x30 <= b && b <= 0x39) || (0x41 <= b && b <= 0x5A) || (0x61 <= b && b <= 0x7A) || b == 0x2D
        || b == 0x2E || b == 0x5F || b == 0x7E || b == 0x28 || b == 0x29
}

fn hex_digit_upper(v: u8) -> (c: char)
    requires
        v < 16,
    ensures
        c == hex_upper(v),
{
    if v < 10 {
        (v + 48) as char
    } else {
        (v + 55) as char
    }
}

/// Percent-encode one path segment: every UTF-8 byte other than ASCII
/// letters, digits and `-._~()` becomes `%XX` with upper-case hex digits.
pub fn encode(segment: &str) -> (out: String)
    ensures
        out@ == spec_encode_bytes(vstd::utf8::encode_utf8(segment@)),
{
    let bytes = segment.as_bytes();
    let mut out = String::new();
    let mut i: usize = 0;
    while i < bytes.len()
        invariant
            0 <= i <= bytes@.len(),
            bytes@ == vstd::utf8::encode_utf8(segment@),
            out@ == spec_encode_bytes(bytes@.take(i as int)),
        decreases bytes@.len() - i,
    {
        let b = bytes[i];
        assert(bytes@.take(i + 1).drop_last() =~= bytes@.take(i as int));
        if unreserved(b) {
            push_char(&mut out, b as char);
        } else {
            push_char(&mut out, '%');
            push_char(&mut out, hex_digit_upper(b / 16));
            push_char(&mut out, hex_digit_upper(b % 16));
        }
        i += 1;
    }
    assert(bytes@.take(bytes@.len() as int) =~= bytes@);
    out
}

/// Value of a hexadecimal digit byte (either case).
pub open spec fn hex_value(c: u8) -> Option<u8> {
    if 0x30 <= c <= 0x39 {
        Some((c - 0x30) as u8)
    } else if 0x61 <= c <= 0x66 {
        Some((c - 0x61 + 10) as u8)
    } else if 0x41 <= c <= 0x46 {
        Some((c - 0x41 + 10) as u8)
    } else {
        None
    }
}

fn hex_value_of(c: u8) -> (v: Option<u8>)
    ensures
        v == hex_value(c),
{
    if 0x30 <= c && c <= 0x39 {
        Some(c - 0x30)
    } else if 0x61 <= c && c <= 0x66 {
        Some(c - 0x61 + 10)
    } else if 0x41 <= c && c <= 0x46 {
        Some(c - 0x41 + 10)
    } else {
        None
    }
}

/// Percent-decoding of a byte string: `%` must be followed by two more
/// bytes (else truncated), both hexadecimal digits (else invalid), and must
/// not encode `/` or NUL.
pub open spec fn spec_decode_bytes(b: Seq<u8>) -> Result<Seq<u8>, NfsUriError>
    decreases b.len(),
{
    if b.len() == 0 {
        Ok(Seq::empty())
    } else if b[0] == 0x25 {
        if b.len() < 3 {
            Err(NfsUriError::TruncatedEscape)
        } else {
            match (hex_value(b[1]), hex_value(b[2])) {
                (Some(h), Some(l)) => {
                    let n = h * 16 + l;
                    if n == 0x2F || n == 0 {
                        Err(NfsUriError::EscapedSeparator)
                    } else {
                        match spec_decode_bytes(b.skip(3)) {
                            Ok(rest) => Ok(seq![n as u8] + rest),
                            Err(e) => Err(e),
                        }
                    }
                },
                _ => Err(NfsUriError::InvalidEscape),
            }
        }
    } else {
        match spec_decode_bytes(b.skip(1)) {
            Ok(rest) => Ok(seq![b[0]] + rest),
            Err(e) => Err(e),
        }
    }
}

/// `Ok(prefix + x)` for `Ok(x)`, the same error otherwise.
pub open spec fn prepend(prefix: Seq<u8>, r: Result<Seq<u8>, NfsUriError>) -> Result<
    Seq<u8>,
    NfsUriError,
> {
    match r {
        Ok(x) => Ok(prefix + x),
        Err(e) => Err(e),
    }
}

/// The characters of a segment once percent-decoded, when the bytes are
/// UTF-8.
pub open spec fn spec_decode(segment: Seq<char>) -> Result<Seq<char>, NfsUriError> {
    match spec_decode_bytes(vstd::utf8::encode_utf8(segment)) {
        Ok(bytes) => if vstd::utf8::valid_utf8(bytes) {
            Ok(vstd::utf8::decode_utf8(bytes))
        } else {
            Err(NfsUriError::NotUtf8)
        },
        Err(e) => Err(e),
    }
}

/// `String::from_utf8(bytes).ok()`: the string whose UTF-8 encoding is
/// `bytes`, `None` when `bytes` is not valid UTF-8.
#[verifier::external_body]
fn utf8_string(bytes: Vec<u8>) -> (s: Option<String>)
    ensures
        s is Some <==> vstd::utf8::valid_utf8(bytes@),
        s matches Some(text) ==> text@ == vstd::utf8::decode_utf8(bytes@),
{
    String::from_utf8(bytes).ok()
}

/// Decode one percent-encoded path segment.
pub fn decode(segment: &str) -> (result: Result<String, NfsUriError>)
    ensures
        match result {
            Ok(s) => spec_decode(segment@) == Ok::<Seq<char>, NfsUriError>(s@),
            Err(e) => spec_decode(segment@) == Err::<Seq<char>, NfsUriError>(e),
        },
{
    let b = segment.as_bytes();
    let mut out: Vec<u8> = Vec::new();
    let mut pos: usize = 0;
    proof {
        assert(b@.skip(0) =~= b@);
        if let Ok(x) = spec_decode_bytes(b@) {
            assert(out@ + x =~= x);
        }
    }
    while pos < b.len()
        invariant
            0 <= pos <= b@.len(),
            b@ == vstd::utf8::encode_utf8(segment@),
            spec_decode_bytes(b@) == prepend(out@, spec_decode_bytes(b@.skip(pos as int))),
        decreases b@.len() - pos,
    {
        let ghost rest = b@.skip(pos as int);
        if b[pos] == 0x25 {
            if b.len() - pos < 3 {
                return Err(NfsUriError::TruncatedEscape);
            }
            let high = match hex_value_of(b[pos + 1]) {
                Some(v) => v,
                None => return Err(NfsUriError::InvalidEscape),
            };
            let low = match hex_value_of(b[pos + 2]) {
                Some(v) => v,
                None => return Err(NfsUriError::InvalidEscape),
            };
            let n = high * 16 + low;
            if n == 0x2F || n == 0 {
                return Err(NfsUriError::EscapedSeparator);
            }
            assert(rest.skip(3) =~= b@.skip(pos + 3));
            let ghost before = out@;
            out.push(n);
            assert(before + (seq![n] + spec_decode_bytes(b@.skip(pos + 3))->Ok_0) =~= out@ + spec_decode_bytes(b@.skip(pos + 3))->Ok_0);
            pos += 3;
        } else {
            assert(rest.skip(1) =~= b@.skip(pos + 1));
            let ghost before = out@;
            out.push(b[pos]);
            assert(before + (seq![b@[pos as int]] + spec_decode_bytes(b@.skip(pos + 1))->Ok_0) =~= out@ + spec_decode_bytes(b@.skip(pos + 1))->Ok_0);
            pos += 1;
        }
    }
    assert(b@.skip(pos as int) =~= Seq::<u8>::empty());
    assert(out@ + Seq::<u8>::empty() =~= out@);
    match utf8_string(out) {
        Some(s) => Ok(s),
        None => Err(NfsUriError::NotUtf8),
    }
}

/// The non-empty pieces of `s` between `/` characters, in order.
pub open spec fn spec_segments(s: Seq<char>) -> Seq<Seq<char>>
    decreases s.len(),
{
    match first_char(s, '/', 0) {
        None => if s.len() == 0 {
            Seq::empty()
        } else {
            seq![s]
        },
        Some(k) => {
            proof {
                crate::text::lemma_first_char_bounds(s, '/', 0);
            }
            let tail = spec_segments(s.skip(k + 1));
            if k > 0 {
                seq![s.take(k)] + tail
            } else {
                tail
            }
        },
    }
}

/// Every segment decoded, or the error of the first one that fails.
pub open spec fn spec_decode_all(segs: Seq<Seq<char>>) -> Result<Seq<Seq<char>>, NfsUriError>
    decreases segs.len(),
{
    if segs.len() == 0 {
        Ok(Seq::empty())
    } else {
        match spec_decode(segs[0]) {
            Err(e) => Err(e),
            Ok(first) => match spec_decode_all(segs.drop_first()) {
                Err(e) => Err(e),
                Ok(rest) => Ok(seq![first] + rest),
            },
        }
    }
}

/// The segments joined by `/`.
pub open spec fn spec_join(segs: Seq<Seq<char>>) -> Seq<char>
    decreases segs.len(),
{
    if segs.len() == 0 {
        Seq::empty()
    } else if segs.len() == 1 {
        segs[0]
    } else {
        spec_join(segs.drop_last()) + seq!['/'] + segs.last()
    }
}

/// Whether a segment is `.` or `..`.
pub open spec fn is_dot_segment(s: Seq<char>) -> bool {
    s == seq!['.'] || s == seq!['.', '.']
}

/// The server named by an authority: the authority without a trailing
/// `:port` of ASCII digits (an empty port counts as digits).
pub open spec fn spec_authority_host(authority: Seq<char>) -> Seq<char> {
    match last_char(authority, ':') {
        Some(k) => if crate::text::all_ascii_digits(authority.skip(k + 1)) {
            authority.take(k)
        } else {
            authority
        },
        None => authority,
    }
}

/// Server and absolute path of an `nfs://` URI: the path's segments are
/// percent-decoded and rejoined; `.` and `..` segments are refused.
pub open spec fn spec_parsed(u: Seq<char>) -> Result<(Seq<char>, Seq<char>), NfsUriError> {
    if !is_prefix(nfs_scheme(), u) {
        Err(NfsUriError::NotNfs)
    } else {
        let rest = u.skip(6);
        let (authority, path) = match first_char(rest, '/', 0) {
            Some(k) => (rest.take(k), rest.skip(k + 1)),
            None => (rest, Seq::empty()),
        };
        if authority.len() == 0 {
            Err(NfsUriError::MissingServer)
        } else {
            let host = spec_authority_host(authority);
            if host.len() == 0 || has_char(host, '@') || has_char(host, '[') {
                Err(NfsUriError::UnsupportedHost)
            } else {
                match spec_parse_path(path) {
                    Err(e) => Err(e),
                    Ok(p) => Ok((host, p)),
                }
            }
        }
    }
}

/// The absolute path of the part of an `nfs://` URI after the server: the
/// segments percent-decoded and rejoined under `/`, refusing `.` and `..`.
pub open spec fn spec_parse_path(path: Seq<char>) -> Result<Seq<char>, NfsUriError> {
    match spec_decode_all(spec_segments(path)) {
        Err(e) => Err(e),
        Ok(segs) => if exists|i: int| 0 <= i < segs.len() && #[trigger] is_dot_segment(segs[i]) {
            Err(NfsUriError::UnsafePath)
        } else {
            Ok(seq!['/'] + spec_join(segs))
        },
    }
}

/// The segments of `s` (see [`spec_segments`]), as strings.
pub fn path_segments(s: &[char]) -> (segs: Vec<Vec<char>>)
    ensures
        segs@.map_values(|v: Vec<char>| v@) == spec_segments(s@),
    decreases s@.len(),
{
    match find_char_from(s, '/', 0) {
        None => {
            let mut segs: Vec<Vec<char>> = Vec::new();
            if s.len() > 0 {
                segs.push(slice_of(s, 0, s.len()));
                assert(s@.subrange(0, s@.len() as int) =~= s@);
            }
            assert(segs@.map_values(|v: Vec<char>| v@) =~= spec_segments(s@));
            segs
        },
        Some(k) => {
            assert(s@.len() == s.len());
            let rest = slice_of(s, k + 1, s.len());
            assert(rest@ =~= s@.skip(k + 1));
            let tail = path_segments(&rest);
            let mut segs: Vec<Vec<char>> = Vec::new();
            if k > 0 {
                segs.push(slice_of(s, 0, k));
            }
            let mut i: usize = 0;
            let ghost start = segs@.map_values(|v: Vec<char>| v@);
            while i < tail.len()
                invariant
                    0 <= i <= tail@.len(),
                    segs@.map_values(|v: Vec<char>| v@) == start + tail@.map_values(
                        |v: Vec<char>| v@,
                    ).take(i as int),
                decreases tail@.len() - i,
            {
                let piece = slice_of(&tail[i], 0, tail[i].len());
                assert(tail[i as int]@.subrange(0, tail[i as int]@.len() as int) =~= tail[i as int]@);
                let ghost before = segs@;
                segs.push(piece);
                assert(segs@.map_values(|v: Vec<char>| v@) =~= before.map_values(|v: Vec<char>| v@).push(piece@));
                assert(tail@.map_values(|v: Vec<char>| v@).take(i + 1) =~= tail@.map_values(
                    |v: Vec<char>| v@,
                ).take(i as int).push(tail@[i as int]@));
                i += 1;
            }
            assert(tail@.map_values(|v: Vec<char>| v@).take(tail@.len() as int) =~= tail@.map_values(
                |v: Vec<char>| v@,
            ));
            proof {
                if k > 0 {
                    assert(start =~= seq![s@.take(k as int)]);
                } else {
                    assert(start =~= Seq::<Seq<char>>::empty());
                    assert(start + spec_segments(s@.skip(k + 1)) =~= spec_segments(s@.skip(k + 1)));
                }
            }
            segs
        },
    }
}

fn split_authority(rest: &[char]) -> (parts: (Vec<char>, Vec<char>))
    ensures
        (parts.0@, parts.1@) == match first_char(rest@, '/', 0) {
            Some(k) => (rest@.take(k), rest@.skip(k + 1)),
            None => (rest@, Seq::<char>::empty()),
        },
{
    match find_char_from(rest, '/', 0) {
        Some(k) => {
            assert(rest@.len() == rest.len());
            let a = slice_of(rest, 0, k);
            let p = slice_of(rest, k + 1, rest.len());
            assert(a@ =~= rest@.take(k as int));
            assert(p@ =~= rest@.skip(k + 1));
            (a, p)
        },
        None => (slice_of(rest, 0, rest.len()), Vec::new()),
    }
}

fn authority_host(authority: &[char]) -> (host: Vec<char>)
    ensures
        host@ == spec_authority_host(authority@),
{
    match rfind_char(authority, ':') {
        Some(k) => {
            assert(authority@.len() == authority.len());
            let port = slice_of(authority, k + 1, authority.len());
            assert(port@ =~= authority@.skip(k + 1));
            if crate::text::only_ascii_digits(&port) {
                let h = slice_of(authority, 0, k);
                assert(h@ =~= authority@.take(k as int));
                h
            } else {
                slice_of(authority, 0, authority.len())
            }
        },
        None => slice_of(authority, 0, authority.len()),
    }
}

fn decode_all(segs: &Vec<Vec<char>>) -> (result: Result<Vec<String>, NfsUriError>)
    ensures
        match result {
            Ok(d) => spec_decode_all(segs@.map_values(|v: Vec<char>| v@)) == Ok::<Seq<Seq<char>>, NfsUriError>(
                d@.map_values(|x: String| x@),
            ),
            Err(e) => spec_decode_all(segs@.map_values(|v: Vec<char>| v@)) == Err::<Seq<Seq<char>>, NfsUriError>(e),
        },
{
    let ghost sv = segs@.map_values(|v: Vec<char>| v@);
    let mut decoded: Vec<String> = Vec::new();
    let mut i: usize = 0;
    assert(sv.skip(0) =~= sv);
    proof {
        if let Ok(r) = spec_decode_all(sv) {
            assert(decoded@.map_values(|d: String| d@) + r =~= r);
        }
    }
    while i < segs.len()
        invariant
            0 <= i <= segs@.len(),
            sv == segs@.map_values(|v: Vec<char>| v@),
            spec_decode_all(sv) == match spec_decode_all(sv.skip(i as int)) {
                Ok(r) => Ok(decoded@.map_values(|d: String| d@) + r),
                Err(e) => Err(e),
            },
        decreases segs@.len() - i,
    {
        assert(sv.skip(i as int).drop_first() =~= sv.skip(i + 1));
        assert(sv.skip(i as int)[0] == segs@[i as int]@);
        let text = string_of(&segs[i]);
        match decode(text.as_str()) {
            Ok(d) => {
                let ghost before = decoded@.map_values(|d: String| d@);
                decoded.push(d);
                proof {
                    assert(decoded@.map_values(|d: String| d@) =~= before.push(d@));
                    if let Ok(r) = spec_decode_all(sv.skip(i + 1)) {
                        assert(before + (seq![d@] + r) =~= before.push(d@) + r);
                    }
                }
            },
            Err(e) => return Err(e),
        }
        i += 1;
    }
    proof {
        assert(sv.skip(i as int) =~= Seq::<Seq<char>>::empty());
        assert(decoded@.map_values(|d: String| d@) + Seq::<Seq<char>>::empty() =~= decoded@.map_values(
            |d: String| d@,
        ));
    }
    Ok(decoded)
}

fn join_checked(decoded: &Vec<String>) -> (result: Result<Vec<char>, NfsUriError>)
    ensures
        ({
            let dv = decoded@.map_values(|d: String| d@);
            match result {
                Ok(joined) => !(exists|i: int| 0 <= i < dv.len() && #[trigger] is_dot_segment(dv[i]))
                    && joined@ == seq!['/'] + spec_join(dv),
                Err(e) => e == NfsUriError::UnsafePath && exists|i: int|
                    0 <= i < dv.len() && #[trigger] is_dot_segment(dv[i]),
            }
        }),
{
    let ghost dv = decoded@.map_values(|d: String| d@);
    let mut joined: Vec<char> = vec!['/'];
    let mut j: usize = 0;
    assert(dv.take(0) =~= Seq::<Seq<char>>::empty());
    assert(joined@ =~= seq!['/'] + spec_join(dv.take(0)));
    while j < decoded.len()
        invariant
            0 <= j <= decoded@.len(),
            dv == decoded@.map_values(|d: String| d@),
            forall|m: int| 0 <= m < j ==> !#[trigger] is_dot_segment(dv[m]),
            joined@ == seq!['/'] + spec_join(dv.take(j as int)),
        decreases decoded@.len() - j,
    {
        let piece = chars_of(decoded[j].as_str());
        let dot = piece.len() == 1 && piece[0] == '.';
        let dotdot = piece.len() == 2 && piece[0] == '.' && piece[1] == '.';
        proof {
            assert(piece@ == dv[j as int]);
            if piece@.len() == 1 {
                assert(dot == (piece@ =~= seq!['.']));
            }
            if piece@.len() == 2 {
                assert(dotdot == (piece@ =~= seq!['.', '.']));
            }
        }
        if dot || dotdot {
            assert(is_dot_segment(dv[j as int]));
            return Err(NfsUriError::UnsafePath);
        }
        if j > 0 {
            joined.push('/');
        }
        extend(&mut joined, &piece);
        proof {
            assert(dv.take(j + 1).drop_last() =~= dv.take(j as int));
            if j == 0 {
                assert(spec_join(dv.take(1)) == dv[0]);
            }
            assert(joined@ =~= seq!['/'] + spec_join(dv.take(j + 1)));
        }
        j += 1;
    }
    assert(dv.take(j as int) =~= dv);
    Ok(joined)
}

fn parse_path(path: &[char]) -> (result: Result<Vec<char>, NfsUriError>)
    ensures
        match result {
            Ok(p) => spec_parse_path(path@) == Ok::<Seq<char>, NfsUriError>(p@),
            Err(e) => spec_parse_path(path@) == Err::<Seq<char>, NfsUriError>(e),
        },
{
    let segs = path_segments(path);
    let ghost sv = segs@.map_values(|v: Vec<char>| v@);
    assert(sv == spec_segments(path@));
    let decoded = match decode_all(&segs) {
        Ok(d) => d,
        Err(e) => return Err(e),
    };
    let ghost dv = decoded@.map_values(|x: String| x@);
    assert(spec_decode_all(sv) == Ok::<Seq<Seq<char>>, NfsUriError>(dv));
    match join_checked(&decoded) {
        Ok(j) => Ok(j),
        Err(e) => {
            let ghost i = choose|i: int| 0 <= i < dv.len() && #[trigger] is_dot_segment(dv[i]);
            assert(is_dot_segment(dv[i]));
            Err(e)
        },
    }
}

/// Server and absolute, percent-decoded path of an `nfs://` URI.
pub fn parsed(uri: &str) -> (result: Result<(String, String), NfsUriError>)
    ensures
        match result {
            Ok((host, path)) => spec_parsed(uri@) == Ok::<(Seq<char>, Seq<char>), NfsUriError>(
                (host@, path@),
            ),
            Err(e) => spec_parsed(uri@) == Err::<(Seq<char>, Seq<char>), NfsUriError>(e),
        },
{
    let u = chars_of(uri);
    if !starts_with(&u, &crate::shares::nfs_scheme_chars()) {
        return Err(NfsUriError::NotNfs);
    }
    assert(u@.len() == u.len());
    let rest = slice_of(&u, 6, u.len());
    assert(rest@ =~= u@.skip(6));
    let (authority, path) = split_authority(&rest);
    if authority.len() == 0 {
        return Err(NfsUriError::MissingServer);
    }
    let host = authority_host(&authority);
    if host.len() == 0 || contains_char(&host, '@') || contains_char(&host, '[') {
        return Err(NfsUriError::UnsupportedHost);
    }
    let joined = match parse_path(&path) {
        Ok(j) => j,
        Err(e) => return Err(e),
    };
    Ok((string_of(&host), string_of(&joined)))
}

/// Whether `export` holds `path`: the path is the export itself or lies
/// below it.
pub open spec fn export_holds(export: Seq<char>, path: Seq<char>) -> bool {
    path == export || (is_prefix(export, path) && path.len() > export.len() && path[export.len() as int]
        == '/')
}

/// The export chosen for `path`: the longest one holding it, the last of
/// equally long ones.
pub open spec fn is_best_export(exports: Seq<Seq<char>>, path: Seq<char>, k: int) -> bool {
    &&& 0 <= k < exports.len()
    &&& export_holds(exports[k], path)
    &&& forall|j: int|
        0 <= j < exports.len() && #[trigger] export_holds(exports[j], path) ==> exports[j].len()
            <= exports[k].len()
    &&& forall|j: int|
        k < j < exports.len() && #[trigger] export_holds(exports[j], path) ==> exports[j].len()
            < exports[k].len()
}

/// The path relative to its export (`/` for the export itself).
pub open spec fn relative_path(export: Seq<char>, path: Seq<char>) -> Seq<char> {
    if path.len() == export.len() {
        seq!['/']
    } else {
        path.skip(export.len() as int)
    }
}

fn holds(export: &[char], path: &[char]) -> (b: bool)
    ensures
        b == export_holds(export@, path@),
{
    let same = export.len() == path.len() && starts_with(path, export);
    proof {
        if export@.len() == path@.len() {
            assert(is_prefix(export@, path@) ==> path@.subrange(0, export@.len() as int) =~= path@);
        }
        if path@ == export@ {
            assert(path@.subrange(0, export@.len() as int) =~= path@);
        }
    }
    if same {
        return true;
    }
    export.len() < path.len() && starts_with(path, export) && path[export.len()] == '/'
}

/// The export of `exports` holding `path` and the path relative to it.
pub fn resolve(exports: &[String], path: &str) -> (result: Result<(String, String), NfsUriError>)
    ensures
        match result {
            Ok((export, relative)) => exists|k: int|
                is_best_export(exports@.map_values(|e: String| e@), path@, k) && export@
                    == exports@[k]@ && relative@ == relative_path(exports@[k]@, path@),
            Err(e) => e == NfsUriError::NotExported && forall|j: int|
                0 <= j < exports@.len() ==> !#[trigger] export_holds(exports@[j]@, path@),
        },
{
    let ev = Ghost(exports@.map_values(|e: String| e@));
    let p = chars_of(path);
    let mut best: Option<usize> = None;
    let mut best_len: usize = 0;
    let mut i: usize = 0;
    while i < exports.len()
        invariant
            0 <= i <= exports@.len(),
            ev@ == exports@.map_values(|e: String| e@),
            p@ == path@,
            match best {
                Some(k) => {
                    &&& k < i
                    &&& export_holds(ev@[k as int], p@)
                    &&& best_len == ev@[k as int].len()
                    &&& forall|j: int|
                        0 <= j < i && #[trigger] export_holds(ev@[j], p@) ==> ev@[j].len() <= best_len
                    &&& forall|j: int|
                        k < j < i && #[trigger] export_holds(ev@[j], p@) ==> ev@[j].len() < best_len
                },
                None => forall|j: int| 0 <= j < i ==> !#[trigger] export_holds(ev@[j], p@),
            },
        decreases exports@.len() - i,
    {
        let e = chars_of(exports[i].as_str());
        assert(e@ == ev@[i as int]);
        if holds(&e, &p) {
            let better = match best {
                Some(_) => e.len() >= best_len,
                None => true,
            };
            if better {
                best = Some(i);
                best_len = e.len();
            }
        }
        i += 1;
    }
    match best {
        None => {
            assert forall|j: int| 0 <= j < exports@.len() implies !#[trigger] export_holds(
                exports@[j]@,
                path@,
            ) by {
                assert(ev@[j] == exports@[j]@);
            }
            Err(NfsUriError::NotExported)
        },
        Some(k) => {
            let e = chars_of(exports[k].as_str());
            assert(is_best_export(ev@, p@, k as int));
            let relative = if e.len() == p.len() {
                vec!['/']
            } else {
                slice_of(&p, e.len(), p.len())
            };
            assert(e.len() != p.len() ==> relative@ =~= p@.skip(e@.len() as int));
            assert(e.len() == p.len() ==> relative@ =~= seq!['/']);
            Ok((string_of(&e), string_of(&relative)))
        },
    }
}

/// The bytes of ASCII characters.
pub open spec fn ascii_bytes(s: Seq<char>) -> Seq<u8> {
    s.map_values(|c: char| c as u8)
}

proof fn lemma_encode_front(b: Seq<u8>)
    requires
        b.len() > 0,
    ensures
        spec_encode_bytes(b) == encoded_byte(b[0]) + spec_encode_bytes(b.drop_first()),
    decreases b.len(),
{
    if b.len() == 1 {
        assert(b.drop_last() =~= Seq::<u8>::empty());
        assert(b.drop_first() =~= Seq::<u8>::empty());
        assert(spec_encode_bytes(Seq::<u8>::empty()) == Seq::<char>::empty());
        assert(encoded_byte(b[0]) + Seq::<char>::empty() =~= encoded_byte(b[0]));
    } else {
        lemma_encode_front(b.drop_last());
        assert(b.drop_last().drop_first() =~= b.drop_first().drop_last());
        assert(b.drop_first().last() == b.last());
        assert(b.drop_last()[0] == b[0]);
        assert(encoded_byte(b[0]) + spec_encode_bytes(b.drop_first().drop_last()) + encoded_byte(b.last())
            =~= encoded_byte(b[0]) + (spec_encode_bytes(b.drop_first().drop_last()) + encoded_byte(b.last())));
    }
}

proof fn lemma_encoded_ascii(b: Seq<u8>)
    ensures
        vstd::utf8::is_ascii_chars(spec_encode_bytes(b)),
    decreases b.len(),
{
    if b.len() > 0 {
        lemma_encoded_ascii(b.drop_last());
        let e = encoded_byte(b.last());
        let all = spec_encode_bytes(b);
        let prev = spec_encode_bytes(b.drop_last());
        assert forall|i: int| 0 <= i < all.len() implies '\0' <= #[trigger] all[i] <= '\u{7f}' by {
            if i >= prev.len() {
                assert(all[i] == e[i - prev.len()]);
                let v = b.last();
                assert(v / 16 < 16);
                assert(v % 16 < 16);
            }
        }
    }
}

proof fn lemma_hex_round_trip(v: u8)
    requires
        v < 16,
    ensures
        hex_value(hex_upper(v) as u8) == Some(v),
{
}

proof fn lemma_decode_encoded(b: Seq<u8>)
    requires
        forall|i: int| 0 <= i < b.len() ==> #[trigger] b[i] != 0x2F && b[i] != 0,
    ensures
        spec_decode_bytes(ascii_bytes(spec_encode_bytes(b))) == Ok::<Seq<u8>, NfsUriError>(b),
    decreases b.len(),
{
    let bytes = ascii_bytes(spec_encode_bytes(b));
    if b.len() == 0 {
        assert(bytes =~= Seq::<u8>::empty());
        assert(b =~= Seq::<u8>::empty());
    } else {
        lemma_encode_front(b);
        let b0 = b[0];
        let rest = b.drop_first();
        assert forall|i: int| 0 <= i < rest.len() implies #[trigger] rest[i] != 0x2F && rest[i] != 0 by {
            assert(rest[i] == b[i + 1]);
        }
        lemma_decode_encoded(rest);
        let e = encoded_byte(b0);
        let tail = ascii_bytes(spec_encode_bytes(rest));
        assert(bytes =~= ascii_bytes(e) + tail);
        if is_unreserved(b0) {
            assert(bytes[0] == b0);
            assert(b0 != 0x25);
            assert(bytes.skip(1) =~= tail);
            assert(seq![b0] + rest =~= b);
            assert(spec_decode_bytes(bytes) == Ok::<Seq<u8>, NfsUriError>(seq![b0] + rest));
        } else {
            lemma_hex_round_trip(b0 / 16);
            lemma_hex_round_trip(b0 % 16);
            assert(bytes[0] == 0x25);
            assert(bytes[1] == hex_upper(b0 / 16) as u8);
            assert(bytes[2] == hex_upper(b0 % 16) as u8);
            assert(bytes.skip(3) =~= tail);
            assert((b0 / 16) * 16 + b0 % 16 == b0);
            assert(((b0 / 16) * 16 + b0 % 16) as u8 == b0);
            assert(bytes.len() >= 3);
            assert(seq![b0] + rest =~= b);
            assert(spec_decode_bytes(bytes) == Ok::<Seq<u8>, NfsUriError>(seq![b0] + rest));
        }
    }
}

/// A character other than `/` and NUL encodes to UTF-8 bytes none of which
/// is `/` or NUL: bytes of multi-byte encodings all have the high bit set.
proof fn lemma_scalar_avoids_separator(v: u32)
    requires
        vstd::utf8::is_scalar(v),
        v != 0x2F,
        v != 0,
    ensures
        forall|k: int|
            0 <= k < vstd::utf8::encode_scalar(v).len() ==> #[trigger] vstd::utf8::encode_scalar(v)[k] != 0x2F
                && vstd::utf8::encode_scalar(v)[k] != 0,
{
    if vstd::utf8::has_width_1_encoding(v) {
        assert(vstd::utf8::leading_byte_width_1(v) as u32 == v) by (bit_vector)
            requires
                v <= 0x7F,
        ;
    } else {
        assert(vstd::utf8::leading_byte_width_2(v) >= 0x80) by (bit_vector);
        assert(vstd::utf8::leading_byte_width_3(v) >= 0x80) by (bit_vector);
        assert(vstd::utf8::leading_byte_width_4(v) >= 0x80) by (bit_vector);
        assert(vstd::utf8::last_continuation_byte(v) >= 0x80) by (bit_vector);
        assert(vstd::utf8::second_last_continuation_byte(v) >= 0x80) by (bit_vector);
        assert(vstd::utf8::third_last_continuation_byte(v) >= 0x80) by (bit_vector);
    }
}

/// A text without `/` and NUL characters has no `/` or NUL byte in its
/// UTF-8 encoding.
proof fn lemma_text_avoids_separator(u: Seq<char>)
    requires
        forall|i: int| 0 <= i < u.len() ==> #[trigger] u[i] != '/' && u[i] != '\0',
    ensures
        forall|i: int|
            0 <= i < vstd::utf8::encode_utf8(u).len() ==> #[trigger] vstd::utf8::encode_utf8(u)[i] != 0x2F
                && vstd::utf8::encode_utf8(u)[i] != 0,
    decreases u.len(),
{
    broadcast use vstd::utf8::char_is_scalar;

    if u.len() > 0 {
        let rest = u.drop_first();
        assert forall|i: int| 0 <= i < rest.len() implies #[trigger] rest[i] != '/' && rest[i] != '\0' by {
            assert(rest[i] == u[i + 1]);
        }
        lemma_text_avoids_separator(rest);
        assert(u[0] != '/' && u[0] != '\0');
        vstd::utf8::char_is_scalar(u[0]);
        vstd::utf8::char_u32_cast(u[0], u[0] as u32);
        assert(u[0] as u32 != 0x2F && u[0] as u32 != 0);
        lemma_scalar_avoids_separator(u[0] as u32);
        let head = vstd::utf8::encode_scalar(u[0] as u32);
        let whole = vstd::utf8::encode_utf8(u);
        assert(whole == head + vstd::utf8::encode_utf8(rest));
        assert forall|i: int| 0 <= i < whole.len() implies #[trigger] whole[i] != 0x2F && whole[i] != 0 by {
            if i < head.len() {
                assert(whole[i] == head[i]);
            } else {
                assert(whole[i] == vstd::utf8::encode_utf8(rest)[i - head.len()]);
            }
        }
    }
}

/// Decoding undoes encoding: a segment holding neither `/` nor NUL comes
/// back unchanged from [`decode`] after [`encode`].
pub proof fn lemma_segment_round_trip(segment: Seq<char>)
    requires
        forall|i: int| 0 <= i < segment.len() ==> #[trigger] segment[i] != '/' && segment[i] != '\0',
    ensures
        spec_decode(spec_encode_bytes(vstd::utf8::encode_utf8(segment))) == Ok::<Seq<char>, NfsUriError>(segment),
{
    lemma_text_avoids_separator(segment);
    let b = vstd::utf8::encode_utf8(segment);
    let encoded = spec_encode_bytes(b);
    lemma_encoded_ascii(b);
    vstd::utf8::is_ascii_chars_encode_utf8(encoded);
    assert(vstd::utf8::encode_utf8(encoded) =~= ascii_bytes(encoded));
    lemma_decode_encoded(b);
    vstd::utf8::encode_utf8_valid_utf8(segment);
    vstd::utf8::encode_utf8_decode_utf8(segment);
}

} // verus!
