//! Character-level helpers shared by the URI, path and label code.
use vstd::prelude::*;
use vstd::std_specs::iter::IteratorSpec;

verus! {

/// The characters of `s`, in order.
pub fn chars_of(s: &str) -> (out: Vec<char>)
    ensures
        out@ == s@,
{
    broadcast use vstd::string::group_string_axioms;

    let mut out: Vec<char> = Vec::new();
    let mut it = s.chars();
    loop
        invariant
            it.obeys_prophetic_iter_laws(),
            out@ + it.remaining() == s@,
        decreases s@.len() - out@.len(),
    {
        match it.next() {
            Some(c) => {
                assert(out@.push(c) + it.remaining() =~= s@);
                out.push(c);
            },
            None => {
                assert(out@ =~= s@);
                return out;
            },
        }
    }
}

/// Appends one character to a string (`String::push`).
#[verifier::external_body]
pub(crate) fn push_char(s: &mut String, c: char)
    ensures
        final(s)@ == old(s)@.push(c),
{
    s.push(c);
}

/// A string holding exactly the given characters.
pub fn string_of(chars: &[char]) -> (s: String)
    ensures
        s@ == chars@,
{
    let mut s = String::new();
    for i in 0..chars.len()
        invariant
            s@ == chars@.take(i as int),
    {
        push_char(&mut s, chars[i]);
        assert(chars@.take(i + 1) =~= chars@.take(i as int).push(chars@[i as int]));
    }
    assert(chars@.take(chars@.len() as int) =~= chars@);
    s
}

/// Whether `p` is a prefix of `s`.
pub open spec fn is_prefix(p: Seq<char>, s: Seq<char>) -> bool {
    p.len() <= s.len() && s.subrange(0, p.len() as int) == p
}

/// Whether `p` is a suffix of `s`.
pub open spec fn is_suffix(p: Seq<char>, s: Seq<char>) -> bool {
    p.len() <= s.len() && s.subrange(s.len() - p.len(), s.len() as int) == p
}

/// Whether `p` occurs in `s` starting at index `i`.
pub open spec fn occurs_at(s: Seq<char>, p: Seq<char>, i: int) -> bool {
    0 <= i && i + p.len() <= s.len() && s.subrange(i, i + p.len()) == p
}

/// Whether `c` occurs in `s`.
pub open spec fn has_char(s: Seq<char>, c: char) -> bool {
    exists|i: int| 0 <= i < s.len() && s[i] == c
}

/// Whether `s` holds `p` at index `i`.
pub fn matches_at(s: &[char], p: &[char], i: usize) -> (b: bool)
    ensures
        b == occurs_at(s@, p@, i as int),
{
    if i > s.len() || p.len() > s.len() - i {
        return false;
    }
    let mut k: usize = 0;
    while k < p.len()
        invariant
            i + p@.len() <= s@.len(),
            s@.len() == s.len(),
            0 <= k <= p@.len(),
            forall|j: int| 0 <= j < k ==> s@[i + j] == p@[j],
        decreases p@.len() - k,
    {
        if s[i + k] != p[k] {
            assert(s@.subrange(i as int, i + p@.len())[k as int] != p@[k as int]);
            return false;
        }
        k += 1;
    }
    assert(s@.subrange(i as int, i + p@.len()) =~= p@);
    true
}

/// Whether `s` starts with `p`.
pub fn starts_with(s: &[char], p: &[char]) -> (b: bool)
    ensures
        b == is_prefix(p@, s@),
{
    matches_at(s, p, 0)
}

/// Whether `a` and `b` hold the same characters.
pub fn same_chars(a: &[char], b: &[char]) -> (same: bool)
    ensures
        same == (a@ == b@),
{
    if a.len() != b.len() {
        return false;
    }
    let same = matches_at(a, b, 0);
    proof {
        if same {
            assert(a@.subrange(0, b@.len() as int) =~= a@);
        } else if a@ == b@ {
            assert(a@.subrange(0, b@.len() as int) =~= a@);
        }
    }
    same
}

/// Whether `s` ends with `p`.
pub fn ends_with(s: &[char], p: &[char]) -> (b: bool)
    ensures
        b == is_suffix(p@, s@),
{
    if p.len() > s.len() {
        return false;
    }
    matches_at(s, p, s.len() - p.len())
}

/// First index at or after `from` where `p` occurs in `s`.
pub fn find_from(s: &[char], p: &[char], from: usize) -> (found: Option<usize>)
    ensures
        match found {
            Some(i) => first_occurrence(s@, p@, from as int) == Some(i as int),
            None => first_occurrence(s@, p@, from as int) is None,
        },
        match found {
            Some(i) => from <= i && occurs_at(s@, p@, i as int) && forall|j: int|
                from <= j < i ==> !#[trigger] occurs_at(s@, p@, j),
            None => forall|j: int| from <= j ==> !#[trigger] occurs_at(s@, p@, j),
        },
{
    let mut i = from;
    while i < s.len()
        invariant
            from <= i,
            forall|j: int| from <= j < i ==> !#[trigger] occurs_at(s@, p@, j),
        decreases s@.len() - i,
    {
        if matches_at(s, p, i) {
            proof {
                lemma_find_from_first(s@, p@, from as int, Some(i));
            }
            return Some(i);
        }
        i += 1;
    }
    if i == s.len() && matches_at(s, p, i) {
        proof {
            lemma_find_from_first(s@, p@, from as int, Some(i));
        }
        return Some(i);
    }
    proof {
        lemma_find_from_first(s@, p@, from as int, None);
    }
    None
}

/// First index at or after `from` holding `c`.
pub fn find_char_from(s: &[char], c: char, from: usize) -> (found: Option<usize>)
    ensures
        match found {
            Some(i) => first_char(s@, c, from as int) == Some(i as int),
            None => first_char(s@, c, from as int) is None,
        },
        match found {
            Some(i) => from <= i < s@.len() && s@[i as int] == c && forall|j: int|
                from <= j < i ==> s@[j] != c,
            None => forall|j: int| from <= j < s@.len() ==> s@[j] != c,
        },
{
    let mut i = from;
    while i < s.len()
        invariant
            from <= i,
            forall|j: int| from <= j < i ==> s@[j] != c,
        decreases s@.len() - i,
    {
        if s[i] == c {
            proof {
                lemma_find_char_first(s@, c, from as int, Some(i));
            }
            return Some(i);
        }
        i += 1;
    }
    proof {
        lemma_find_char_first(s@, c, from as int, None);
    }
    None
}

/// Last index holding `c`.
pub fn rfind_char(s: &[char], c: char) -> (found: Option<usize>)
    ensures
        match found {
            Some(i) => last_char(s@, c) == Some(i as int),
            None => last_char(s@, c) is None,
        },
        match found {
            Some(i) => i < s@.len() && s@[i as int] == c && forall|j: int|
                i < j < s@.len() ==> s@[j] != c,
            None => forall|j: int| 0 <= j < s@.len() ==> s@[j] != c,
        },
{
    let mut i = s.len();
    while i > 0
        invariant
            i <= s@.len(),
            forall|j: int| i <= j < s@.len() ==> s@[j] != c,
        decreases i,
    {
        if s[i - 1] == c {
            proof {
                lemma_rfind_char_last(s@, c, Some((i - 1) as usize));
            }
            return Some(i - 1);
        }
        i -= 1;
    }
    proof {
        lemma_rfind_char_last(s@, c, None);
    }
    None
}

/// Whether `s` holds `c`.
pub fn contains_char(s: &[char], c: char) -> (b: bool)
    ensures
        b == has_char(s@, c),
{
    match find_char_from(s, c, 0) {
        Some(_) => true,
        None => false,
    }
}

/// The characters `s[a..b]`.
pub fn slice_of(s: &[char], a: usize, b: usize) -> (out: Vec<char>)
    requires
        a <= b <= s@.len(),
    ensures
        out@ == s@.subrange(a as int, b as int),
{
    let mut out: Vec<char> = Vec::new();
    let mut i = a;
    while i < b
        invariant
            a <= i <= b <= s@.len(),
            out@ == s@.subrange(a as int, i as int),
        decreases b - i,
    {
        out.push(s[i]);
        assert(s@.subrange(a as int, i + 1) =~= s@.subrange(a as int, i as int).push(s@[i as int]));
        i += 1;
    }
    out
}

/// Appends all of `more` to `out`.
pub fn extend(out: &mut Vec<char>, more: &[char])
    ensures
        final(out)@ == old(out)@ + more@,
{
    let mut i: usize = 0;
    while i < more.len()
        invariant
            0 <= i <= more@.len(),
            out@ == old(out)@ + more@.take(i as int),
        decreases more@.len() - i,
    {
        out.push(more[i]);
        assert(more@.take(i + 1) =~= more@.take(i as int).push(more@[i as int]));
        assert(old(out)@ + more@.take(i + 1) =~= (old(out)@ + more@.take(i as int)).push(more@[i as int]));
        i += 1;
    }
    assert(more@.take(more@.len() as int) =~= more@);
}

/// Whether `c` is an ASCII decimal digit.
pub open spec fn is_ascii_digit(c: char) -> bool {
    '0' <= c <= '9'
}

/// Whether every character of `s` is an ASCII digit.
pub open spec fn all_ascii_digits(s: Seq<char>) -> bool {
    forall|i: int| 0 <= i < s.len() ==> is_ascii_digit(#[trigger] s[i])
}

/// Whether all characters are ASCII digits.
pub fn only_ascii_digits(s: &[char]) -> (b: bool)
    ensures
        b == all_ascii_digits(s@),
{
    let mut i: usize = 0;
    while i < s.len()
        invariant
            0 <= i <= s@.len(),
            forall|j: int| 0 <= j < i ==> is_ascii_digit(#[trigger] s@[j]),
        decreases s@.len() - i,
    {
        if !('0' <= s[i] && s[i] <= '9') {
            return false;
        }
        i += 1;
    }
    true
}

/// ASCII lower-case of one character (other characters unchanged).
pub open spec fn ascii_lower(c: char) -> char {
    if 'A' <= c <= 'Z' {
        ((c as u32) + 32) as char
    } else {
        c
    }
}

/// ASCII lower-case of a character.
pub fn to_ascii_lower(c: char) -> (l: char)
    ensures
        l == ascii_lower(c),
{
    if 'A' <= c && c <= 'Z' {
        ((c as u8) + 32) as char
    } else {
        c
    }
}

/// ASCII lower-case of every character.
pub open spec fn ascii_lower_seq(s: Seq<char>) -> Seq<char> {
    s.map_values(|c: char| ascii_lower(c))
}

/// `s` with ASCII letters in lower case.
pub fn lower_ascii(s: &[char]) -> (out: Vec<char>)
    ensures
        out@ == ascii_lower_seq(s@),
{
    let mut out: Vec<char> = Vec::new();
    let mut i: usize = 0;
    while i < s.len()
        invariant
            0 <= i <= s@.len(),
            out@ == ascii_lower_seq(s@.take(i as int)),
        decreases s@.len() - i,
    {
        out.push(to_ascii_lower(s[i]));
        assert(ascii_lower_seq(s@.take(i + 1)) =~= ascii_lower_seq(s@.take(i as int)).push(ascii_lower(s@[i as int])));
        i += 1;
    }
    assert(s@.take(s@.len() as int) =~= s@);
    out
}

/// Index of the first occurrence of `p` in `s` at or after `from`.
pub open spec fn first_occurrence(s: Seq<char>, p: Seq<char>, from: int) -> Option<int> {
    if exists|i: int| from <= i && #[trigger] occurs_at(s, p, i) {
        Some(
            choose|i: int|
                from <= i && #[trigger] occurs_at(s, p, i) && forall|j: int|
                    from <= j < i ==> !#[trigger] occurs_at(s, p, j),
        )
    } else {
        None
    }
}

/// Index of the first `c` in `s` at or after `from`.
pub open spec fn first_char(s: Seq<char>, c: char, from: int) -> Option<int> {
    if exists|i: int| from <= i < s.len() && s[i] == c {
        Some(
            choose|i: int|
                from <= i < s.len() && s[i] == c && forall|j: int| from <= j < i ==> s[j] != c,
        )
    } else {
        None
    }
}

/// Index of the last `c` in `s`.
pub open spec fn last_char(s: Seq<char>, c: char) -> Option<int> {
    if exists|i: int| 0 <= i < s.len() && s[i] == c {
        Some(
            choose|i: int| 0 <= i < s.len() && s[i] == c && forall|j: int| i < j < s.len() ==> s[j] != c,
        )
    } else {
        None
    }
}

/// The result of [`find_from`] is the first occurrence.
pub proof fn lemma_find_from_first(s: Seq<char>, p: Seq<char>, from: int, found: Option<usize>)
    requires
        match found {
            Some(i) => from <= i && occurs_at(s, p, i as int) && forall|j: int|
                from <= j < i ==> !#[trigger] occurs_at(s, p, j),
            None => forall|j: int| from <= j ==> !#[trigger] occurs_at(s, p, j),
        },
    ensures
        match found {
            Some(i) => first_occurrence(s, p, from) == Some(i as int),
            None => first_occurrence(s, p, from) is None,
        },
{
    if let Some(i) = found {
        assert(from <= i && occurs_at(s, p, i as int));
        let k = choose|k: int|
            from <= k && #[trigger] occurs_at(s, p, k) && forall|j: int|
                from <= j < k ==> !#[trigger] occurs_at(s, p, j);
        if k < i {
            assert(!occurs_at(s, p, k));
        }
        if i < k {
            assert(!occurs_at(s, p, i as int));
        }
    }
}

/// The result of [`find_char_from`] is the first `c`.
pub proof fn lemma_find_char_first(s: Seq<char>, c: char, from: int, found: Option<usize>)
    requires
        match found {
            Some(i) => from <= i < s.len() && s[i as int] == c && forall|j: int|
                from <= j < i ==> s[j] != c,
            None => forall|j: int| from <= j < s.len() ==> s[j] != c,
        },
    ensures
        match found {
            Some(i) => first_char(s, c, from) == Some(i as int),
            None => first_char(s, c, from) is None,
        },
{
    if let Some(i) = found {
        assert(from <= i < s.len() && s[i as int] == c);
        let k = choose|k: int|
            from <= k < s.len() && s[k] == c && forall|j: int| from <= j < k ==> s[j] != c;
        if k < i {
            assert(s[k] == c);
        }
        if i < k {
            assert(s[i as int] == c);
        }
    }
}

/// The result of [`rfind_char`] is the last `c`.
pub proof fn lemma_rfind_char_last(s: Seq<char>, c: char, found: Option<usize>)
    requires
        match found {
            Some(i) => i < s.len() && s[i as int] == c && forall|j: int| i < j < s.len() ==> s[j] != c,
            None => forall|j: int| 0 <= j < s.len() ==> s[j] != c,
        },
    ensures
        match found {
            Some(i) => last_char(s, c) == Some(i as int),
            None => last_char(s, c) is None,
        },
{
    if let Some(i) = found {
        assert(0 <= i < s.len() && s[i as int] == c);
        let k = choose|k: int|
            0 <= k < s.len() && s[k] == c && forall|j: int| k < j < s.len() ==> s[j] != c;
        if k < i {
            assert(s[i as int] == c);
        }
        if i < k {
            assert(s[k] == c);
        }
    }
}

/// A `c` at index `i` (at or after `from`) means there is a first one.
pub proof fn lemma_first_char_exists(s: Seq<char>, c: char, from: int, i: int)
    requires
        from <= i < s.len(),
        s[i] == c,
    ensures
        exists|k: int| from <= k < s.len() && s[k] == c && forall|j: int| from <= j < k ==> s[j] != c,
    decreases i - from,
{
    if exists|j: int| from <= j < i && s[j] == c {
        let j = choose|j: int| from <= j < i && s[j] == c;
        lemma_first_char_exists(s, c, from, j);
    } else {
        assert(forall|j: int| from <= j < i ==> s[j] != c);
    }
}

/// The first `c` at or after `from`, when there is one, lies in `[from, len)`
/// and holds `c`, with no `c` before it.
pub proof fn lemma_first_char_bounds(s: Seq<char>, c: char, from: int)
    ensures
        match first_char(s, c, from) {
            Some(k) => from <= k < s.len() && s[k] == c && forall|j: int| from <= j < k ==> s[j] != c,
            None => forall|j: int| from <= j < s.len() ==> s[j] != c,
        },
{
    if exists|i: int| from <= i < s.len() && s[i] == c {
        let i = choose|i: int| from <= i < s.len() && s[i] == c;
        lemma_first_char_exists(s, c, from, i);
    }
}


/// The byte offset of character position `i` of a text: the length of the
/// UTF-8 encoding of the characters before it.
pub open spec fn byte_pos(u: Seq<char>, i: int) -> int {
    vstd::utf8::encode_utf8(u.take(i)).len() as int
}

/// UTF-8 encoding distributes over concatenation.
pub proof fn lemma_encode_utf8_concat(a: Seq<char>, b: Seq<char>)
    ensures
        vstd::utf8::encode_utf8(a + b) == vstd::utf8::encode_utf8(a) + vstd::utf8::encode_utf8(b),
    decreases a.len(),
{
    if a.len() == 0 {
        assert(a + b =~= b);
        assert(vstd::utf8::encode_utf8(a) =~= Seq::<u8>::empty());
        assert(Seq::<u8>::empty() + vstd::utf8::encode_utf8(b) =~= vstd::utf8::encode_utf8(b));
    } else {
        assert((a + b).drop_first() =~= a.drop_first() + b);
        assert((a + b)[0] == a[0]);
        lemma_encode_utf8_concat(a.drop_first(), b);
        let s = vstd::utf8::encode_scalar(a[0] as u32);
        assert(s + (vstd::utf8::encode_utf8(a.drop_first()) + vstd::utf8::encode_utf8(b)) =~= (s
            + vstd::utf8::encode_utf8(a.drop_first())) + vstd::utf8::encode_utf8(b));
    }
}

/// One more character moves the byte offset by that character's UTF-8
/// length, at least one byte.
pub proof fn lemma_byte_pos_step(u: Seq<char>, i: int)
    requires
        0 <= i < u.len(),
    ensures
        byte_pos(u, i + 1) == byte_pos(u, i) + vstd::utf8::encode_scalar(u[i] as u32).len(),
        vstd::utf8::encode_scalar(u[i] as u32).len() >= 1,
{
    assert(u.take(i + 1) =~= u.take(i) + seq![u[i]]);
    lemma_encode_utf8_concat(u.take(i), seq![u[i]]);
    assert(seq![u[i]].drop_first() =~= Seq::<char>::empty());
    assert(vstd::utf8::encode_utf8(seq![u[i]]) == vstd::utf8::encode_scalar(u[i] as u32) + vstd::utf8::encode_utf8(
        Seq::<char>::empty(),
    ));
    assert(vstd::utf8::encode_utf8(seq![u[i]]) =~= vstd::utf8::encode_scalar(u[i] as u32));
}

/// Byte offsets grow strictly with character positions.
pub proof fn lemma_byte_pos_increasing(u: Seq<char>, i: int, j: int)
    requires
        0 <= i < j <= u.len(),
    ensures
        byte_pos(u, i) < byte_pos(u, j),
    decreases j - i,
{
    lemma_byte_pos_step(u, j - 1);
    if i < j - 1 {
        lemma_byte_pos_increasing(u, i, j - 1);
    }
}

/// The UTF-8 length of a character.
pub fn utf8_len(c: char) -> (n: usize)
    ensures
        n == vstd::utf8::encode_scalar(c as u32).len(),
        1 <= n <= 4,
{
    broadcast use vstd::utf8::char_is_scalar;

    let v = c as u32;
    assert(vstd::utf8::is_scalar(v));
    if v <= 0x7F {
        1
    } else if v <= 0x7FF {
        2
    } else if v <= 0xFFFF {
        3
    } else {
        4
    }
}

/// The byte offset of character position `i` (see [`byte_pos`]), for
/// characters whose whole encoding fits in memory.
pub fn byte_offset(u: &[char], i: usize) -> (b: usize)
    requires
        i <= u@.len(),
        byte_pos(u@, u@.len() as int) <= usize::MAX,
    ensures
        b == byte_pos(u@, i as int),
{
    let mut acc: usize = 0;
    let mut k: usize = 0;
    assert(u@.take(0) =~= Seq::<char>::empty());
    while k < i
        invariant
            k <= i <= u@.len(),
            byte_pos(u@, u@.len() as int) <= usize::MAX,
            acc == byte_pos(u@, k as int),
        decreases i - k,
    {
        proof {
            lemma_byte_pos_step(u@, k as int);
            if k + 1 < u@.len() {
                lemma_byte_pos_increasing(u@, k + 1, u@.len() as int);
            }
        }
        acc = acc + utf8_len(u[k]);
        k += 1;
    }
    acc
}

/// The character position whose byte offset is `b`.
pub fn char_index_of_byte(u: &[char], b: usize) -> (i: usize)
    requires
        exists|j: int| 0 <= j <= u@.len() && #[trigger] byte_pos(u@, j) == b,
    ensures
        i <= u@.len(),
        byte_pos(u@, i as int) == b,
{
    let ghost j = choose|j: int| 0 <= j <= u@.len() && #[trigger] byte_pos(u@, j) == b;
    let mut acc: usize = 0;
    let mut k: usize = 0;
    assert(u@.take(0) =~= Seq::<char>::empty());
    while acc < b
        invariant
            0 <= j <= u@.len(),
            byte_pos(u@, j) == b,
            k <= j,
            acc == byte_pos(u@, k as int),
            acc <= b,
        decreases j - k,
    {
        proof {
            if k == j {
                assert(false);
            }
            lemma_byte_pos_step(u@, k as int);
            if k + 1 < j {
                lemma_byte_pos_increasing(u@, k + 1, j);
            }
        }
        acc = acc + utf8_len(u[k]);
        k += 1;
    }
    proof {
        if k < j {
            lemma_byte_pos_increasing(u@, k as int, j);
        }
    }
    k
}

} // verus!
