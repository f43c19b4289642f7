//! Listings of network shares: which names a server listing shows, the URIs
//! of the children, the order in which they are shown, and the exports of
//! an NFS server.
use vstd::prelude::*;

use crate::formats::{for_path, spec_for_path};
use crate::nfs::{encode, spec_encode_bytes};
use crate::shares::{
    copy_entry, entries_view, nfs_scheme, nfs_scheme_chars, private, spec_private, spec_trim_end_slashes, trim_end_slashes,
    Entry, EntryView, Metadata,
};
use crate::sorting::{
    is_stable_order, keys_view, lemma_lex_total, lemma_lex_transitive, lex_less, lex_lt, stable_order,
};
use crate::text::{chars_of, extend, last_char, rfind_char, same_chars, slice_of, string_of};

verus! {

/// The Unicode lower-case mapping of a text, as `str::to_lowercase` computes it.
pub uninterp spec fn unicode_lowercase(s: Seq<char>) -> Seq<char>;

/// `str::to_lowercase`: its result is named [`unicode_lowercase`] of the
/// text; nothing else is claimed of it.
#[verifier::external_body]
fn lowercase(s: &str) -> (lower: String)
    ensures
        lower@ == unicode_lowercase(s@),
{
    s.to_lowercase()
}

/// The key by which a listing orders an entry: directories first when
/// `dirs_first`, then the lower-cased name.
pub open spec fn entry_key(e: EntryView, dirs_first: bool) -> (u8, Seq<char>) {
    (if dirs_first && !e.is_dir { 1u8 } else { 0u8 }, unicode_lowercase(e.name))
}

/// The keys of a list of entries.
pub open spec fn entry_keys(entries: Seq<EntryView>, dirs_first: bool) -> Seq<(u8, Seq<char>)> {
    entries.map_values(|e: EntryView| entry_key(e, dirs_first))
}

/// `sorted` is `entries` rearranged in the stable order of `keys`.
pub open spec fn is_sorted_by(
    keys: Seq<(u8, Seq<char>)>,
    entries: Seq<EntryView>,
    sorted: Seq<EntryView>,
) -> bool {
    exists|order: Seq<usize>|
        #[trigger] is_stable_order(keys, order) && sorted.len() == order.len() && forall|m: int|
            0 <= m < sorted.len() ==> sorted[m] == entries[order[m] as int]
}

/// Entries in the order a listing shows them: a stable sort by lower-cased
/// name, directories first when `dirs_first`.
pub fn sort_entries(entries: &Vec<Entry>, dirs_first: bool) -> (sorted: Vec<Entry>)
    ensures
        is_sorted_by(entry_keys(entries_view(entries@), dirs_first), entries_view(entries@), entries_view(sorted@)),
{
    let ghost ev = entries_view(entries@);
    let mut keys: Vec<(u8, Vec<char>)> = Vec::new();
    let mut i: usize = 0;
    while i < entries.len()
        invariant
            0 <= i <= entries@.len(),
            ev == entries_view(entries@),
            keys@.len() == i,
            forall|j: int| 0 <= j < i ==> (#[trigger] keys@[j].0, keys@[j].1@) == entry_key(ev[j], dirs_first),
        decreases entries@.len() - i,
    {
        let e = &entries[i];
        let rank: u8 = if dirs_first && !e.is_dir { 1 } else { 0 };
        let lower = lowercase(e.name.as_str());
        keys.push((rank, chars_of(lower.as_str())));
        i += 1;
    }
    let ghost kv = entry_keys(ev, dirs_first);
    assert(keys_view(keys@) =~= kv) by {
        assert forall|j: int| 0 <= j < kv.len() implies keys_view(keys@)[j] == kv[j] by {
            assert((keys@[j].0, keys@[j].1@) == entry_key(ev[j], dirs_first));
        }
    }
    let order = stable_order(&keys);
    let mut sorted: Vec<Entry> = Vec::new();
    let mut m: usize = 0;
    while m < order.len()
        invariant
            0 <= m <= order@.len(),
            ev == entries_view(entries@),
            is_stable_order(kv, order@),
            kv.len() == entries@.len(),
            sorted@.len() == m,
            forall|k: int| 0 <= k < m ==> #[trigger] sorted@[k].view() == ev[order@[k] as int],
        decreases order@.len() - m,
    {
        let idx = order[m];
        assert(order@[m as int] < kv.len());
        sorted.push(copy_entry(&entries[idx]));
        m += 1;
    }
    let ghost sv = entries_view(sorted@);
    assert(sorted@.len() == order@.len() && forall|k: int| 0 <= k < sv.len() ==> sv[k] == ev[order@[k] as int]);
    sorted
}

/// Whether a listed kind is a directory: NFS reports 7 for a directory;
/// Samba reports 3 for a share and 7 for a directory.
pub open spec fn is_dir_kind(kind: u32, smb: bool) -> bool {
    kind == 7 || (smb && kind == 3)
}

/// The URI of child `name` under `parent`: the parent without trailing
/// `/`, a `/`, and the percent-encoded name.
pub open spec fn child_uri(parent: Seq<char>, name: Seq<char>) -> Seq<char> {
    spec_trim_end_slashes(parent) + seq!['/'] + spec_encode_bytes(vstd::utf8::encode_utf8(name))
}

/// The entries a listing shows, in the order the server reported them:
/// directories, and files (kind 8) of a supported image format.
pub open spec fn shown_children(parent: Seq<char>, results: Seq<(Seq<char>, u32)>, smb: bool) -> Seq<
    EntryView,
>
    decreases results.len(),
{
    if results.len() == 0 {
        Seq::empty()
    } else {
        let rest = shown_children(parent, results.drop_last(), smb);
        let name = results.last().0;
        let kind = results.last().1;
        let is_dir = is_dir_kind(kind, smb);
        if is_dir || (kind == 8 && spec_for_path(name) is Some) {
            rest.push(EntryView { name, uri: child_uri(parent, name), is_dir, server: Seq::empty() })
        } else {
            rest
        }
    }
}

/// The plain view of what a server listing reported: names and kinds.
pub open spec fn results_view(results: Seq<(String, u32)>) -> Seq<(Seq<char>, u32)> {
    results.map_values(|r: (String, u32)| (r.0@, r.1))
}

fn dir_kind(kind: u32, smb: bool) -> (b: bool)
    ensures
        b == is_dir_kind(kind, smb),
{
    kind == 7 || (smb && kind == 3)
}

/// The URI of a child.
pub fn child_uri_of(parent: &str, name: &str) -> (uri: String)
    ensures
        uri@ == child_uri(parent@, name@),
{
    let mut out = trim_end_slashes(&chars_of(parent));
    out.push('/');
    let encoded = encode(name);
    extend(&mut out, &chars_of(encoded.as_str()));
    string_of(&out)
}

/// The shown entries of a listing, in the server's order.
fn shown(parent: &str, results: Vec<(String, u32)>, smb: bool) -> (entries: Vec<Entry>)
    ensures
        entries_view(entries@) == shown_children(parent@, results_view(results@), smb),
{
    let ghost rv = results_view(results@);
    let mut entries: Vec<Entry> = Vec::new();
    let mut i: usize = 0;
    while i < results.len()
        invariant
            0 <= i <= results@.len(),
            rv == results_view(results@),
            entries_view(entries@) == shown_children(parent@, rv.take(i as int), smb),
        decreases results@.len() - i,
    {
        let name = &results[i].0;
        let kind = results[i].1;
        assert(rv.take(i + 1).drop_last() =~= rv.take(i as int));
        assert(rv.take(i + 1).last() == (name@, kind));
        let is_dir = dir_kind(kind, smb);
        if is_dir || (kind == 8 && for_path(name.as_str()).is_some()) {
            let uri = child_uri_of(parent, name.as_str());
            let ghost before = entries_view(entries@);
            entries.push(Entry { name: name.clone(), uri, is_dir, server: String::new() });
            assert(entries_view(entries@) =~= before.push(entries@.last().view()));
        }
        i += 1;
    }
    assert(rv.take(results@.len() as int) =~= rv);
    entries
}

/// The entries of an NFS directory listing: directories and supported
/// images, with their child URIs, directories first and then by
/// lower-cased name.
pub fn nfs_children(uri: &str, results: Vec<(String, u32)>) -> (entries: Vec<Entry>)
    ensures
        is_sorted_by(
            entry_keys(shown_children(uri@, results_view(results@), false), true),
            shown_children(uri@, results_view(results@), false),
            entries_view(entries@),
        ),
{
    let listed = shown(uri, results, false);
    sort_entries(&listed, true)
}

/// The entries of an SMB listing (shares, directories and supported
/// images), directories first and then by lower-cased name.
pub fn smb_children(uri: &str, results: Vec<(String, u32)>) -> (entries: Vec<Entry>)
    ensures
        is_sorted_by(
            entry_keys(shown_children(uri@, results_view(results@), true), true),
            shown_children(uri@, results_view(results@), true),
            entries_view(entries@),
        ),
{
    let listed = shown(uri, results, true);
    sort_entries(&listed, true)
}

/// `s` is in strictly increasing order: sorted, with nothing twice.
pub open spec fn strictly_sorted(s: Seq<Seq<char>>) -> bool {
    forall|i: int, j: int| 0 <= i < j < s.len() ==> lex_lt(#[trigger] s[i], #[trigger] s[j])
}

/// The export paths of a server as shown and searched: each without its
/// trailing `/`, sorted, each once.
pub open spec fn is_export_list(raw: Seq<Seq<char>>, exports: Seq<Seq<char>>) -> bool {
    &&& strictly_sorted(exports)
    &&& forall|x: Seq<char>| #[trigger] exports.contains(x) <==> exists|i: int|
        0 <= i < raw.len() && spec_trim_end_slashes(#[trigger] raw[i]) == x
}

/// The plain view of a list of character vectors.
pub open spec fn vecs_view(v: Seq<Vec<char>>) -> Seq<Seq<char>> {
    v.map_values(|c: Vec<char>| c@)
}

/// The plain view of a list of texts.
pub open spec fn strings_view(v: Seq<String>) -> Seq<Seq<char>> {
    v.map_values(|s: String| s@)
}

/// The export paths a server announced, without trailing `/`, sorted and
/// without repeats.
pub fn normalize_exports(raw: &Vec<String>) -> (exports: Vec<String>)
    ensures
        is_export_list(strings_view(raw@), strings_view(exports@)),
{
    let ghost rv = strings_view(raw@);
    let mut out: Vec<Vec<char>> = Vec::new();
    let mut i: usize = 0;
    while i < raw.len()
        invariant
            0 <= i <= raw@.len(),
            rv == strings_view(raw@),
            strictly_sorted(vecs_view(out@)),
            forall|x: Seq<char>| #[trigger] vecs_view(out@).contains(x) <==> exists|k: int|
                0 <= k < i && spec_trim_end_slashes(#[trigger] rv[k]) == x,
        decreases raw@.len() - i,
    {
        let ghost ov = vecs_view(out@);
        let p = trim_end_slashes(&chars_of(raw[i].as_str()));
        assert(p@ == spec_trim_end_slashes(rv[i as int]));
        let mut q: usize = 0;
        while q < out.len() && lex_less(&out[q], &p)
            invariant
                0 <= q <= out@.len(),
                ov == vecs_view(out@),
                forall|k: int| 0 <= k < q ==> lex_lt(#[trigger] ov[k], p@),
            decreases out@.len() - q,
        {
            q += 1;
        }
        let present = q < out.len() && same_chars(&out[q], &p);
        if !present {
            proof {
                if q < ov.len() {
                    lemma_lex_total(ov[q as int], p@);
                    assert(lex_lt(p@, ov[q as int]));
                }
                assert forall|k: int| q <= k < ov.len() implies lex_lt(p@, #[trigger] ov[k]) by {
                    if k > q {
                        lemma_lex_transitive(p@, ov[q as int], ov[k]);
                    }
                }
            }
            out.insert(q, p);
            proof {
                let nv = vecs_view(out@);
                assert(nv =~= ov.insert(q as int, p@));
                assert forall|a: int, b: int| 0 <= a < b < nv.len() implies lex_lt(#[trigger] nv[a], #[trigger] nv[b]) by {
                    if b < q {
                    } else if a < q && b == q {
                    } else if a < q {
                        assert(nv[b] == ov[b - 1]);
                        lemma_lex_transitive(nv[a], p@, nv[b]);
                    } else if a == q {
                        assert(nv[b] == ov[b - 1]);
                    } else {
                        assert(nv[a] == ov[a - 1]);
                        assert(nv[b] == ov[b - 1]);
                    }
                }
                assert forall|x: Seq<char>| #[trigger] nv.contains(x) <==> exists|k: int|
                    0 <= k < i + 1 && spec_trim_end_slashes(#[trigger] rv[k]) == x by {
                    if nv.contains(x) {
                        let m = choose|m: int| 0 <= m < nv.len() && nv[m] == x;
                        if m < q {
                            assert(ov.contains(x));
                        } else if m > q {
                            assert(nv[m] == ov[m - 1]);
                            assert(ov.contains(x));
                        }
                    }
                    if exists|k: int| 0 <= k < i + 1 && spec_trim_end_slashes(#[trigger] rv[k]) == x {
                        if x == p@ {
                            assert(nv[q as int] == x);
                        } else {
                            let k = choose|k: int| 0 <= k < i + 1 && spec_trim_end_slashes(#[trigger] rv[k]) == x;
                            assert(k < i);
                            assert(ov.contains(x));
                            let m = choose|m: int| 0 <= m < ov.len() && ov[m] == x;
                            if m < q {
                                assert(nv[m] == x);
                            } else {
                                assert(nv[m + 1] == x);
                            }
                        }
                    }
                }
            }
        } else {
            proof {
                assert(ov[q as int] == p@);
                assert forall|x: Seq<char>| #[trigger] ov.contains(x) <==> exists|k: int|
                    0 <= k < i + 1 && spec_trim_end_slashes(#[trigger] rv[k]) == x by {
                    if exists|k: int| 0 <= k < i + 1 && spec_trim_end_slashes(#[trigger] rv[k]) == x {
                        let k = choose|k: int| 0 <= k < i + 1 && spec_trim_end_slashes(#[trigger] rv[k]) == x;
                        if k == i {
                            assert(ov.contains(x));
                        }
                    }
                }
            }
        }
        i += 1;
    }
    let mut exports: Vec<String> = Vec::new();
    let mut m: usize = 0;
    let ghost ov = vecs_view(out@);
    while m < out.len()
        invariant
            0 <= m <= out@.len(),
            ov == vecs_view(out@),
            strings_view(exports@) =~= ov.take(m as int),
        decreases out@.len() - m,
    {
        let text = string_of(&out[m]);
        assert(text@ == ov[m as int]);
        let ghost before = strings_view(exports@);
        exports.push(text);
        assert(strings_view(exports@) =~= before.push(text@));
        assert(ov.take(m + 1) =~= ov.take(m as int).push(ov[m as int]));
        m += 1;
    }
    assert(ov.take(out@.len() as int) =~= ov);
    exports
}

/// The advertised paths that name a server's root rather than an export:
/// `/`, `/mnt` and `/exports`. Listing one of them shows the exports.
pub open spec fn is_pseudo_root(path: Seq<char>) -> bool {
    ||| path == seq!['/']
    ||| path == seq!['/', 'm', 'n', 't']
    ||| path == seq!['/', 'e', 'x', 'p', 'o', 'r', 't', 's']
}

/// The last `/`-separated piece of a path (the whole path without `/`).
pub open spec fn last_piece(path: Seq<char>) -> Seq<char> {
    match last_char(path, '/') {
        Some(k) => path.skip(k + 1),
        None => path,
    }
}

/// The entry that shows export `path` of `host`.
pub open spec fn export_entry(host: Seq<char>, path: Seq<char>) -> EntryView {
    EntryView { name: last_piece(path), uri: nfs_scheme() + host + path, is_dir: true, server: Seq::empty() }
}

fn pseudo_root(path: &[char]) -> (b: bool)
    ensures
        b == is_pseudo_root(path@),
{
    let root = vec!['/'];
    let mnt = vec!['/', 'm', 'n', 't'];
    let exports = vec!['/', 'e', 'x', 'p', 'o', 'r', 't', 's'];
    assert(root@ =~= seq!['/']);
    assert(mnt@ =~= seq!['/', 'm', 'n', 't']);
    assert(exports@ =~= seq!['/', 'e', 'x', 'p', 'o', 'r', 't', 's']);
    same_chars(path, &root) || same_chars(path, &mnt) || same_chars(path, &exports)
}

/// What listing `path` of NFS server `host` shows when the path is one of
/// the server's pseudo-roots: one directory entry per export, in the order
/// of `exports`. `None` for any other path, which is listed from its export.
pub fn nfs_root_listing(host: &str, path: &str, exports: &Vec<String>) -> (listing: Option<Vec<Entry>>)
    ensures
        listing is Some == is_pseudo_root(path@),
        listing matches Some(entries) ==> entries_view(entries@) == strings_view(exports@).map_values(
            |p: Seq<char>| export_entry(host@, p),
        ),
{
    if !pseudo_root(&chars_of(path)) {
        return None;
    }
    let ghost want = strings_view(exports@).map_values(|p: Seq<char>| export_entry(host@, p));
    let h = chars_of(host);
    let mut entries: Vec<Entry> = Vec::new();
    let mut i: usize = 0;
    while i < exports.len()
        invariant
            0 <= i <= exports@.len(),
            h@ == host@,
            want == strings_view(exports@).map_values(|p: Seq<char>| export_entry(host@, p)),
            entries_view(entries@) =~= want.take(i as int),
        decreases exports@.len() - i,
    {
        let p = chars_of(exports[i].as_str());
        let plen = p.len();
        let name = match rfind_char(&p, '/') {
            Some(k) => {
                assert(k < plen);
                let n = slice_of(&p, k + 1, plen);
                assert(n@ =~= p@.skip(k + 1));
                n
            },
            None => slice_of(&p, 0, p.len()),
        };
        assert(name@ =~= last_piece(p@));
        let mut uri = nfs_scheme_chars();
        extend(&mut uri, &h);
        extend(&mut uri, &p);
        let e = Entry { name: string_of(&name), uri: string_of(&uri), is_dir: true, server: String::new() };
        assert(e.view() == want[i as int]);
        let ghost before = entries_view(entries@);
        entries.push(e);
        assert(entries_view(entries@) =~= before.push(e.view()));
        assert(want.take(i + 1) =~= want.take(i as int).push(want[i as int]));
        i += 1;
    }
    assert(want.take(exports@.len() as int) =~= want);
    Some(entries)
}

/// Consecutive entries with the same URI kept once (`Vec::dedup_by` on the
/// URI): an entry is dropped when the last kept one has its URI.
pub open spec fn dedup_uris(s: Seq<EntryView>) -> Seq<EntryView>
    decreases s.len(),
{
    if s.len() == 0 {
        s
    } else {
        let r = dedup_uris(s.drop_last());
        if r.len() > 0 && r.last().uri == s.last().uri {
            r
        } else {
            r.push(s.last())
        }
    }
}

/// The advertised services that use the private transport, as directory
/// entries with no server name.
pub open spec fn advertised_shares(found: Seq<(Seq<char>, Seq<char>)>) -> Seq<EntryView>
    decreases found.len(),
{
    if found.len() == 0 {
        Seq::empty()
    } else {
        let rest = advertised_shares(found.drop_last());
        let (name, uri) = found.last();
        if spec_private(uri) {
            rest.push(EntryView { name, uri, is_dir: true, server: Seq::empty() })
        } else {
            rest
        }
    }
}

/// The plain view of pairs of texts.
pub open spec fn pairs_view(found: Seq<(String, String)>) -> Seq<(Seq<char>, Seq<char>)> {
    found.map_values(|f: (String, String)| (f.0@, f.1@))
}

fn dedup_by_uri(entries: &Vec<Entry>) -> (out: Vec<Entry>)
    ensures
        entries_view(out@) == dedup_uris(entries_view(entries@)),
{
    let ghost ev = entries_view(entries@);
    let mut out: Vec<Entry> = Vec::new();
    let mut i: usize = 0;
    while i < entries.len()
        invariant
            0 <= i <= entries@.len(),
            ev == entries_view(entries@),
            entries_view(out@) == dedup_uris(ev.take(i as int)),
        decreases entries@.len() - i,
    {
        assert(ev.take(i + 1).drop_last() =~= ev.take(i as int));
        assert(ev.take(i + 1).last() == entries@[i as int].view());
        let keep = out.len() == 0 || !same_chars(
            &chars_of(out[out.len() - 1].uri.as_str()),
            &chars_of(entries[i].uri.as_str()),
        );
        if keep {
            let ghost before = entries_view(out@);
            out.push(copy_entry(&entries[i]));
            assert(entries_view(out@) =~= before.push(entries@[i as int].view()));
        }
        i += 1;
    }
    assert(ev.take(entries@.len() as int) =~= ev);
    out
}

/// The shares found on the local network's service list: the advertised
/// `smb://` and `nfs://` services, by lower-cased name, each URI once where
/// neighbours repeat it.
pub fn discovered_shares(found: Vec<(String, String)>) -> (shares: Vec<Entry>)
    ensures
        exists|sorted: Seq<EntryView>|
            is_sorted_by(
                entry_keys(advertised_shares(pairs_view(found@)), false),
                advertised_shares(pairs_view(found@)),
                sorted,
            ) && entries_view(shares@) == dedup_uris(sorted),
{
    let ghost fv = pairs_view(found@);
    let mut entries: Vec<Entry> = Vec::new();
    let mut i: usize = 0;
    while i < found.len()
        invariant
            0 <= i <= found@.len(),
            fv == pairs_view(found@),
            entries_view(entries@) == advertised_shares(fv.take(i as int)),
        decreases found@.len() - i,
    {
        assert(fv.take(i + 1).drop_last() =~= fv.take(i as int));
        assert(fv.take(i + 1).last() == (found@[i as int].0@, found@[i as int].1@));
        if private(found[i].1.as_str()) {
            let ghost before = entries_view(entries@);
            entries.push(Entry { name: found[i].0.clone(), uri: found[i].1.clone(), is_dir: true, server: String::new() });
            assert(entries_view(entries@) =~= before.push(entries@.last().view()));
        }
        i += 1;
    }
    assert(fv.take(found@.len() as int) =~= fv);
    let sorted = sort_entries(&entries, false);
    dedup_by_uri(&sorted)
}

/// An entry with `server` filled in where the listing named none.
pub open spec fn with_server(e: EntryView, server: Seq<char>) -> EntryView {
    if e.server.len() == 0 {
        EntryView { server, ..e }
    } else {
        e
    }
}

/// Everything a subnet scan listed, host by host, each entry carrying the
/// scanned server's name where the listing named none.
pub open spec fn scanned_stream(found: Seq<(Seq<char>, Seq<EntryView>)>) -> Seq<EntryView>
    decreases found.len(),
{
    if found.len() == 0 {
        Seq::empty()
    } else {
        let server = found.last().0;
        scanned_stream(found.drop_last()) + found.last().1.map_values(|e: EntryView| with_server(e, server))
    }
}

/// The first entry of each URI, in order.
pub open spec fn first_of_each_uri(s: Seq<EntryView>) -> Seq<EntryView>
    decreases s.len(),
{
    if s.len() == 0 {
        s
    } else {
        let r = first_of_each_uri(s.drop_last());
        if exists|k: int| 0 <= k < s.len() - 1 && #[trigger] s[k].uri == s.last().uri {
            r
        } else {
            r.push(s.last())
        }
    }
}

/// The plain view of what a subnet scan listed: each server's name and
/// listed entries.
pub open spec fn scan_view(found: Seq<(String, Vec<Entry>)>) -> Seq<(Seq<char>, Seq<EntryView>)> {
    found.map_values(|f: (String, Vec<Entry>)| (f.0@, entries_view(f.1@)))
}

/// Whether some entry of `s` has URI `x`.
pub open spec fn has_uri(s: Seq<EntryView>, x: Seq<char>) -> bool {
    exists|k: int| 0 <= k < s.len() && #[trigger] s[k].uri == x
}

/// Keeping the first entry of each URI keeps every URI.
proof fn lemma_first_uris(s: Seq<EntryView>)
    ensures
        forall|x: Seq<char>| #[trigger] has_uri(first_of_each_uri(s), x) <==> has_uri(s, x),
    decreases s.len(),
{
    if s.len() > 0 {
        lemma_first_uris(s.drop_last());
        let r = first_of_each_uri(s.drop_last());
        let f = first_of_each_uri(s);
        assert forall|x: Seq<char>| #[trigger] has_uri(f, x) <==> has_uri(s, x) by {
            if has_uri(s, x) {
                let k = choose|k: int| 0 <= k < s.len() && #[trigger] s[k].uri == x;
                if k < s.len() - 1 {
                    assert(s.drop_last()[k].uri == x);
                    assert(has_uri(s.drop_last(), x));
                    assert(has_uri(r, x));
                    let m = choose|m: int| 0 <= m < r.len() && #[trigger] r[m].uri == x;
                    assert(f[m] == r[m]);
                    assert(f[m].uri == x);
                } else if exists|j: int| 0 <= j < s.len() - 1 && #[trigger] s[j].uri == s.last().uri {
                    let j = choose|j: int| 0 <= j < s.len() - 1 && #[trigger] s[j].uri == s.last().uri;
                    assert(s.drop_last()[j].uri == x);
                    assert(has_uri(s.drop_last(), x));
                    assert(has_uri(r, x));
                    let m = choose|m: int| 0 <= m < r.len() && #[trigger] r[m].uri == x;
                    assert(f[m] == r[m]);
                    assert(f[m].uri == x);
                } else {
                    assert(f[f.len() - 1].uri == x);
                }
            }
            if has_uri(f, x) {
                let k = choose|k: int| 0 <= k < f.len() && #[trigger] f[k].uri == x;
                if k < r.len() {
                    assert(r[k].uri == x);
                    assert(has_uri(r, x));
                    let m = choose|m: int| 0 <= m < s.drop_last().len() && #[trigger] s.drop_last()[m].uri == x;
                    assert(s[m].uri == x);
                } else {
                    assert(s[s.len() - 1].uri == x);
                }
            }
        }
    }
}

/// The shares a subnet scan found: every listed entry with its server's
/// name filled in, each URI once (its first listing), by lower-cased name.
pub fn scanned_shares(found: Vec<(String, Vec<Entry>)>) -> (shares: Vec<Entry>)
    ensures
        is_sorted_by(
            entry_keys(first_of_each_uri(scanned_stream(scan_view(found@))), false),
            first_of_each_uri(scanned_stream(scan_view(found@))),
            entries_view(shares@),
        ),
{
    let ghost fv = scan_view(found@);
    let mut stream: Vec<Entry> = Vec::new();
    let mut h: usize = 0;
    while h < found.len()
        invariant
            0 <= h <= found@.len(),
            fv == scan_view(found@),
            entries_view(stream@) == scanned_stream(fv.take(h as int)),
        decreases found@.len() - h,
    {
        let server = &found[h].0;
        let listed = &found[h].1;
        let ghost lv = entries_view(listed@);
        let ghost base = entries_view(stream@);
        assert(fv.take(h + 1).drop_last() =~= fv.take(h as int));
        assert(fv.take(h + 1).last() == (server@, lv));
        let mut j: usize = 0;
        while j < listed.len()
            invariant
                0 <= j <= listed@.len(),
                lv == entries_view(listed@),
                entries_view(stream@) =~= base + lv.take(j as int).map_values(|e: EntryView| with_server(e, server@)),
            decreases listed@.len() - j,
        {
            let mut e = copy_entry(&listed[j]);
            if e.server.as_str().is_empty() {
                e.server = server.clone();
            }
            assert(e.view() == with_server(lv[j as int], server@));
            let ghost before = entries_view(stream@);
            stream.push(e);
            assert(entries_view(stream@) =~= before.push(e.view()));
            assert(lv.take(j + 1).map_values(|e: EntryView| with_server(e, server@)) =~= lv.take(j as int).map_values(
                |e: EntryView| with_server(e, server@),
            ).push(with_server(lv[j as int], server@)));
            j += 1;
        }
        assert(lv.take(listed@.len() as int) =~= lv);
        h += 1;
    }
    assert(fv.take(found@.len() as int) =~= fv);
    let ghost sv = entries_view(stream@);
    let mut kept: Vec<Entry> = Vec::new();
    let mut i: usize = 0;
    while i < stream.len()
        invariant
            0 <= i <= stream@.len(),
            sv == entries_view(stream@),
            entries_view(kept@) == first_of_each_uri(sv.take(i as int)),
        decreases stream@.len() - i,
    {
        let ghost prefix = sv.take(i as int);
        assert(sv.take(i + 1).drop_last() =~= prefix);
        assert(sv.take(i + 1).last() == stream@[i as int].view());
        proof {
            lemma_first_uris(prefix);
        }
        let uri = chars_of(stream[i].uri.as_str());
        let mut seen = false;
        let mut k: usize = 0;
        while k < kept.len()
            invariant
                0 <= k <= kept@.len(),
                uri@ == sv[i as int].uri,
                seen == exists|m: int| 0 <= m < k && #[trigger] kept@[m].uri@ == uri@,
            decreases kept@.len() - k,
        {
            if same_chars(&chars_of(kept[k].uri.as_str()), &uri) {
                seen = true;
            }
            k += 1;
        }
        proof {
            let kv = entries_view(kept@);
            assert(seen == has_uri(kv, uri@)) by {
                if seen {
                    let m = choose|m: int| 0 <= m < k && #[trigger] kept@[m].uri@ == uri@;
                    assert(kv[m].uri == uri@);
                }
                if has_uri(kv, uri@) {
                    let m = choose|m: int| 0 <= m < kv.len() && #[trigger] kv[m].uri == uri@;
                    assert(kept@[m].uri@ == uri@);
                }
            }
            assert(has_uri(kv, uri@) == has_uri(prefix, uri@));
            let s1 = sv.take(i + 1);
            assert(seen == exists|m: int| 0 <= m < s1.len() - 1 && #[trigger] s1[m].uri == s1.last().uri) by {
                if seen {
                    let m = choose|m: int| 0 <= m < prefix.len() && #[trigger] prefix[m].uri == uri@;
                    assert(s1[m].uri == s1.last().uri);
                }
                if exists|m: int| 0 <= m < s1.len() - 1 && #[trigger] s1[m].uri == s1.last().uri {
                    let m = choose|m: int| 0 <= m < s1.len() - 1 && #[trigger] s1[m].uri == s1.last().uri;
                    assert(prefix[m].uri == uri@);
                }
            }
        }
        if !seen {
            let ghost before = entries_view(kept@);
            kept.push(copy_entry(&stream[i]));
            assert(entries_view(kept@) =~= before.push(stream@[i as int].view()));
        }
        i += 1;
    }
    assert(sv.take(stream@.len() as int) =~= sv);
    sort_entries(&kept, false)
}

/// Percent-encode a name as one SMB path segment (the same encoding as an
/// NFS segment: ASCII letters, digits and `-._~()` stay, every other UTF-8
/// byte becomes `%XX`).
pub fn encoded_segment(name: &str) -> (out: String)
    ensures
        out@ == spec_encode_bytes(vstd::utf8::encode_utf8(name@)),
{
    encode(name)
}

/// What a stat of an NFS pseudo-root reports: a directory of size 0 with
/// no modification time. `None` for any other path, which is asked of the
/// server.
pub fn nfs_root_metadata(path: &str) -> (meta: Option<Metadata>)
    ensures
        meta is Some == is_pseudo_root(path@),
        meta matches Some(m) ==> m.size == 0 && m.mtime is None && m.is_dir,
{
    if pseudo_root(&chars_of(path)) {
        Some(Metadata { size: 0, mtime: None, is_dir: true })
    } else {
        None
    }
}

} // verus!
