//! The network share picker's rules: what a typed or chosen address opens,
//! where Up leads, what a listing shows, and which folder can be imported.
use vstd::prelude::*;

use crate::grouping::{decimal_digits, spec_decimal};
use crate::shares::{
    network_root, normalize_input, private, spec_normalize_input, spec_private, spec_trim_end_slashes,
    trim_end_slashes,
};
use crate::text::{chars_of, extend, last_char, rfind_char, same_chars, slice_of, string_of};

verus! {

/// The pseudo location of the subnet scan's results.
pub open spec fn scan_root() -> Seq<char> {
    seq!['s', 'c', 'a', 'n', ':', '/', '/', '/']
}

fn network_root_chars() -> (v: Vec<char>)
    ensures
        v@ == network_root(),
{
    let v = vec!['n', 'e', 't', 'w', 'o', 'r', 'k', ':', '/', '/', '/'];
    assert(v@ =~= network_root());
    v
}

fn scan_root_chars() -> (v: Vec<char>)
    ensures
        v@ == scan_root(),
{
    let v = vec!['s', 'c', 'a', 'n', ':', '/', '/', '/'];
    assert(v@ =~= scan_root());
    v
}

/// What the picker does with an address.
#[derive(Debug, PartialEq, Eq)]
pub enum PickerLoad {
    /// Discover the shares the network advertises.
    Discover,
    /// List this share folder.
    List(String),
    /// The text is no network address; the picker says so.
    NotAnAddress,
    /// The address would leave the private SMB/NFS transport; nothing
    /// happens.
    Ignored,
}

/// The plain view of a [`PickerLoad`].
pub enum PickerLoadView {
    Discover,
    List(Seq<char>),
    NotAnAddress,
    Ignored,
}

impl PickerLoad {
    pub open spec fn view(&self) -> PickerLoadView {
        match self {
            PickerLoad::Discover => PickerLoadView::Discover,
            PickerLoad::List(u) => PickerLoadView::List(u@),
            PickerLoad::NotAnAddress => PickerLoadView::NotAnAddress,
            PickerLoad::Ignored => PickerLoadView::Ignored,
        }
    }
}

/// What an address opens: `network:///` discovers shares; anything else is
/// normalized (see [`spec_normalize_input`]); an address that does not
/// normalize is refused with a message, and only a `smb://` or `nfs://`
/// result is listed.
pub open spec fn spec_picker_load(uri: Seq<char>) -> PickerLoadView {
    if uri == network_root() {
        PickerLoadView::Discover
    } else {
        match spec_normalize_input(uri) {
            None => PickerLoadView::NotAnAddress,
            Some(n) => if n == network_root() {
                PickerLoadView::Discover
            } else if spec_private(n) {
                PickerLoadView::List(n)
            } else {
                PickerLoadView::Ignored
            },
        }
    }
}

/// What the picker does with an address (see [`spec_picker_load`]).
pub fn picker_load(uri: &str) -> (load: PickerLoad)
    ensures
        load@ == spec_picker_load(uri@),
{
    let u = chars_of(uri);
    let root = network_root_chars();
    if same_chars(&u, &root) {
        return PickerLoad::Discover;
    }
    match normalize_input(uri) {
        None => PickerLoad::NotAnAddress,
        Some(n) => {
            let nc = chars_of(n.as_str());
            if same_chars(&nc, &root) {
                PickerLoad::Discover
            } else if private(n.as_str()) {
                PickerLoad::List(n)
            } else {
                PickerLoad::Ignored
            }
        },
    }
}

/// Every address the picker accepts stays on the private transport: it
/// discovers or lists a `smb://`/`nfs://` URI, never ignores one.
pub proof fn lemma_picker_never_ignores(uri: Seq<char>)
    ensures
        !(spec_picker_load(uri) is Ignored),
        spec_picker_load(uri) matches PickerLoadView::List(n) ==> spec_private(n),
{
    let t = crate::shares::spec_trim(uri);
    if uri != network_root() {
        if let Some(n) = spec_normalize_input(uri) {
            if !(t == network_root() || crate::text::is_prefix(crate::shares::smb_scheme(), t)
                || crate::text::is_prefix(crate::shares::nfs_scheme(), t)) {
                let forward = crate::shares::spec_forward_address(t);
                let (host, path) = crate::shares::spec_split_host(forward);
                assert(n == crate::shares::spec_smb_uri(host, path));
                assert(n.take(6) =~= crate::shares::smb_scheme());
            }
        }
    }
}

/// The location Up leads to from `here`: nowhere from the discovery and
/// scan lists; else the text before the last `/` once trailing slashes are
/// dropped, and back to discovery from a server's top (`smb:/`, `nfs:/`)
/// or when no `/` is left.
pub open spec fn spec_up_target(here: Seq<char>) -> Option<Seq<char>> {
    if here == network_root() || here == scan_root() {
        None
    } else {
        let before = spec_trim_end_slashes(here);
        let parent = match last_char(before, '/') {
            Some(k) => before.take(k),
            None => Seq::empty(),
        };
        if parent == seq!['s', 'm', 'b', ':', '/'] || parent == seq!['n', 'f', 's', ':', '/'] || parent.len()
            == 0 {
            Some(network_root())
        } else {
            Some(parent)
        }
    }
}

/// Where the Up button leads (see [`spec_up_target`]).
pub fn up_target(here: &str) -> (target: Option<String>)
    ensures
        match target {
            Some(t) => spec_up_target(here@) == Some(t@),
            None => spec_up_target(here@) is None,
        },
{
    let h = chars_of(here);
    let root = network_root_chars();
    if same_chars(&h, &root) || same_chars(&h, &scan_root_chars()) {
        return None;
    }
    let before = trim_end_slashes(&h);
    let parent = match rfind_char(&before, '/') {
        Some(k) => slice_of(&before, 0, k),
        None => Vec::new(),
    };
    proof {
        match last_char(before@, '/') {
            Some(k) => assert(parent@ =~= before@.take(k)),
            None => assert(parent@ =~= Seq::<char>::empty()),
        }
    }
    let smb_top = vec!['s', 'm', 'b', ':', '/'];
    let nfs_top = vec!['n', 'f', 's', ':', '/'];
    assert(smb_top@ =~= seq!['s', 'm', 'b', ':', '/']);
    assert(nfs_top@ =~= seq!['n', 'f', 's', ':', '/']);
    if same_chars(&parent, &smb_top) || same_chars(&parent, &nfs_top) || parent.len() == 0 {
        Some(string_of(&root))
    } else {
        Some(string_of(&parent))
    }
}

/// Whether the folder shown at `uri` can be imported: a `smb://` or
/// `nfs://` location, not the discovery list.
pub open spec fn spec_importable(uri: Seq<char>) -> bool {
    uri != network_root() && spec_private(uri)
}

/// Whether Import takes the folder shown at `uri`.
pub fn importable(uri: &str) -> (b: bool)
    ensures
        b == spec_importable(uri@),
{
    let u = chars_of(uri);
    !same_chars(&u, &network_root_chars()) && private(uri)
}

/// The texts the picker shows for a listing of `count` entries at `uri`:
/// the address field (empty for the discovery and scan lists), the
/// location line and the status line.
pub open spec fn spec_listing_texts(uri: Seq<char>, count: nat) -> (Seq<char>, Seq<char>, Seq<char>) {
    let scan = uri == scan_root();
    let address = if uri == network_root() || scan {
        Seq::empty()
    } else {
        uri
    };
    let location = if uri == network_root() {
        "Network shares"@
    } else if scan {
        "Scan results: shares found across servers"@
    } else {
        uri
    };
    let status = if scan {
        spec_decimal(count) + " shares found by probing the subnet \u{2014} double-click a folder, or Up to return"@
    } else {
        spec_decimal(count) + " folders and photos found \u{2014} double-click a folder to open it"@
    };
    (address, location, status)
}

/// The address, location and status texts for a listing (see
/// [`spec_listing_texts`]).
pub fn listing_texts(uri: &str, count: usize) -> (texts: (String, String, String))
    ensures
        (texts.0@, texts.1@, texts.2@) == spec_listing_texts(uri@, count as nat),
{
    broadcast use vstd::string::group_string_axioms;

    let u = chars_of(uri);
    let at_root = same_chars(&u, &network_root_chars());
    let scan = same_chars(&u, &scan_root_chars());
    let address = if at_root || scan {
        String::new()
    } else {
        string_of(&u)
    };
    let location = if at_root {
        string_of(&chars_of("Network shares"))
    } else if scan {
        string_of(&chars_of("Scan results: shares found across servers"))
    } else {
        string_of(&u)
    };
    let mut status = decimal_digits(count as u64);
    if scan {
        extend(&mut status, &chars_of(" shares found by probing the subnet \u{2014} double-click a folder, or Up to return"));
    } else {
        extend(&mut status, &chars_of(" folders and photos found \u{2014} double-click a folder to open it"));
    }
    (address, location, string_of(&status))
}

/// A listing row: a folder or picture sign, a space and the entry's name.
pub open spec fn spec_row_label(name: Seq<char>, is_dir: bool) -> Seq<char> {
    seq![if is_dir { '\u{1F4C1}' } else { '\u{1F5BC}' }, ' '] + name
}

/// The label of a listing row (see [`spec_row_label`]).
pub fn row_label(name: &str, is_dir: bool) -> (label: String)
    ensures
        label@ == spec_row_label(name@, is_dir),
{
    let mut c = vec![if is_dir { '\u{1F4C1}' } else { '\u{1F5BC}' }, ' '];
    extend(&mut c, &chars_of(name));
    assert(c@ =~= spec_row_label(name@, is_dir));
    string_of(&c)
}

/// The status shown when a location cannot be read.
pub fn open_failure_text(uri: &str, error: &str) -> (text: String)
    ensures
        text@ == "Could not open "@ + uri@ + ": "@ + error@,
{
    let mut c = chars_of("Could not open ");
    extend(&mut c, &chars_of(uri));
    extend(&mut c, &chars_of(": "));
    extend(&mut c, &chars_of(error));
    string_of(&c)
}

} // verus!
