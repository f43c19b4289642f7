//! The registry of supported image formats and the lookup of a path's
//! format by its extension.
use vstd::prelude::*;

use crate::nfs::spec_segments;
use crate::text::{ascii_lower, first_char, last_char, chars_of, rfind_char, slice_of, string_of, to_ascii_lower};

verus! {

/// Which decoder reads a format.
#[derive(Debug, Clone, Copy, PartialEq, Eq, Structural)]
pub enum DecoderKind {
    TurboJpeg,
    Image,
    Heif,
    Raw,
}

/// One supported image format: its settings id, display name, file
/// extensions (lower case) and decoder.
#[derive(Debug, Clone, Copy, PartialEq, Eq)]
pub struct ImageFormat {
    pub id: &'static str,
    pub name: &'static str,
    pub extensions: &'static [&'static str],
    pub decoder: DecoderKind,
}

/// Plain-value view of a format.
pub struct FormatView {
    pub id: Seq<char>,
    pub name: Seq<char>,
    pub extensions: Seq<Seq<char>>,
    pub decoder: DecoderKind,
}

impl ImageFormat {
    pub open spec fn view(&self) -> FormatView {
        FormatView {
            id: self.id@,
            name: self.name@,
            extensions: self.extensions@.map_values(|e: &str| e@),
            decoder: self.decoder,
        }
    }
}

/// The registered formats, in order.
#[verifier::opaque]
pub open spec fn spec_formats() -> Seq<FormatView> {
    seq![
        FormatView {
            id: "jpeg"@,
            name: "JPEG"@,
            extensions: seq!["jpg"@, "jpeg"@],
            decoder: DecoderKind::TurboJpeg,
        },
        FormatView {
            id: "png"@,
            name: "PNG"@,
            extensions: seq!["png"@],
            decoder: DecoderKind::Image,
        },
        FormatView {
            id: "webp"@,
            name: "WebP"@,
            extensions: seq!["webp"@],
            decoder: DecoderKind::Image,
        },
        FormatView {
            id: "gif"@,
            name: "GIF"@,
            extensions: seq!["gif"@],
            decoder: DecoderKind::Image,
        },
        FormatView {
            id: "bmp"@,
            name: "BMP"@,
            extensions: seq!["bmp"@],
            decoder: DecoderKind::Image,
        },
        FormatView {
            id: "tiff"@,
            name: "TIFF"@,
            extensions: seq!["tif"@, "tiff"@],
            decoder: DecoderKind::Image,
        },
        FormatView {
            id: "heif"@,
            name: "HEIC / HEIF"@,
            extensions: seq!["heic"@, "heif"@],
            decoder: DecoderKind::Heif,
        },
        FormatView {
            id: "avif"@,
            name: "AVIF"@,
            extensions: seq!["avif"@],
            decoder: DecoderKind::Image,
        },
        FormatView {
            id: "nikon_raw"@,
            name: "Nikon RAW"@,
            extensions: seq!["nef"@, "nrw"@],
            decoder: DecoderKind::Raw,
        },
        FormatView {
            id: "canon_raw"@,
            name: "Canon RAW"@,
            extensions: seq!["cr2"@, "cr3"@],
            decoder: DecoderKind::Raw,
        },
        FormatView {
            id: "sony_raw"@,
            name: "Sony RAW"@,
            extensions: seq!["arw"@],
            decoder: DecoderKind::Raw,
        },
        FormatView {
            id: "dng"@,
            name: "Digital Negative"@,
            extensions: seq!["dng"@],
            decoder: DecoderKind::Raw,
        },
        FormatView {
            id: "fujifilm_raw"@,
            name: "Fujifilm RAW"@,
            extensions: seq!["raf"@],
            decoder: DecoderKind::Raw,
        },
        FormatView {
            id: "olympus_raw"@,
            name: "Olympus RAW"@,
            extensions: seq!["orf"@],
            decoder: DecoderKind::Raw,
        },
        FormatView {
            id: "panasonic_raw"@,
            name: "Panasonic RAW"@,
            extensions: seq!["rw2"@],
            decoder: DecoderKind::Raw,
        },
        FormatView {
            id: "pentax_raw"@,
            name: "Pentax RAW"@,
            extensions: seq!["pef"@],
            decoder: DecoderKind::Raw,
        },
        FormatView {
            id: "samsung_raw"@,
            name: "Samsung RAW"@,
            extensions: seq!["srw"@],
            decoder: DecoderKind::Raw,
        },
        FormatView {
            id: "generic_raw"@,
            name: "Generic RAW"@,
            extensions: seq!["raw"@],
            decoder: DecoderKind::Raw,
        },
    ]
}

/// Every supported format, in display order.
pub fn all() -> (formats: Vec<ImageFormat>)
    ensures
        formats@.map_values(|f: ImageFormat| f.view()) == spec_formats(),
{
    let formats = vec![
        ImageFormat { id: "jpeg", name: "JPEG", extensions: &["jpg", "jpeg"], decoder: DecoderKind::TurboJpeg },
        ImageFormat { id: "png", name: "PNG", extensions: &["png"], decoder: DecoderKind::Image },
        ImageFormat { id: "webp", name: "WebP", extensions: &["webp"], decoder: DecoderKind::Image },
        ImageFormat { id: "gif", name: "GIF", extensions: &["gif"], decoder: DecoderKind::Image },
        ImageFormat { id: "bmp", name: "BMP", extensions: &["bmp"], decoder: DecoderKind::Image },
        ImageFormat { id: "tiff", name: "TIFF", extensions: &["tif", "tiff"], decoder: DecoderKind::Image },
        ImageFormat { id: "heif", name: "HEIC / HEIF", extensions: &["heic", "heif"], decoder: DecoderKind::Heif },
        ImageFormat { id: "avif", name: "AVIF", extensions: &["avif"], decoder: DecoderKind::Image },
        ImageFormat { id: "nikon_raw", name: "Nikon RAW", extensions: &["nef", "nrw"], decoder: DecoderKind::Raw },
        ImageFormat { id: "canon_raw", name: "Canon RAW", extensions: &["cr2", "cr3"], decoder: DecoderKind::Raw },
        ImageFormat { id: "sony_raw", name: "Sony RAW", extensions: &["arw"], decoder: DecoderKind::Raw },
        ImageFormat { id: "dng", name: "Digital Negative", extensions: &["dng"], decoder: DecoderKind::Raw },
        ImageFormat { id: "fujifilm_raw", name: "Fujifilm RAW", extensions: &["raf"], decoder: DecoderKind::Raw },
        ImageFormat { id: "olympus_raw", name: "Olympus RAW", extensions: &["orf"], decoder: DecoderKind::Raw },
        ImageFormat { id: "panasonic_raw", name: "Panasonic RAW", extensions: &["rw2"], decoder: DecoderKind::Raw },
        ImageFormat { id: "pentax_raw", name: "Pentax RAW", extensions: &["pef"], decoder: DecoderKind::Raw },
        ImageFormat { id: "samsung_raw", name: "Samsung RAW", extensions: &["srw"], decoder: DecoderKind::Raw },
        ImageFormat { id: "generic_raw", name: "Generic RAW", extensions: &["raw"], decoder: DecoderKind::Raw },
    ];
    assert(formats@[0].extensions@ =~= seq!["jpg", "jpeg"]);
    assert(formats@[0].view().extensions =~= seq!["jpg"@, "jpeg"@]);
    assert(formats@[1].extensions@ =~= seq!["png"]);
    assert(formats@[1].view().extensions =~= seq!["png"@]);
    assert(formats@[2].extensions@ =~= seq!["webp"]);
    assert(formats@[2].view().extensions =~= seq!["webp"@]);
    assert(formats@[3].extensions@ =~= seq!["gif"]);
    assert(formats@[3].view().extensions =~= seq!["gif"@]);
    assert(formats@[4].extensions@ =~= seq!["bmp"]);
    assert(formats@[4].view().extensions =~= seq!["bmp"@]);
    assert(formats@[5].extensions@ =~= seq!["tif", "tiff"]);
    assert(formats@[5].view().extensions =~= seq!["tif"@, "tiff"@]);
    assert(formats@[6].extensions@ =~= seq!["heic", "heif"]);
    assert(formats@[6].view().extensions =~= seq!["heic"@, "heif"@]);
    assert(formats@[7].extensions@ =~= seq!["avif"]);
    assert(formats@[7].view().extensions =~= seq!["avif"@]);
    assert(formats@[8].extensions@ =~= seq!["nef", "nrw"]);
    assert(formats@[8].view().extensions =~= seq!["nef"@, "nrw"@]);
    assert(formats@[9].extensions@ =~= seq!["cr2", "cr3"]);
    assert(formats@[9].view().extensions =~= seq!["cr2"@, "cr3"@]);
    assert(formats@[10].extensions@ =~= seq!["arw"]);
    assert(formats@[10].view().extensions =~= seq!["arw"@]);
    assert(formats@[11].extensions@ =~= seq!["dng"]);
    assert(formats@[11].view().extensions =~= seq!["dng"@]);
    assert(formats@[12].extensions@ =~= seq!["raf"]);
    assert(formats@[12].view().extensions =~= seq!["raf"@]);
    assert(formats@[13].extensions@ =~= seq!["orf"]);
    assert(formats@[13].view().extensions =~= seq!["orf"@]);
    assert(formats@[14].extensions@ =~= seq!["rw2"]);
    assert(formats@[14].view().extensions =~= seq!["rw2"@]);
    assert(formats@[15].extensions@ =~= seq!["pef"]);
    assert(formats@[15].view().extensions =~= seq!["pef"@]);
    assert(formats@[16].extensions@ =~= seq!["srw"]);
    assert(formats@[16].view().extensions =~= seq!["srw"@]);
    assert(formats@[17].extensions@ =~= seq!["raw"]);
    assert(formats@[17].view().extensions =~= seq!["raw"@]);
    proof {
        reveal(spec_formats);
    }
    assert(formats@.map_values(|f: ImageFormat| f.view()) =~= spec_formats());
    formats
}

/// The last named component of a list of path components: `.` components
/// are skipped; a final `..` names nothing.
pub open spec fn spec_last_name(segs: Seq<Seq<char>>) -> Option<Seq<char>>
    decreases segs.len(),
{
    if segs.len() == 0 {
        None
    } else if segs.last() == seq!['.'] {
        spec_last_name(segs.drop_last())
    } else if segs.last() == seq!['.', '.'] {
        None
    } else {
        Some(segs.last())
    }
}

/// The file name of a `/`-separated path (`Path::file_name`).
pub open spec fn spec_file_name(path: Seq<char>) -> Option<Seq<char>> {
    spec_last_name(spec_segments(path))
}

/// The extension of a path (`Path::extension`): what follows the last `.`
/// of the file name, unless that dot starts the name.
pub open spec fn spec_extension(path: Seq<char>) -> Option<Seq<char>> {
    match spec_file_name(path) {
        None => None,
        Some(name) => match crate::text::last_char(name, '.') {
            None => None,
            Some(k) => if k == 0 {
                None
            } else {
                Some(name.skip(k + 1))
            },
        },
    }
}

/// ASCII case-insensitive equality.
pub open spec fn eq_ignore_ascii_case(a: Seq<char>, b: Seq<char>) -> bool {
    a.len() == b.len() && forall|i: int| 0 <= i < a.len() ==> #[trigger] ascii_lower(a[i]) == ascii_lower(b[i])
}

/// Whether format `f` lists extension `e` (ignoring ASCII case).
pub open spec fn format_has_extension(f: FormatView, e: Seq<char>) -> bool {
    exists|j: int| 0 <= j < f.extensions.len() && eq_ignore_ascii_case(e, #[trigger] f.extensions[j])
}

/// Index of the first format with an extension equal to `e`.
pub open spec fn spec_format_index(e: Seq<char>) -> Option<int> {
    if exists|i: int| 0 <= i < spec_formats().len() && #[trigger] format_has_extension(spec_formats()[i], e) {
        Some(
            choose|i: int|
                0 <= i < spec_formats().len() && #[trigger] format_has_extension(spec_formats()[i], e)
                    && forall|j: int| 0 <= j < i ==> !#[trigger] format_has_extension(spec_formats()[j], e),
        )
    } else {
        None
    }
}

/// Index of the format of a path, from its extension.
pub open spec fn spec_for_path(path: Seq<char>) -> Option<int> {
    match spec_extension(path) {
        None => None,
        Some(e) => spec_format_index(e),
    }
}

fn last_name(segs: &Vec<Vec<char>>) -> (name: Option<Vec<char>>)
    ensures
        match name {
            Some(n) => spec_last_name(segs@.map_values(|v: Vec<char>| v@)) == Some(n@),
            None => spec_last_name(segs@.map_values(|v: Vec<char>| v@)) is None,
        },
{
    let ghost sv = segs@.map_values(|v: Vec<char>| v@);
    assert(sv.take(segs.len() as int) =~= sv);
    let mut k = segs.len();
    while k > 0
        invariant
            k <= segs@.len(),
            sv == segs@.map_values(|v: Vec<char>| v@),
            spec_last_name(sv) == spec_last_name(sv.take(k as int)),
        decreases k,
    {
        let seg = &segs[k - 1];
        assert(sv.take(k as int).last() == seg@);
        assert(sv.take(k as int).drop_last() =~= sv.take(k - 1));
        let dot = seg.len() == 1 && seg[0] == '.';
        let dotdot = seg.len() == 2 && seg[0] == '.' && seg[1] == '.';
        proof {
            if seg@.len() == 1 {
                assert(dot == (seg@ =~= seq!['.']));
            } else {
                assert(seg@ != seq!['.']);
            }
            if seg@.len() == 2 {
                assert(dotdot == (seg@ =~= seq!['.', '.']));
            } else {
                assert(seg@ != seq!['.', '.']);
            }
        }
        if dotdot {
            return None;
        }
        if !dot {
            return Some(slice_of(seg, 0, seg.len()));
        }
        k -= 1;
    }
    assert(sv.take(0) =~= Seq::<Seq<char>>::empty());
    None
}

/// The extension of a path (see [`spec_extension`]).
pub fn extension(path: &[char]) -> (ext: Option<Vec<char>>)
    ensures
        match ext {
            Some(e) => spec_extension(path@) == Some(e@),
            None => spec_extension(path@) is None,
        },
{
    let segs = crate::nfs::path_segments(path);
    match last_name(&segs) {
        None => None,
        Some(name) => match rfind_char(&name, '.') {
            None => None,
            Some(k) => {
                if k == 0 {
                    None
                } else {
                    assert(name@.len() == name.len());
                    let e = slice_of(&name, k + 1, name.len());
                    assert(e@ =~= name@.skip(k + 1));
                    Some(e)
                }
            },
        },
    }
}

fn same_ignoring_ascii_case(a: &[char], b: &[char]) -> (same: bool)
    ensures
        same == eq_ignore_ascii_case(a@, b@),
{
    if a.len() != b.len() {
        return false;
    }
    let mut i: usize = 0;
    while i < a.len()
        invariant
            a@.len() == b@.len(),
            0 <= i <= a@.len(),
            forall|j: int| 0 <= j < i ==> #[trigger] ascii_lower(a@[j]) == ascii_lower(b@[j]),
        decreases a@.len() - i,
    {
        if to_ascii_lower(a[i]) != to_ascii_lower(b[i]) {
            return false;
        }
        i += 1;
    }
    true
}

fn has_extension(format: &ImageFormat, e: &[char]) -> (found: bool)
    ensures
        found == format_has_extension(format.view(), e@),
{
    let mut j: usize = 0;
    while j < format.extensions.len()
        invariant
            0 <= j <= format.extensions@.len(),
            forall|m: int| 0 <= m < j ==> !eq_ignore_ascii_case(e@, #[trigger] format.view().extensions[m]),
        decreases format.extensions@.len() - j,
    {
        let candidate = chars_of(format.extensions[j]);
        assert(candidate@ == format.view().extensions[j as int]);
        if same_ignoring_ascii_case(e, &candidate) {
            return true;
        }
        j += 1;
    }
    false
}

/// The first format with extension `e` is format `i` when `i` has it and
/// no earlier one does.
proof fn lemma_format_index(e: Seq<char>, i: int)
    requires
        0 <= i < spec_formats().len(),
        format_has_extension(spec_formats()[i], e),
        forall|j: int| 0 <= j < i ==> !#[trigger] format_has_extension(spec_formats()[j], e),
    ensures
        spec_format_index(e) == Some(i),
{
    let k = choose|k: int|
        0 <= k < spec_formats().len() && #[trigger] format_has_extension(spec_formats()[k], e)
            && forall|j: int| 0 <= j < k ==> !#[trigger] format_has_extension(spec_formats()[j], e);
    if k < i {
        assert(!format_has_extension(spec_formats()[k], e));
    }
    if k > i {
        assert(!format_has_extension(spec_formats()[i], e));
    }
}

/// The format of a path, found by its extension (ASCII case-insensitive).
pub fn for_path(path: &str) -> (format: Option<ImageFormat>)
    ensures
        format is Some == spec_for_path(path@) is Some,
        format is Some ==> 0 <= spec_for_path(path@)->0 < spec_formats().len()
            && format->0.view() == spec_formats()[spec_for_path(path@)->0],
{
    let p = chars_of(path);
    let e = match extension(&p) {
        Some(e) => e,
        None => return None,
    };
    let formats = all();
    let ghost fv = formats@.map_values(|f: ImageFormat| f.view());
    let mut i: usize = 0;
    while i < formats.len()
        invariant
            0 <= i <= formats@.len(),
            fv == formats@.map_values(|f: ImageFormat| f.view()),
            fv == spec_formats(),
            spec_extension(path@) == Some(e@),
            forall|j: int| 0 <= j < i ==> !#[trigger] format_has_extension(spec_formats()[j], e@),
        decreases formats@.len() - i,
    {
        let f = formats[i];
        assert(fv[i as int] == f.view());
        if has_extension(&f, &e) {
            proof {
                lemma_format_index(e@, i as int);
            }
            return Some(f);
        }
        i += 1;
    }
    None
}

/// Whether a path has a supported image extension.
pub fn supported(path: &str) -> (b: bool)
    ensures
        b == spec_for_path(path@) is Some,
{
    for_path(path).is_some()
}

/// Whether a path's format is read by `decoder`.
pub fn uses(path: &str, decoder: DecoderKind) -> (b: bool)
    ensures
        b == match spec_for_path(path@) {
            Some(i) => spec_formats()[i].decoder == decoder,
            None => false,
        },
{
    match for_path(path) {
        Some(f) => f.decoder == decoder,
        None => false,
    }
}

/// The settings key that stores whether a format is shown.
pub fn setting_key(format: &ImageFormat) -> (key: String)
    ensures
        key@ == "format-enabled-"@ + format.id@,
{
    let mut key = chars_of("format-enabled-");
    crate::text::extend(&mut key, &chars_of(format.id));
    string_of(&key)
}

/// Whether a stored visibility shows a format: everything but `false`
/// (nothing stored included) shows it.
pub open spec fn spec_enabled_from(stored: Option<Seq<char>>) -> bool {
    stored != Some("false"@)
}

/// The text stored for a visibility.
pub open spec fn spec_enabled_value(enabled: bool) -> Seq<char> {
    if enabled {
        "true"@
    } else {
        "false"@
    }
}

/// Whether a format is shown, from the value stored under its settings key:
/// everything but a stored `false` shows it.
pub fn enabled_from_setting(stored: Option<&str>) -> (enabled: bool)
    ensures
        enabled == spec_enabled_from(crate::settings::stored(stored)),
{
    match stored {
        Some(v) => {
            let chars = chars_of(v);
            let f = vec!['f', 'a', 'l', 's', 'e'];
            proof {
                reveal_strlit("false");
                assert(f@ =~= "false"@);
            }
            !crate::text::same_chars(&chars, &f)
        },
        None => true,
    }
}

/// The value stored for a format's visibility.
pub fn enabled_setting_value(enabled: bool) -> (value: &'static str)
    ensures
        value@ == spec_enabled_value(enabled),
{
    if enabled {
        "true"
    } else {
        "false"
    }
}

/// Whether a path's format is one of the enabled format ids.
pub fn path_is_enabled_in(enabled: &[String], path: &str) -> (b: bool)
    ensures
        b == (spec_for_path(path@) is Some && exists|k: int|
            0 <= k < enabled@.len() && #[trigger] enabled@[k]@ == spec_formats()[spec_for_path(path@)->0].id),
{
    match for_path(path) {
        None => false,
        Some(f) => {
            let id = chars_of(f.id);
            assert(f.view().id == f.id@);
            let mut k: usize = 0;
            while k < enabled.len()
                invariant
                    0 <= k <= enabled@.len(),
                    id@ == f.id@,
                    spec_for_path(path@) is Some,
                    f.id@ == spec_formats()[spec_for_path(path@)->0].id,
                    forall|m: int| 0 <= m < k ==> #[trigger] enabled@[m]@ != f.id@,
                decreases enabled@.len() - k,
            {
                let candidate = chars_of(enabled[k].as_str());
                if crate::text::same_chars(&candidate, &id) {
                    assert(enabled@[k as int]@ == spec_formats()[spec_for_path(path@)->0].id);
                    return true;
                }
                k += 1;
            }
            false
        },
    }
}

/// A format's visibility reads back as stored: the value written for
/// `enabled` gives `enabled` again, and with nothing stored a format shows.
pub proof fn lemma_visibility_round_trip(enabled: bool)
    ensures
        spec_enabled_from(Some(spec_enabled_value(enabled))) == enabled,
        spec_enabled_from(None),
{
    reveal_strlit("true");
    reveal_strlit("false");
    assert("true"@.len() == 4);
    assert("false"@.len() == 5);
}


/// The declared extensions of one format: each of at least three lower-case
/// ASCII letters and digits, none shared with another format.
pub(crate) proof fn lemma_extension_table(i: int, k: int, j: int, m: int)
    requires
        0 <= i < spec_formats().len(),
        0 <= k < spec_formats()[i].extensions.len(),
        0 <= j < spec_formats().len(),
        0 <= m < spec_formats()[j].extensions.len(),
    ensures
        forall|p: int|
            0 <= p < spec_formats()[i].extensions[k].len() ==> ascii_lower(
                #[trigger] spec_formats()[i].extensions[k][p],
            ) == spec_formats()[i].extensions[k][p],
        forall|p: int|
            0 <= p < spec_formats()[i].extensions[k].len() ==> ('a' <= #[trigger] spec_formats()[i].extensions[k][p]
                <= 'z' || '0' <= spec_formats()[i].extensions[k][p] <= '9'),
        spec_formats()[i].extensions[k].len() >= 3,
        i != j ==> spec_formats()[i].extensions[k] != spec_formats()[j].extensions[m],
{
    reveal(spec_formats);
    reveal_strlit("jpg");
    reveal_strlit("jpeg");
    reveal_strlit("png");
    reveal_strlit("webp");
    reveal_strlit("gif");
    reveal_strlit("bmp");
    reveal_strlit("tif");
    reveal_strlit("tiff");
    reveal_strlit("heic");
    reveal_strlit("heif");
    reveal_strlit("avif");
    reveal_strlit("nef");
    reveal_strlit("nrw");
    reveal_strlit("cr2");
    reveal_strlit("cr3");
    reveal_strlit("arw");
    reveal_strlit("dng");
    reveal_strlit("raf");
    reveal_strlit("orf");
    reveal_strlit("rw2");
    reveal_strlit("pef");
    reveal_strlit("srw");
    reveal_strlit("raw");
    let a = spec_formats()[i].extensions[k];
    let b = spec_formats()[j].extensions[m];
    if i != j {
        assert(a.len() != b.len() || a[0] != b[0] || a[a.len() - 1] != b[b.len() - 1]);
    }
}

/// Every declared extension of a format, in any ASCII case, finds that
/// format: no other format declares it.
pub proof fn lemma_declared_extension_finds_its_format(i: int, k: int, e: Seq<char>)
    requires
        0 <= i < spec_formats().len(),
        0 <= k < spec_formats()[i].extensions.len(),
        eq_ignore_ascii_case(e, spec_formats()[i].extensions[k]),
    ensures
        spec_format_index(e) == Some(i),
{
    assert(format_has_extension(spec_formats()[i], e));
    assert forall|j: int| 0 <= j < i implies !#[trigger] format_has_extension(spec_formats()[j], e) by {
        if format_has_extension(spec_formats()[j], e) {
            let m = choose|m: int|
                0 <= m < spec_formats()[j].extensions.len() && eq_ignore_ascii_case(e, #[trigger] spec_formats()[j].extensions[m]);
            lemma_extension_table(i, k, j, m);
            lemma_extension_table(j, m, i, k);
            let a = spec_formats()[i].extensions[k];
            let b = spec_formats()[j].extensions[m];
            assert forall|p: int| 0 <= p < a.len() implies a[p] == b[p] by {
                assert(ascii_lower(e[p]) == ascii_lower(a[p]));
                assert(ascii_lower(e[p]) == ascii_lower(b[p]));
            }
            assert(a =~= b);
        }
    }
    lemma_format_index(e, i);
}

/// A file named `stem.ext`, where `ext` is a declared extension of format
/// `i` in any ASCII case and `stem` is a non-empty name without `/`, finds
/// format `i`.
pub proof fn lemma_named_file_finds_declared_format(stem: Seq<char>, i: int, k: int, e: Seq<char>)
    requires
        stem.len() > 0,
        forall|p: int| 0 <= p < stem.len() ==> #[trigger] stem[p] != '/',
        0 <= i < spec_formats().len(),
        0 <= k < spec_formats()[i].extensions.len(),
        eq_ignore_ascii_case(e, spec_formats()[i].extensions[k]),
    ensures
        spec_for_path(stem + seq!['.'] + e) == Some(i),
{
    let ext = spec_formats()[i].extensions[k];
    lemma_extension_table(i, k, i, k);
    let name = stem + seq!['.'] + e;
    let dot = stem.len() as int;
    assert forall|p: int| 0 <= p < e.len() implies #[trigger] e[p] != '/' && e[p] != '.' by {
        assert(ascii_lower(e[p]) == ascii_lower(ext[p]));
        assert('a' <= ext[p] <= 'z' || '0' <= ext[p] <= '9');
    }
    assert forall|p: int| 0 <= p < name.len() implies #[trigger] name[p] != '/' by {
        if p < dot {
            assert(name[p] == stem[p]);
        } else if p > dot {
            assert(name[p] == e[p - dot - 1]);
        }
    }
    assert(first_char(name, '/', 0) is None);
    assert(spec_segments(name) =~= seq![name]);
    assert(seq![name].last() == name);
    assert(name.len() >= 5);
    assert(name != seq!['.']);
    assert(name != seq!['.', '.']);
    assert(spec_file_name(name) == Some(name));
    assert(name[dot] == '.');
    let found = last_char(name, '.');
    assert(found is Some);
    let q = found->0;
    if q < dot {
        assert(name[dot] != '.');
    } else if q > dot {
        assert(name[q] == e[q - dot - 1]);
    }
    assert(q == dot);
    assert(name.skip(dot + 1) =~= e);
    assert(spec_extension(name) == Some(e));
    lemma_declared_extension_finds_its_format(i, k, e);
}

} // verus!
