//! Decisions of a library import: which folders are walked, which files
//! must be read again, what metadata a photo's EXIF gives, and when a batch
//! of indexed photos is committed.
use exif::{In, Reader, Tag, Value};
use std::io::Cursor;

use crate::scanner::ExifValue::{Ascii, Long, Short, Shown};
use vstd::prelude::*;

use crate::formats::{spec_for_path, spec_formats, uses, DecoderKind};
use crate::shares::spec_trim;
use crate::text::{ascii_lower_seq, chars_of, is_prefix, is_suffix, push_char, same_chars, string_of};

verus! {

/// Whether the walk enters a directory: cache folders (`*.lrdata`,
/// `previews`, `cache`, ignoring ASCII case) are skipped.
pub open spec fn spec_should_descend(name: Seq<char>) -> bool {
    let l = ascii_lower_seq(name);
    !is_suffix(".lrdata"@, l) && l != "previews"@ && l != "cache"@
}

/// Whether the import walks into a directory called `name`.
pub fn should_descend(name: &str) -> (b: bool)
    ensures
        b == spec_should_descend(name@),
{
    let c = chars_of(name);
    let mut lower: Vec<char> = Vec::new();
    let mut i: usize = 0;
    while i < c.len()
        invariant
            0 <= i <= c@.len(),
            lower@ == ascii_lower_seq(c@.take(i as int)),
        decreases c@.len() - i,
    {
        lower.push(crate::text::to_ascii_lower(c[i]));
        assert(ascii_lower_seq(c@.take(i + 1)) =~= ascii_lower_seq(c@.take(i as int)).push(
            crate::text::ascii_lower(c@[i as int]),
        ));
        i += 1;
    }
    assert(c@.take(c@.len() as int) =~= c@);
    !crate::text::ends_with(&lower, &chars_of(".lrdata")) && !same_chars(&lower, &chars_of("previews"))
        && !same_chars(&lower, &chars_of("cache"))
}

/// The camera line from the EXIF make and model: the model alone when it
/// already starts with the make, else both joined by a space; either alone
/// when only one is known.
pub open spec fn spec_camera_label(make: Option<Seq<char>>, model: Option<Seq<char>>) -> Option<Seq<char>> {
    match (make, model) {
        (Some(make), Some(model)) => if is_prefix(make, model) {
            Some(model)
        } else {
            Some(make + seq![' '] + model)
        },
        (Some(make), None) => Some(make),
        (None, Some(model)) => Some(model),
        (None, None) => None,
    }
}

/// The view of an optional text.
pub open spec fn text_view(t: Option<String>) -> Option<Seq<char>> {
    match t {
        Some(s) => Some(s@),
        None => None,
    }
}

/// The camera line (see [`spec_camera_label`]).
pub fn camera_label(make: Option<String>, model: Option<String>) -> (label: Option<String>)
    ensures
        text_view(label) == spec_camera_label(text_view(make), text_view(model)),
{
    match (make, model) {
        (Some(make), Some(model)) => {
            let mk = chars_of(make.as_str());
            let md = chars_of(model.as_str());
            if crate::text::starts_with(&md, &mk) {
                Some(model)
            } else {
                let mut joined = mk;
                joined.push(' ');
                crate::text::extend(&mut joined, &md);
                Some(string_of(&joined))
            }
        },
        (Some(make), None) => Some(make),
        (None, Some(model)) => Some(model),
        (None, None) => None,
    }
}

/// An EXIF date (`YYYY:MM:DD HH:MM:SS`) written with `-` in place of every
/// `:`.
pub open spec fn spec_exif_date_text(date: Seq<char>) -> Seq<char> {
    date.map_values(|c: char| if c == ':' { '-' } else { c })
}

/// The stored text of an EXIF date.
pub fn exif_date_text(date: &str) -> (text: String)
    ensures
        text@ == spec_exif_date_text(date@),
{
    let c = chars_of(date);
    let mut out = String::new();
    let mut i: usize = 0;
    while i < c.len()
        invariant
            0 <= i <= c@.len(),
            out@ == spec_exif_date_text(c@.take(i as int)),
        decreases c@.len() - i,
    {
        let ch = if c[i] == ':' { '-' } else { c[i] };
        push_char(&mut out, ch);
        assert(spec_exif_date_text(c@.take(i + 1)) =~= spec_exif_date_text(c@.take(i as int)).push(ch));
        i += 1;
    }
    assert(c@.take(c@.len() as int) =~= c@);
    out
}

/// The text of an ASCII EXIF field: its bytes read as UTF-8 (invalid
/// sequences replaced), trimmed; nothing when that leaves no text.
pub open spec fn spec_ascii_field_text(bytes: Seq<u8>) -> Option<Seq<char>> {
    let t = spec_trim(crate::transport::utf8_lossy(bytes));
    if t.len() == 0 {
        None
    } else {
        Some(t)
    }
}

/// The text of an ASCII EXIF field (see [`spec_ascii_field_text`]).
pub fn ascii_field_text(bytes: &[u8]) -> (text: Option<String>)
    ensures
        text_view(text) == spec_ascii_field_text(bytes@),
{
    let raw = crate::transport::lossy_string(bytes);
    let trimmed = crate::shares::trim_chars(&chars_of(raw.as_str()));
    if trimmed.len() == 0 {
        None
    } else {
        Some(string_of(&trimmed))
    }
}

/// What an import does with a found file.
#[derive(Debug, Clone, Copy, PartialEq, Eq, Structural)]
pub struct ReindexPlan {
    /// The record is current: only its folder is set again.
    pub skip: bool,
    /// The library had no record of the file.
    pub newly_discovered: bool,
    /// A new thumbnail must be made once the file is indexed.
    pub queue_thumbnail: bool,
}

/// What the library holds of a file: modification time, size, width and
/// height.
pub type StoredFingerprint = (Option<i64>, Option<i64>, Option<i64>, Option<i64>);

/// Whether a stored side is missing (unknown or not positive).
pub open spec fn side_missing(v: Option<i64>) -> bool {
    match v {
        Some(x) => x <= 0,
        None => true,
    }
}

/// The decision for a file (see [`ReindexPlan`]): a file is skipped when
/// its modification time and size match the record and nothing is missing
/// (RAW dimensions, or the cached thumbnail of a HEIF or RAW file); a
/// thumbnail is queued when the fingerprint changed or a HEIF thumbnail is
/// missing.
pub open spec fn spec_reindex_plan(
    existing: Option<StoredFingerprint>,
    mtime: Option<i64>,
    size: i64,
    is_raw: bool,
    is_heif: bool,
    has_cached_thumbnail: bool,
) -> ReindexPlan {
    let matches = existing matches Some(e) && e.0 == mtime && e.1 == Some(size);
    let raw_dimensions_missing = is_raw && (existing matches Some(e) && (side_missing(e.2) || side_missing(e.3)));
    let heif_thumbnail_missing = is_heif && existing is Some && !has_cached_thumbnail;
    let raw_thumbnail_missing = is_raw && existing is Some && !has_cached_thumbnail;
    ReindexPlan {
        skip: matches && !raw_dimensions_missing && !heif_thumbnail_missing && !raw_thumbnail_missing,
        newly_discovered: existing is None,
        queue_thumbnail: !matches || heif_thumbnail_missing,
    }
}

fn missing_side(v: Option<i64>) -> (b: bool)
    ensures
        b == side_missing(v),
{
    match v {
        Some(x) => x <= 0,
        None => true,
    }
}

/// What to do with a found file at `path` (see [`spec_reindex_plan`]);
/// RAW and HEIF are told by the path's format.
pub fn reindex_plan(
    path: &str,
    existing: Option<StoredFingerprint>,
    mtime: Option<i64>,
    size: i64,
    has_cached_thumbnail: bool,
) -> (plan: ReindexPlan)
    ensures
        plan == spec_reindex_plan(
            existing,
            mtime,
            size,
            spec_for_path(path@) matches Some(i) && spec_formats()[i].decoder == DecoderKind::Raw,
            spec_for_path(path@) matches Some(i) && spec_formats()[i].decoder == DecoderKind::Heif,
            has_cached_thumbnail,
        ),
{
    let is_raw = uses(path, DecoderKind::Raw);
    let is_heif = uses(path, DecoderKind::Heif);
    let matches = match existing {
        Some(e) => e.0 == mtime && e.1 == Some(size),
        None => false,
    };
    let raw_dimensions_missing = is_raw && match existing {
        Some(e) => missing_side(e.2) || missing_side(e.3),
        None => false,
    };
    let heif_thumbnail_missing = is_heif && existing.is_some() && !has_cached_thumbnail;
    let raw_thumbnail_missing = is_raw && existing.is_some() && !has_cached_thumbnail;
    ReindexPlan {
        skip: matches && !raw_dimensions_missing && !heif_thumbnail_missing && !raw_thumbnail_missing,
        newly_discovered: existing.is_none(),
        queue_thumbnail: !matches || heif_thumbnail_missing,
    }
}

/// A found file is skipped only when the library already holds it with
/// the same modification time and size, and nothing it needs is missing:
/// a RAW file lacking a side or its cached thumbnail, or a HEIF file
/// lacking its cached thumbnail, is read again. A file that is not held is
/// newly discovered and queued for a thumbnail; a skipped one is not
/// queued.
pub proof fn lemma_reindex_skips_only_complete_records(
    existing: Option<StoredFingerprint>,
    mtime: Option<i64>,
    size: i64,
    is_raw: bool,
    is_heif: bool,
    has_cached_thumbnail: bool,
)
    ensures
        ({
            let plan = spec_reindex_plan(existing, mtime, size, is_raw, is_heif, has_cached_thumbnail);
            &&& plan.skip ==> (existing matches Some(e) && e.0 == mtime && e.1 == Some(size))
            &&& is_raw && existing is Some && !has_cached_thumbnail ==> !plan.skip
            &&& is_heif && existing is Some && !has_cached_thumbnail ==> !plan.skip && plan.queue_thumbnail
            &&& is_raw && (existing matches Some(e) && (e.2 is None || e.3 is None)) ==> !plan.skip
            &&& (existing matches Some(e) && e.0 == mtime && e.1 == Some(size)) && !is_raw && !is_heif ==> plan.skip
            &&& existing is None ==> plan.newly_discovered && plan.queue_thumbnail && !plan.skip
            &&& existing is Some ==> !plan.newly_discovered
            &&& plan.skip ==> !plan.queue_thumbnail
        }),
{
}

/// Indexed photos are committed in batches of 64.
pub fn commit_due(imported: usize) -> (b: bool)
    ensures
        b == (imported > 0 && imported % 64 == 0),
{
    imported > 0 && imported % 64 == 0
}

/// The id of a folder's parent among the folders registered so far (the
/// last registration of that path), or the import root's id when the
/// parent is unknown.
pub open spec fn spec_parent_id(registered: Seq<(Seq<char>, i64)>, parent: Option<Seq<char>>, root_id: i64) -> i64
    decreases registered.len(),
{
    match parent {
        None => root_id,
        Some(p) => if registered.len() == 0 {
            root_id
        } else if registered.last().0 == p {
            registered.last().1
        } else {
            spec_parent_id(registered.drop_last(), parent, root_id)
        },
    }
}

/// The plain view of registered folders.
pub open spec fn registered_view(registered: Seq<(String, i64)>) -> Seq<(Seq<char>, i64)> {
    registered.map_values(|r: (String, i64)| (r.0@, r.1))
}

/// The id to register a discovered folder under (see [`spec_parent_id`]).
pub fn parent_folder_id(registered: &[(String, i64)], parent: Option<&str>, root_id: i64) -> (id: i64)
    ensures
        id == spec_parent_id(registered_view(registered@), crate::settings::stored(parent), root_id),
{
    let ghost rv = registered_view(registered@);
    let p = match parent {
        None => return root_id,
        Some(p) => chars_of(p),
    };
    let mut k: usize = registered.len();
    assert(rv.take(k as int) =~= rv);
    while k > 0
        invariant
            0 <= k <= registered@.len(),
            rv == registered_view(registered@),
            p@ == parent->0@,
            parent is Some,
            spec_parent_id(rv, crate::settings::stored(parent), root_id) == spec_parent_id(
                rv.take(k as int),
                crate::settings::stored(parent),
                root_id,
            ),
        decreases k,
    {
        assert(rv.take(k as int).last() == (registered@[k - 1].0@, registered@[k - 1].1));
        assert(rv.take(k as int).drop_last() =~= rv.take(k - 1));
        if same_chars(&chars_of(registered[k - 1].0.as_str()), &p) {
            return registered[k - 1].1;
        }
        k -= 1;
    }
    root_id
}

/// Which of the image's width and height to take: the EXIF value when
/// present, else the RAW decoder's.
pub fn raw_dimensions(
    exif_width: Option<u32>,
    exif_height: Option<u32>,
    decoded: Option<(u32, u32)>,
) -> (dims: (Option<u32>, Option<u32>))
    ensures
        dims.0 == match exif_width {
            Some(w) => Some(w),
            None => match decoded {
                Some(d) => Some(d.0),
                None => None,
            },
        },
        dims.1 == match exif_height {
            Some(h) => Some(h),
            None => match decoded {
                Some(d) => Some(d.1),
                None => None,
            },
        },
{
    let w = match exif_width {
        Some(w) => Some(w),
        None => match decoded {
            Some(d) => Some(d.0),
            None => None,
        },
    };
    let h = match exif_height {
        Some(h) => Some(h),
        None => match decoded {
            Some(d) => Some(d.1),
            None => None,
        },
    };
    (w, h)
}

/// Whether the RAW decoder must be asked for dimensions: EXIF lacks one.
pub fn needs_raw_dimensions(exif_width: Option<u32>, exif_height: Option<u32>) -> (b: bool)
    ensures
        b == (exif_width is None || exif_height is None),
{
    exif_width.is_none() || exif_height.is_none()
}


/// An EXIF field's value: its ASCII strings, its LONG or SHORT numbers
/// (with how the EXIF library shows them), or how the library shows any
/// other value.
#[derive(Debug)]
pub enum ExifValue {
    Ascii(Vec<Vec<u8>>),
    Long(Vec<u32>, String),
    Short(Vec<u16>, String),
    Shown(String),
}

/// The primary-image EXIF fields an import reads: DateTimeOriginal,
/// DateTime, Make, Model, PixelXDimension and PixelYDimension.
#[derive(Debug)]
pub struct ExifFields {
    pub date_original: Option<ExifValue>,
    pub date: Option<ExifValue>,
    pub make: Option<ExifValue>,
    pub model: Option<ExifValue>,
    pub width: Option<ExifValue>,
    pub height: Option<ExifValue>,
}

/// The plain view of an [`ExifValue`].
pub enum ExifValueView {
    Ascii(Seq<Seq<u8>>),
    Long(Seq<u32>, Seq<char>),
    Short(Seq<u16>, Seq<char>),
    Shown(Seq<char>),
}

/// The plain view of [`ExifFields`].
pub struct ExifFieldsView {
    pub date_original: Option<ExifValueView>,
    pub date: Option<ExifValueView>,
    pub make: Option<ExifValueView>,
    pub model: Option<ExifValueView>,
    pub width: Option<ExifValueView>,
    pub height: Option<ExifValueView>,
}

impl ExifValue {
    pub open spec fn view(&self) -> ExifValueView {
        match self {
            ExifValue::Ascii(v) => ExifValueView::Ascii(v@.map_values(|b: Vec<u8>| b@)),
            ExifValue::Long(v, s) => ExifValueView::Long(v@, s@),
            ExifValue::Short(v, s) => ExifValueView::Short(v@, s@),
            ExifValue::Shown(s) => ExifValueView::Shown(s@),
        }
    }
}

/// The view of an optional field.
pub open spec fn field_view(t: Option<ExifValue>) -> Option<ExifValueView> {
    match t {
        Some(x) => Some(x.view()),
        None => None,
    }
}

impl ExifFields {
    pub open spec fn view(&self) -> ExifFieldsView {
        ExifFieldsView {
            date_original: field_view(self.date_original),
            date: field_view(self.date),
            make: field_view(self.make),
            model: field_view(self.model),
            width: field_view(self.width),
            height: field_view(self.height),
        }
    }
}

/// The EXIF fields that the `exif` crate's `Reader::read_from_container`
/// finds in a file's bytes, `None` when it finds no EXIF data.
pub uninterp spec fn exif_fields(bytes: Seq<u8>) -> Option<ExifFieldsView>;

/// `exif::Reader::read_from_container` on a file's bytes, then
/// `Exif::get_field` of the primary image's DateTimeOriginal, DateTime,
/// Make, Model, PixelXDimension and PixelYDimension, each value copied as
/// it is (ASCII strings, LONG or SHORT numbers, with the crate's
/// `display_value` text). The result is named [`exif_fields`] of the bytes.
#[verifier::external_body]
fn read_exif(bytes: &[u8]) -> (fields: Option<ExifFields>)
    ensures
        match fields {
            Some(f) => exif_fields(bytes@) == Some(f.view()),
            None => exif_fields(bytes@) is None,
        },
{
    let exif = Reader::new().read_from_container(&mut Cursor::new(bytes)).ok()?;
    let tags = [Tag::DateTimeOriginal, Tag::DateTime, Tag::Make, Tag::Model, Tag::PixelXDimension, Tag::PixelYDimension];
    let [date_original, date, make, model, width, height] = tags.map(|t| exif.get_field(t, In::PRIMARY).map(|f| {
        let shown = f.display_value().to_string();
        match &f.value {
            Value::Ascii(v) => Ascii(v.clone()),
            Value::Long(v) => Long(v.clone(), shown),
            Value::Short(v) => Short(v.clone(), shown),
            _ => Shown(shown),
        }
    }));
    Some(ExifFields { date_original, date, make, model, width, height })
}

/// The text of an EXIF field: an ASCII field's first string (see
/// [`spec_ascii_field_text`]), nothing for an ASCII field without strings,
/// and how any other value is shown.
pub open spec fn spec_field_text(t: Option<ExifValueView>) -> Option<Seq<char>> {
    match t {
        Some(ExifValueView::Ascii(v)) => if v.len() == 0 {
            None
        } else {
            spec_ascii_field_text(v[0])
        },
        Some(ExifValueView::Long(_, s)) => Some(s),
        Some(ExifValueView::Short(_, s)) => Some(s),
        Some(ExifValueView::Shown(s)) => Some(s),
        None => None,
    }
}

fn copy_text(s: &String) -> (c: String)
    ensures
        c@ == s@,
{
    string_of(&chars_of(s.as_str()))
}

/// The text of an EXIF field (see [`spec_field_text`]).
pub fn field_text(t: &Option<ExifValue>) -> (text: Option<String>)
    ensures
        text_view(text) == spec_field_text(field_view(*t)),
{
    match t {
        None => None,
        Some(ExifValue::Ascii(v)) => {
            if v.len() == 0 {
                None
            } else {
                ascii_field_text(v[0].as_slice())
            }
        },
        Some(ExifValue::Long(_, s)) => Some(copy_text(s)),
        Some(ExifValue::Short(_, s)) => Some(copy_text(s)),
        Some(ExifValue::Shown(s)) => Some(copy_text(s)),
    }
}

/// The number of an EXIF field: the first LONG or SHORT value.
pub open spec fn spec_field_number(n: Option<ExifValueView>) -> Option<u32> {
    match n {
        Some(ExifValueView::Long(v, _)) => if v.len() == 0 { None } else { Some(v[0]) },
        Some(ExifValueView::Short(v, _)) => if v.len() == 0 { None } else { Some(v[0] as u32) },
        _ => None,
    }
}

/// The number of an EXIF field (see [`spec_field_number`]).
pub fn field_number(n: &Option<ExifValue>) -> (v: Option<u32>)
    ensures
        v == spec_field_number(field_view(*n)),
{
    match n {
        Some(ExifValue::Long(v, _)) => if v.len() == 0 { None } else { Some(v[0]) },
        Some(ExifValue::Short(v, _)) => if v.len() == 0 { None } else { Some(v[0] as u32) },
        _ => None,
    }
}

/// The date of a photo's EXIF: DateTimeOriginal, else DateTime, written
/// with `-` for `:` (see [`spec_exif_date_text`]).
pub open spec fn spec_exif_date(f: ExifFieldsView) -> Option<Seq<char>> {
    let t = match spec_field_text(f.date_original) {
        Some(x) => Some(x),
        None => spec_field_text(f.date),
    };
    match t {
        Some(x) => Some(spec_exif_date_text(x)),
        None => None,
    }
}

/// What the library records of a photo.
#[derive(Debug)]
pub struct PhotoMetadata {
    pub taken_at: Option<String>,
    pub camera: Option<String>,
    pub width: Option<i64>,
    pub height: Option<i64>,
    pub size_bytes: Option<i64>,
    pub mtime: Option<i64>,
}

/// The plain view of [`PhotoMetadata`].
pub struct PhotoMetadataView {
    pub taken_at: Option<Seq<char>>,
    pub camera: Option<Seq<char>>,
    pub width: Option<i64>,
    pub height: Option<i64>,
    pub size_bytes: Option<i64>,
    pub mtime: Option<i64>,
}

impl PhotoMetadata {
    pub open spec fn view(&self) -> PhotoMetadataView {
        PhotoMetadataView {
            taken_at: text_view(self.taken_at),
            camera: text_view(self.camera),
            width: self.width,
            height: self.height,
            size_bytes: self.size_bytes,
            mtime: self.mtime,
        }
    }
}

/// A side in the record's type.
pub open spec fn side_of(v: Option<u32>) -> Option<i64> {
    match v {
        Some(x) => Some(x as i64),
        None => None,
    }
}

/// The metadata of a photo from its EXIF fields (none when it has no EXIF),
/// whether it is a RAW file, the dimensions its decoder reports, its
/// modification time with that time's local RFC 3339 text, and its size:
/// the EXIF date, else the modification time's text; the camera line from
/// Make and Model; for RAW files the EXIF pixel dimensions, each missing one
/// taken from the decoder, for other files the decoder's dimensions.
pub open spec fn spec_photo_metadata(
    exif: Option<ExifFieldsView>,
    is_raw: bool,
    decoded: Option<(u32, u32)>,
    mtime: Option<i64>,
    mtime_text: Option<Seq<char>>,
    size: i64,
) -> PhotoMetadataView {
    let exif_date = match exif {
        Some(f) => spec_exif_date(f),
        None => None,
    };
    let camera = match exif {
        Some(f) => spec_camera_label(spec_field_text(f.make), spec_field_text(f.model)),
        None => None,
    };
    let (ew, eh) = match exif {
        Some(f) => (spec_field_number(f.width), spec_field_number(f.height)),
        None => (None, None),
    };
    let (dw, dh) = match decoded {
        Some(d) => (Some(d.0), Some(d.1)),
        None => (None, None),
    };
    let (w, h) = if is_raw {
        (
            match ew {
                Some(x) => Some(x),
                None => dw,
            },
            match eh {
                Some(x) => Some(x),
                None => dh,
            },
        )
    } else {
        (dw, dh)
    };
    PhotoMetadataView {
        taken_at: match exif_date {
            Some(d) => Some(d),
            None => mtime_text,
        },
        camera,
        width: side_of(w),
        height: side_of(h),
        size_bytes: Some(size),
        mtime,
    }
}

/// The metadata a photo's bytes give (see [`spec_photo_metadata`]), its
/// EXIF read with the `exif` crate.
pub fn photo_metadata(
    bytes: &[u8],
    is_raw: bool,
    decoded: Option<(u32, u32)>,
    mtime: Option<i64>,
    mtime_text: Option<String>,
    size: i64,
) -> (m: PhotoMetadata)
    ensures
        m.view() == spec_photo_metadata(exif_fields(bytes@), is_raw, decoded, mtime, text_view(mtime_text), size),
{
    let exif = read_exif(bytes);
    let (date, camera, ew, eh) = match &exif {
        Some(f) => {
            let original = field_text(&f.date_original);
            let t = match original {
                Some(x) => Some(x),
                None => field_text(&f.date),
            };
            let date = match t {
                Some(x) => Some(exif_date_text(x.as_str())),
                None => None,
            };
            (date, camera_label(field_text(&f.make), field_text(&f.model)), field_number(&f.width), field_number(
                &f.height,
            ))
        },
        None => (None, None, None, None),
    };
    let (dw, dh) = match decoded {
        Some(d) => (Some(d.0), Some(d.1)),
        None => (None, None),
    };
    let (w, h) = if is_raw {
        (
            match ew {
                Some(x) => Some(x),
                None => dw,
            },
            match eh {
                Some(x) => Some(x),
                None => dh,
            },
        )
    } else {
        (dw, dh)
    };
    let taken_at = match date {
        Some(d) => Some(d),
        None => mtime_text,
    };
    PhotoMetadata {
        taken_at,
        camera,
        width: match w {
            Some(x) => Some(x as i64),
            None => None,
        },
        height: match h {
            Some(x) => Some(x as i64),
            None => None,
        },
        size_bytes: Some(size),
        mtime,
    }
}


/// The stored date of a photo without an EXIF date: its modification time
/// as local RFC 3339 text (see [`crate::dates::local_rfc3339`]), when chrono
/// can place that second.
pub fn mtime_text(mtime: Option<i64>) -> (text: Option<String>)
    ensures
        mtime is None ==> text is None,
        mtime matches Some(s) ==> {
            &&& text is Some <==> crate::dates::representable_day(crate::dates::utc_day_of_second(s as int))
            &&& crate::dates::representable_day(crate::dates::utc_day_of_second(s as int) - 1)
                && crate::dates::representable_day(crate::dates::utc_day_of_second(s as int) + 1) ==> (text matches Some(
                t,
            ) && crate::dates::is_local_rfc3339(t@, s as int))
        },
{
    match mtime {
        Some(s) => crate::dates::local_rfc3339(s),
        None => None,
    }
}


/// What the import loop learns next about its walk.
#[derive(Debug, Clone, Copy, PartialEq, Eq, Structural)]
pub enum ScanInput {
    /// A found file's record is current; only its folder is set again.
    Skipped,
    /// A found file was read and indexed; whether it needs a new thumbnail.
    Indexed { queue_thumbnail: bool },
    /// A found file could not be read.
    Failed,
    /// The walk stopped: every file was taken, or the import was cancelled.
    Stop { cancelled: bool },
}

/// How an import ends.
#[derive(Debug, Clone, Copy, PartialEq, Eq, Structural)]
pub enum ScanOutcome {
    /// The walk goes on.
    Running,
    /// Cancelled after indexing this many photos.
    Cancelled { imported: usize },
    /// Indexing finished: this many photos indexed, this many thumbnails
    /// to make.
    Indexed { imported: usize, thumbnails: usize },
    /// Thumbnails made too: this many photos indexed, this many files or
    /// thumbnails failed.
    Finished { imported: usize, failed: usize },
}

/// What the import loop does after a step: report a failed file, commit
/// the open transaction (sending the photos indexed since the last
/// commit), and whether the walk has ended.
#[derive(Debug, Clone, Copy, PartialEq, Eq, Structural)]
pub struct ScanAction {
    pub report_failure: bool,
    pub commit: bool,
    pub outcome: ScanOutcome,
}

/// The import loop's counts: photos indexed, files failed and skipped,
/// thumbnails queued, indexed photos not yet committed, and whether the
/// walk has ended.
#[derive(Debug, Clone, Copy, PartialEq, Eq, Structural)]
pub struct ScanState {
    pub imported: usize,
    pub failed: usize,
    pub skipped: usize,
    pub thumbnails: usize,
    pub pending: usize,
    pub finished: bool,
}

impl ScanState {
    /// Thumbnails are queued only for indexed photos, and the photos
    /// waiting for a commit are those indexed since the last multiple of
    /// 64 (none once the walk has ended).
    pub open spec fn wf(self) -> bool {
        &&& self.thumbnails <= self.imported
        &&& !self.finished ==> self.pending == self.imported % 64
        &&& self.finished ==> self.pending == 0
    }

    /// An import before its first file.
    pub fn new() -> (s: ScanState)
        ensures
            s.wf(),
            s == (ScanState { imported: 0, failed: 0, skipped: 0, thumbnails: 0, pending: 0, finished: false }),
    {
        ScanState { imported: 0, failed: 0, skipped: 0, thumbnails: 0, pending: 0, finished: false }
    }
}

/// One step of the import loop: a skipped file changes only the skip
/// count; an indexed file counts (and queues a thumbnail when asked) and
/// waits for a commit; a failed file is counted and reported. After an
/// indexed or failed file the transaction is committed whenever the
/// indexed count is a positive multiple of 64. When the walk stops, the
/// rest is committed and the import ends, cancelled or indexed.
pub open spec fn spec_scan_step(s: ScanState, input: ScanInput) -> (ScanState, ScanAction) {
    match input {
        ScanInput::Skipped => (
            ScanState { skipped: (s.skipped + 1) as usize, ..s },
            ScanAction { report_failure: false, commit: false, outcome: ScanOutcome::Running },
        ),
        ScanInput::Indexed { queue_thumbnail } => {
            let imported = (s.imported + 1) as usize;
            let thumbnails = if queue_thumbnail { (s.thumbnails + 1) as usize } else { s.thumbnails };
            let commit = imported % 64 == 0;
            (
                ScanState { imported, thumbnails, pending: if commit { 0 } else { (s.pending + 1) as usize }, ..s },
                ScanAction { report_failure: false, commit, outcome: ScanOutcome::Running },
            )
        },
        ScanInput::Failed => {
            let commit = s.imported > 0 && s.imported % 64 == 0;
            (
                ScanState { failed: (s.failed + 1) as usize, pending: if commit { 0 } else { s.pending }, ..s },
                ScanAction { report_failure: true, commit, outcome: ScanOutcome::Running },
            )
        },
        ScanInput::Stop { cancelled } => (
            ScanState { pending: 0, finished: true, ..s },
            ScanAction {
                report_failure: false,
                commit: true,
                outcome: if cancelled {
                    ScanOutcome::Cancelled { imported: s.imported }
                } else {
                    ScanOutcome::Indexed { imported: s.imported, thumbnails: s.thumbnails }
                },
            },
        ),
    }
}

/// One step of the import loop (see [`spec_scan_step`]).
pub fn scan_step(state: &ScanState, input: ScanInput) -> (r: (ScanState, ScanAction))
    requires
        state.wf(),
        !state.finished,
        state.imported + state.failed + state.skipped < usize::MAX,
    ensures
        r == spec_scan_step(*state, input),
        r.0.wf(),
        r.0.imported + r.0.failed + r.0.skipped <= state.imported + state.failed + state.skipped + 1,
{
    let s = *state;
    match input {
        ScanInput::Skipped => (
            ScanState { skipped: s.skipped + 1, ..s },
            ScanAction { report_failure: false, commit: false, outcome: ScanOutcome::Running },
        ),
        ScanInput::Indexed { queue_thumbnail } => {
            let imported = s.imported + 1;
            let thumbnails = if queue_thumbnail { s.thumbnails + 1 } else { s.thumbnails };
            let commit = commit_due(imported);
            (
                ScanState { imported, thumbnails, pending: if commit { 0 } else { s.pending + 1 }, ..s },
                ScanAction { report_failure: false, commit, outcome: ScanOutcome::Running },
            )
        },
        ScanInput::Failed => {
            let commit = commit_due(s.imported);
            (
                ScanState { failed: s.failed + 1, pending: if commit { 0 } else { s.pending }, ..s },
                ScanAction { report_failure: true, commit, outcome: ScanOutcome::Running },
            )
        },
        ScanInput::Stop { cancelled } => (
            ScanState { pending: 0, finished: true, ..s },
            ScanAction {
                report_failure: false,
                commit: true,
                outcome: if cancelled {
                    ScanOutcome::Cancelled { imported: s.imported }
                } else {
                    ScanOutcome::Indexed { imported: s.imported, thumbnails: s.thumbnails }
                },
            },
        ),
    }
}

/// The import's last report once its thumbnails are made: cancelled with
/// the indexed count, or finished with the indexed count and every file
/// and thumbnail that failed.
pub fn scan_report(state: &ScanState, thumbnail_failures: usize, cancelled: bool) -> (report: ScanOutcome)
    requires
        state.failed + thumbnail_failures <= usize::MAX,
    ensures
        report == if cancelled {
            ScanOutcome::Cancelled { imported: state.imported }
        } else {
            ScanOutcome::Finished { imported: state.imported, failed: (state.failed + thumbnail_failures) as usize }
        },
{
    if cancelled {
        ScanOutcome::Cancelled { imported: state.imported }
    } else {
        ScanOutcome::Finished { imported: state.imported, failed: state.failed + thumbnail_failures }
    }
}

} // verus!
