//! The simple photo library window's rules: which files it shows, in
//! which order, how it counts them, and how a photo's rotation is stored.
use vstd::prelude::*;

use crate::formats::{eq_ignore_ascii_case, spec_extension, spec_formats};
use crate::text::{ascii_lower_seq, chars_of};

verus! {

/// The extensions the simple photo list shows.
pub open spec fn is_displayable_extension(e: Seq<char>) -> bool {
    let l = ascii_lower_seq(e);
    ||| l == "jpg"@
    ||| l == "jpeg"@
    ||| l == "png"@
    ||| l == "webp"@
    ||| l == "bmp"@
    ||| l == "gif"@
    ||| l == "tif"@
    ||| l == "tiff"@
}

/// Whether the simple photo list shows a path: its extension, ignoring
/// ASCII case, is one of JPEG, PNG, WebP, BMP, GIF or TIFF.
pub fn is_displayable_photo(path: &str) -> (b: bool)
    ensures
        b == (spec_extension(path@) matches Some(e) && is_displayable_extension(e)),
{
    let p = chars_of(path);
    match crate::formats::extension(&p) {
        None => false,
        Some(e) => {
            let lower = crate::text::lower_ascii(&e);
            let same = |name: &str| -> (b: bool)
                ensures
                    b == (lower@ == name@),
                { crate::text::same_chars(&lower, &chars_of(name)) };
            let found = same("jpg") || same("jpeg") || same("png") || same("webp") || same("bmp") || same("gif")
                || same("tif") || same("tiff");
            found
        },
    }
}


/// The count shown in the window's header: the number in decimal digits,
/// then ` photos`.
pub fn photo_count_label(count: u32) -> (label: String)
    ensures
        label@ == crate::grouping::spec_decimal(count as nat) + " photos"@,
{
    let mut c = crate::grouping::decimal_digits(count as u64);
    let suffix = chars_of(" photos");
    crate::text::extend(&mut c, &suffix);
    crate::text::string_of(&c)
}

/// A rotation in degrees as a photo stores it: modulo 360, from 0 to 359.
pub fn normalized_rotation(rotation: i32) -> (r: i32)
    ensures
        r == rotation % 360,
        0 <= r < 360,
{
    match rotation.checked_rem_euclid(360) {
        Some(r) => r,
        None => 0,
    }
}

/// Whether path `a` comes strictly before path `b` in the order of Rust's
/// `Path` (component by component).
pub uninterp spec fn path_precedes(a: Seq<char>, b: Seq<char>) -> bool;

/// The plain view of a list of texts.
pub open spec fn texts_view(v: Seq<String>) -> Seq<Seq<char>> {
    v.map_values(|s: String| s@)
}

/// `sort_unstable` of the paths as `PathBuf`s: the same paths, none after
/// one that [`path_precedes`] it. Which of two paths that compare equal
/// comes first is not stated (`a/b` and `a/b/` compare equal as paths but
/// are different texts).
#[verifier::external_body]
fn sort_paths(paths: Vec<String>) -> (sorted: Vec<String>)
    ensures
        texts_view(sorted@).to_multiset() == texts_view(paths@).to_multiset(),
        forall|i: int, j: int|
            0 <= i < j < sorted@.len() ==> !path_precedes(#[trigger] sorted@[j]@, #[trigger] sorted@[i]@),
{
    let mut buffers: Vec<std::path::PathBuf> = paths.into_iter().map(std::path::PathBuf::from).collect();
    buffers.sort_unstable();
    buffers.into_iter().map(|p| p.to_string_lossy().into_owned()).collect()
}

/// The files a folder walk found that the window shows.
pub open spec fn shown_files(found: Seq<(String, bool)>) -> Seq<Seq<char>>
    decreases found.len(),
{
    if found.len() == 0 {
        Seq::empty()
    } else {
        let rest = shown_files(found.drop_last());
        let (path, is_file) = found.last();
        if is_file && (spec_extension(path@) matches Some(e) && is_displayable_extension(e)) {
            rest.push(path@)
        } else {
            rest
        }
    }
}

/// The photos the window lists for a folder walk (each path with whether
/// it is a regular file): the regular files it can show, in path order.
pub fn photo_paths(found: Vec<(String, bool)>) -> (paths: Vec<String>)
    ensures
        texts_view(paths@).to_multiset() == shown_files(found@).to_multiset(),
        forall|i: int, j: int|
            0 <= i < j < paths@.len() ==> !path_precedes(#[trigger] paths@[j]@, #[trigger] paths@[i]@),
{
    let mut kept: Vec<String> = Vec::new();
    let mut i: usize = 0;
    while i < found.len()
        invariant
            0 <= i <= found@.len(),
            texts_view(kept@) == shown_files(found@.take(i as int)),
        decreases found@.len() - i,
    {
        assert(found@.take(i + 1).drop_last() =~= found@.take(i as int));
        assert(found@.take(i + 1).last() == found@[i as int]);
        if found[i].1 && is_displayable_photo(found[i].0.as_str()) {
            let ghost before = texts_view(kept@);
            kept.push(found[i].0.clone());
            assert(texts_view(kept@) =~= before.push(found@[i as int].0@));
        }
        i += 1;
    }
    assert(found@.take(found@.len() as int) =~= found@);
    sort_paths(kept)
}

/// The distance between a zoom level and the current tile size.
pub open spec fn level_distance(level: i32, current: i32) -> int {
    if level >= current { level - current } else { current - level }
}

/// Whether level `i` is the first of those nearest to `current`.
pub open spec fn is_nearest_level(levels: Seq<i32>, current: i32, i: int) -> bool {
    &&& 0 <= i < levels.len()
    &&& forall|j: int| 0 <= j < levels.len() ==> level_distance(levels[i], current) <= level_distance(#[trigger] levels[j], current)
    &&& forall|j: int| 0 <= j < i ==> level_distance(levels[i], current) < level_distance(#[trigger] levels[j], current)
}

/// The tile size after one zoom step from `current`: from the nearest of
/// `levels` (the first of equally near ones), one level up when zooming in,
/// one down otherwise, staying within the levels.
pub fn next_zoom(levels: &[i32], current: i32, zoom_in: bool) -> (size: i32)
    requires
        levels@.len() > 0,
        forall|j: int| 0 <= j < levels@.len() ==> level_distance(#[trigger] levels@[j], current) <= i32::MAX,
    ensures
        exists|i: int|
            #[trigger] is_nearest_level(levels@, current, i) && size == if zoom_in {
                levels@[if i + 1 < levels@.len() { i + 1 } else { levels@.len() - 1 }]
            } else {
                levels@[if i >= 1 { i - 1 } else { 0 }]
            },
{
    let mut best: usize = 0;
    let mut best_distance: i64 = if levels[0] >= current {
        levels[0] as i64 - current as i64
    } else {
        current as i64 - levels[0] as i64
    };
    let mut j: usize = 1;
    while j < levels.len()
        invariant
            1 <= j <= levels@.len(),
            best < j,
            best_distance == level_distance(levels@[best as int], current),
            forall|k: int| 0 <= k < j ==> best_distance <= level_distance(#[trigger] levels@[k], current),
            forall|k: int| 0 <= k < best ==> best_distance < level_distance(#[trigger] levels@[k], current),
        decreases levels@.len() - j,
    {
        let d: i64 = if levels[j] >= current {
            levels[j] as i64 - current as i64
        } else {
            current as i64 - levels[j] as i64
        };
        if d < best_distance {
            best = j;
            best_distance = d;
        }
        j += 1;
    }
    assert(is_nearest_level(levels@, current, best as int));
    if zoom_in {
        if best + 1 < levels.len() {
            levels[best + 1]
        } else {
            levels[levels.len() - 1]
        }
    } else {
        if best >= 1 {
            levels[best - 1]
        } else {
            levels[0]
        }
    }
}


/// The smallest tile size the zoom allows.
pub const MIN_TILE: i32 = 84;
/// The largest tile size the zoom allows.
pub const MAX_TILE: i32 = 320;
/// The tile size a new window starts with.
pub const DEFAULT_TILE: i32 = 176;
/// How far one press of a zoom button moves the tile size.
pub const ZOOM_STEP: i32 = 20;

/// The tile size after the zoom-in button: one step larger, at most
/// [`MAX_TILE`].
pub fn zoomed_in(size: i32) -> (next: i32)
    ensures
        next == if size + ZOOM_STEP < MAX_TILE { size + ZOOM_STEP } else { MAX_TILE as int },
{
    if size < MAX_TILE - ZOOM_STEP {
        size + ZOOM_STEP
    } else {
        MAX_TILE
    }
}

/// The tile size after the zoom-out button: one step smaller, at least
/// [`MIN_TILE`].
pub fn zoomed_out(size: i32) -> (next: i32)
    ensures
        next == if size - ZOOM_STEP > MIN_TILE { size - ZOOM_STEP } else { MIN_TILE as int },
{
    if size > MIN_TILE + ZOOM_STEP {
        size - ZOOM_STEP
    } else {
        MIN_TILE
    }
}

/// The window's state: the photos its grid lists, in order, and the size
/// of every tile.
pub struct PhotoGrid {
    photos: Vec<String>,
    tile_size: i32,
}

impl PhotoGrid {
    /// The listed photos' paths.
    pub closed spec fn photos_view(&self) -> Seq<Seq<char>> {
        texts_view(self.photos@)
    }

    /// The current tile size.
    pub closed spec fn tile_view(&self) -> i32 {
        self.tile_size
    }

    /// An empty grid at the default tile size.
    pub fn new() -> (grid: PhotoGrid)
        ensures
            grid.photos_view() == Seq::<Seq<char>>::empty(),
            grid.tile_view() == DEFAULT_TILE,
    {
        let grid = PhotoGrid { photos: Vec::new(), tile_size: DEFAULT_TILE };
        assert(grid.photos_view() =~= Seq::<Seq<char>>::empty());
        grid
    }

    /// The photos in grid order.
    pub fn photos(&self) -> (photos: &[String])
        ensures
            texts_view(photos@) == self.photos_view(),
    {
        self.photos.as_slice()
    }

    /// The current tile size.
    pub fn tile_size(&self) -> (size: i32)
        ensures
            size == self.tile_view(),
    {
        self.tile_size
    }

    /// Replaces the listed photos by those of a folder walk (see
    /// [`photo_paths`]); the tile size stays.
    pub fn load(&mut self, found: Vec<(String, bool)>)
        ensures
            final(self).photos_view().to_multiset() == shown_files(found@).to_multiset(),
            forall|i: int, j: int|
                0 <= i < j < final(self).photos_view().len() ==> !path_precedes(
                    #[trigger] final(self).photos_view()[j],
                    #[trigger] final(self).photos_view()[i],
                ),
            final(self).tile_view() == old(self).tile_view(),
    {
        self.photos = photo_paths(found);
    }

    /// Sets the tile size. Zooming never touches the photo list: the same
    /// photos stay in the same order. Returns whether the size changed.
    pub fn set_tile_size(&mut self, size: i32) -> (changed: bool)
        ensures
            changed == (size != old(self).tile_view()),
            final(self).tile_view() == size,
            final(self).photos_view() == old(self).photos_view(),
    {
        let changed = size != self.tile_size;
        self.tile_size = size;
        changed
    }

    /// The count shown in the header: the number of listed photos, then
    /// ` photos`.
    pub fn count_label(&self) -> (label: String)
        ensures
            label@ == crate::grouping::spec_decimal(self.photos_view().len()) + " photos"@,
    {
        let mut c = crate::grouping::decimal_digits(self.photos.len() as u64);
        let suffix = chars_of(" photos");
        crate::text::extend(&mut c, &suffix);
        crate::text::string_of(&c)
    }
}

/// The simple list shows exactly the photos of the JPEG, PNG, WebP, GIF,
/// BMP and TIFF formats of the format table (the first six), by any of
/// their declared extensions in any ASCII case, and none of the HEIF, AVIF
/// or RAW formats.
pub proof fn lemma_displayable_formats(i: int, k: int, e: Seq<char>)
    requires
        0 <= i < spec_formats().len(),
        0 <= k < spec_formats()[i].extensions.len(),
        eq_ignore_ascii_case(e, spec_formats()[i].extensions[k]),
    ensures
        is_displayable_extension(e) <==> i < 6,
{
    crate::formats::lemma_extension_table(i, k, i, k);
    let ext = spec_formats()[i].extensions[k];
    assert(ascii_lower_seq(e) =~= ext) by {
        assert forall|p: int| 0 <= p < e.len() implies #[trigger] ascii_lower_seq(e)[p] == ext[p] by {
            assert(crate::text::ascii_lower(e[p]) == crate::text::ascii_lower(ext[p]));
        }
    }
    reveal(spec_formats);
    reveal_strlit("jpg");
    reveal_strlit("jpeg");
    reveal_strlit("png");
    reveal_strlit("webp");
    reveal_strlit("gif");
    reveal_strlit("bmp");
    reveal_strlit("tif");
    reveal_strlit("tiff");
    reveal_strlit("heic");
    reveal_strlit("heif");
    reveal_strlit("avif");
    reveal_strlit("nef");
    reveal_strlit("nrw");
    reveal_strlit("cr2");
    reveal_strlit("cr3");
    reveal_strlit("arw");
    reveal_strlit("dng");
    reveal_strlit("raf");
    reveal_strlit("orf");
    reveal_strlit("rw2");
    reveal_strlit("pef");
    reveal_strlit("srw");
    reveal_strlit("raw");
    let l = ascii_lower_seq(e);
    if i < 6 {
        assert(l == "jpg"@ || l == "jpeg"@ || l == "png"@ || l == "webp"@ || l == "bmp"@ || l == "gif"@
            || l == "tif"@ || l == "tiff"@);
    } else {
        assert(l.len() == 3 || l.len() == 4);
        assert(l != "jpg"@ && l != "png"@ && l != "bmp"@ && l != "gif"@ && l != "tif"@) by {
            if l.len() == 3 {
                assert(l[0] != 'j' || l[1] != 'p');
                assert(l[0] != 'p' || l[1] != 'n');
                assert(l[0] != 'b' || l[1] != 'm');
                assert(l[0] != 'g' || l[1] != 'i');
                assert(l[0] != 't' || l[1] != 'i');
            }
        }
        assert(l != "jpeg"@ && l != "webp"@ && l != "tiff"@) by {
            if l.len() == 4 {
                assert(l[0] == 'h' || l[0] == 'a');
            }
        }
    }
}

/// A `.jpeg` file, in any ASCII case, is shown.
pub proof fn lemma_jpeg_is_displayable(e: Seq<char>)
    requires
        eq_ignore_ascii_case(e, "jpeg"@),
    ensures
        is_displayable_extension(e),
{
    reveal(spec_formats);
    assert(spec_formats()[0].extensions[1] == "jpeg"@);
    lemma_displayable_formats(0, 1, e);
}

} // verus!
