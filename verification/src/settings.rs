//! Stored preferences: the album view style and how it is read back from
//! the stored values, including the older bookshelf switch.
use vstd::prelude::*;

use crate::text::{chars_of, same_chars};

verus! {

/// The settings key of the older bookshelf switch, still read so existing
/// preferences survive.
pub const BOOKSHELF_SETTING_KEY: &'static str = "iphone-bookshelf-albums";

/// The settings key of the album view style.
pub const ALBUM_VIEW_STYLE_SETTING_KEY: &'static str = "albums-home-style";

/// How the albums page is drawn.
#[derive(Clone, Copy, Debug, PartialEq, Eq, Structural)]
pub enum AlbumViewStyle {
    Default,
    Bookshelf,
    AlbumCovers,
}

impl Default for AlbumViewStyle {
    fn default() -> (style: Self)
        ensures
            style == AlbumViewStyle::Default,
    {
        AlbumViewStyle::Default
    }
}

/// The stored text of a style.
pub open spec fn spec_setting_value(style: AlbumViewStyle) -> Seq<char> {
    match style {
        AlbumViewStyle::Default => "default"@,
        AlbumViewStyle::Bookshelf => "bookshelf"@,
        AlbumViewStyle::AlbumCovers => "album-covers"@,
    }
}

impl AlbumViewStyle {
    /// The text stored for this style.
    pub fn setting_value(self) -> (value: &'static str)
        ensures
            value@ == spec_setting_value(self),
    {
        match self {
            AlbumViewStyle::Default => "default",
            AlbumViewStyle::Bookshelf => "bookshelf",
            AlbumViewStyle::AlbumCovers => "album-covers",
        }
    }
}

/// The style read from the stored style text and the older bookshelf
/// switch: a known style text wins; otherwise a stored `true` switch means
/// the bookshelf; anything else is the default.
pub open spec fn spec_album_view_style(style: Option<Seq<char>>, bookshelf: Option<Seq<char>>) -> AlbumViewStyle {
    if style == Some("bookshelf"@) {
        AlbumViewStyle::Bookshelf
    } else if style == Some("album-covers"@) {
        AlbumViewStyle::AlbumCovers
    } else if style == Some("default"@) {
        AlbumViewStyle::Default
    } else if bookshelf == Some("true"@) {
        AlbumViewStyle::Bookshelf
    } else {
        AlbumViewStyle::Default
    }
}

/// The view of an optional stored text.
pub open spec fn stored(value: Option<&str>) -> Option<Seq<char>> {
    match value {
        Some(v) => Some(v@),
        None => None,
    }
}

fn is_text(value: Option<&str>, text: &str) -> (b: bool)
    ensures
        b == (stored(value) == Some(text@)),
{
    match value {
        Some(v) => same_chars(&chars_of(v), &chars_of(text)),
        None => false,
    }
}

/// The album view style from the stored values (see
/// [`spec_album_view_style`]).
pub fn album_view_style_from(style: Option<&str>, bookshelf: Option<&str>) -> (s: AlbumViewStyle)
    ensures
        s == spec_album_view_style(stored(style), stored(bookshelf)),
{
    if is_text(style, "bookshelf") {
        AlbumViewStyle::Bookshelf
    } else if is_text(style, "album-covers") {
        AlbumViewStyle::AlbumCovers
    } else if is_text(style, "default") {
        AlbumViewStyle::Default
    } else if is_text(bookshelf, "true") {
        AlbumViewStyle::Bookshelf
    } else {
        AlbumViewStyle::Default
    }
}

/// What is read back after a style is stored: the same style, whatever the
/// older switch says.
pub proof fn lemma_stored_style_reads_back(style: AlbumViewStyle, bookshelf: Option<Seq<char>>)
    ensures
        spec_album_view_style(Some(spec_setting_value(style)), bookshelf) == style,
{
    reveal_strlit("bookshelf");
    reveal_strlit("album-covers");
    reveal_strlit("default");
    assert("bookshelf"@.len() == 9);
    assert("album-covers"@.len() == 12);
    assert("default"@.len() == 7);
}


/// How many photos one step of the availability count reads.
pub const AVAILABILITY_PAGE_SIZE: usize = 256;

/// The number of `true` entries.
pub open spec fn count_true(s: Seq<bool>) -> nat
    decreases s.len(),
{
    if s.len() == 0 {
        0
    } else {
        count_true(s.drop_last()) + if s.last() { 1nat } else { 0nat }
    }
}

/// The running count of originals that can and cannot be reached, page by
/// page through the library.
#[derive(Debug, Clone, Copy, PartialEq, Eq, Structural)]
pub struct AvailabilityTally {
    pub offset: usize,
    pub available: i64,
    pub unavailable: i64,
}

impl AvailabilityTally {
    /// Every photo read so far is counted once: as available or not.
    pub open spec fn wf(self) -> bool {
        &&& self.available >= 0
        &&& self.unavailable >= 0
        &&& self.available + self.unavailable == self.offset
    }

    /// Nothing read yet.
    pub fn new() -> (t: AvailabilityTally)
        ensures
            t.wf(),
            t == (AvailabilityTally { offset: 0, available: 0, unavailable: 0 }),
    {
        AvailabilityTally { offset: 0, available: 0, unavailable: 0 }
    }

    /// Takes one page of the library, each photo with whether its original
    /// is reachable. An empty page ends the count and returns `true`;
    /// otherwise the page is counted and the next page starts after it.
    pub fn record_page(&mut self, page: &[bool]) -> (finished: bool)
        requires
            old(self).wf(),
            old(self).offset + page@.len() <= i64::MAX,
            old(self).offset + page@.len() <= usize::MAX,
        ensures
            final(self).wf(),
            finished == (page@.len() == 0),
            final(self).offset == old(self).offset + page@.len(),
            final(self).available == old(self).available + count_true(page@),
            final(self).unavailable == old(self).unavailable + (page@.len() - count_true(page@)),
    {
        if page.len() == 0 {
            return true;
        }
        let mut i: usize = 0;
        while i < page.len()
            invariant
                0 <= i <= page@.len(),
                old(self).wf(),
                old(self).offset + page@.len() <= i64::MAX,
                old(self).offset + page@.len() <= usize::MAX,
                self.offset == old(self).offset + i,
                self.available == old(self).available + count_true(page@.take(i as int)),
                self.unavailable == old(self).unavailable + (i - count_true(page@.take(i as int))),
                count_true(page@.take(i as int)) <= i,
            decreases page@.len() - i,
        {
            assert(page@.take(i + 1).drop_last() =~= page@.take(i as int));
            if page[i] {
                self.available = self.available + 1;
            } else {
                self.unavailable = self.unavailable + 1;
            }
            self.offset = self.offset + 1;
            i += 1;
        }
        assert(page@.take(page@.len() as int) =~= page@);
        false
    }
}

} // verus!
