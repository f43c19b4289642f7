//! Text rules of the library home page.
use vstd::prelude::*;

use crate::text::{chars_of, slice_of, string_of};

verus! {

/// A history line without its trailing `:SS` seconds: the text before a
/// `:` that starts the last three UTF-8 bytes (two ASCII characters, or one
/// two-byte character, after it); otherwise the line as it is.
pub open spec fn spec_short_edit_line(s: Seq<char>) -> Seq<char> {
    let n = s.len();
    if n >= 3 && s[n - 3] == ':' && (s[n - 2] as u32) < 0x80 && (s[n - 1] as u32) < 0x80 {
        s.take(n - 3)
    } else if n >= 2 && s[n - 2] == ':' && 0x80 <= (s[n - 1] as u32) < 0x800 {
        s.take(n - 2)
    } else {
        s
    }
}

/// Drop the seconds from a history line ("Photo · YYYY-MM-DD HH:MM:SS").
pub fn short_edit_line(line: &str) -> (short: String)
    ensures
        short@ == spec_short_edit_line(line@),
{
    let c = chars_of(line);
    let n = c.len();
    if n >= 3 && c[n - 3] == ':' && (c[n - 2] as u32) < 0x80 && (c[n - 1] as u32) < 0x80 {
        let s = slice_of(&c, 0, n - 3);
        assert(s@ =~= c@.take(n - 3));
        string_of(&s)
    } else if n >= 2 && c[n - 2] == ':' && 0x80 <= (c[n - 1] as u32) && (c[n - 1] as u32) < 0x800 {
        let s = slice_of(&c, 0, n - 2);
        assert(s@ =~= c@.take(n - 2));
        string_of(&s)
    } else {
        string_of(&c)
    }
}


/// When the home page's background reader rebuilds its snapshot: the
/// database version it last read and whether a preview was missing then.
#[derive(Debug, Clone, Copy, PartialEq, Eq, Structural)]
pub struct HomeRefresh {
    pub version: Option<i64>,
    pub missing: bool,
}

/// Whether a request reads the library again: when forced, when the
/// database changed since the last read, or when a preview was missing.
pub open spec fn spec_wants_refresh(r: HomeRefresh, force: bool, current: i64) -> bool {
    force || r.version != Some(current) || r.missing
}

/// The state after a read of version `current` ends.
pub open spec fn spec_finished(r: HomeRefresh, current: i64) -> HomeRefresh {
    HomeRefresh { version: Some(current), missing: r.missing }
}

impl HomeRefresh {
    /// Nothing read yet.
    pub fn new() -> (r: HomeRefresh)
        ensures
            r == (HomeRefresh { version: None, missing: false }),
    {
        HomeRefresh { version: None, missing: false }
    }

    /// Whether a request reads the library again (see
    /// [`spec_wants_refresh`]).
    pub fn wants_refresh(&self, force: bool, current: i64) -> (b: bool)
        ensures
            b == spec_wants_refresh(*self, force, current),
    {
        force || self.missing || match self.version {
            Some(v) => v != current,
            None => true,
        }
    }

    /// A read starts: no preview is missing yet.
    pub fn begin(&mut self)
        ensures
            *final(self) == (HomeRefresh { version: old(self).version, missing: false }),
    {
        self.missing = false;
    }

    /// A preview could not be loaded from the cache.
    pub fn note_missing(&mut self)
        ensures
            *final(self) == (HomeRefresh { version: old(self).version, missing: true }),
    {
        self.missing = true;
    }

    /// A read of database version `current` ended; returns whether the page
    /// gets a new snapshot: when forced, when the version changed, or when a
    /// preview was newly loaded.
    pub fn finish(&mut self, force: bool, current: i64, loaded: bool) -> (changed: bool)
        ensures
            changed == (force || old(self).version != Some(current) || loaded),
            *final(self) == spec_finished(*old(self), current),
    {
        let changed = force || loaded || match self.version {
            Some(v) => v != current,
            None => true,
        };
        self.version = Some(current);
        changed
    }
}

/// A read of version `current` that found every preview is not repeated by
/// an unforced request until the database changes; any earlier state asks
/// for a read when forced.
pub proof fn lemma_settled_home_is_not_reread(r: HomeRefresh, current: i64, later: i64)
    requires
        !r.missing,
    ensures
        !spec_wants_refresh(spec_finished(r, current), false, current),
        later != current ==> spec_wants_refresh(spec_finished(r, current), false, later),
        spec_wants_refresh(r, true, later),
{
}

} // verus!
