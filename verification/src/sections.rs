//! The folder-sectioned grid: which tiles of a folder section fall in the
//! rows that are on screen, and the heading above each section.
use vstd::prelude::*;

use crate::grouping::{decimal_digits, spec_decimal};
use crate::text::{chars_of, extend, string_of};

verus! {

/// Photos in a section that runs from `start` up to `end` (none when `end`
/// is not past `start`).
pub open spec fn section_count(start: int, end: int) -> int {
    if end > start {
        end - start
    } else {
        0
    }
}

/// Tile rows of a section with `columns` tiles per row: the photo count
/// divided by the columns, rounded up.
pub open spec fn section_rows(count: int, columns: int) -> int {
    count / columns + if count % columns == 0 {
        0int
    } else {
        1int
    }
}

/// The tiles of row `row` of a section: `(photo index, row, column)` for
/// each column that still holds a photo before `end`.
pub open spec fn row_tiles(start: int, end: int, columns: int, row: int) -> Seq<(u32, u32, u32)> {
    let first = start + row * columns;
    let n: int = if end - first < columns {
        end - first
    } else {
        columns
    };
    Seq::new(
        if n < 0 {
            0nat
        } else {
            n as nat
        },
        |c: int| ((first + c) as u32, row as u32, c as u32),
    )
}

/// The tiles of rows `first..last`, row by row.
pub open spec fn rows_tiles(start: int, end: int, columns: int, first: int, last: int) -> Seq<(u32, u32, u32)>
    decreases last - first,
{
    if last <= first {
        Seq::empty()
    } else {
        rows_tiles(start, end, columns, first, last - 1) + row_tiles(start, end, columns, last - 1)
    }
}

/// The tiles of a section that lie in rows `first_row..last_row`, the last
/// row cut to the section's own rows.
pub open spec fn spec_section_window(start: u32, end: u32, columns: u32, first_row: u32, last_row: u32) -> Seq<
    (u32, u32, u32),
> {
    let rows = section_rows(section_count(start as int, end as int), columns as int);
    let last: int = if (last_row as int) < rows {
        last_row as int
    } else {
        rows
    };
    rows_tiles(start as int, end as int, columns as int, first_row as int, last)
}

/// Tiles of the section `start..end` to show when rows
/// `first_row..last_row` are on screen (see [`spec_section_window`]).
pub fn section_window_tiles(start: u32, end: u32, columns: u32, first_row: u32, last_row: u32) -> (tiles: Vec<
    (u32, u32, u32),
>)
    requires
        columns >= 1,
    ensures
        tiles@ == spec_section_window(start, end, columns, first_row, last_row),
{
    let count: u32 = if end > start {
        end - start
    } else {
        0
    };
    let q: u32 = count / columns;
    let rows: u32 = if count % columns == 0 {
        q
    } else {
        assert(q < 0xFFFF_FFFF) by (nonlinear_arith)
            requires
                count % columns != 0,
                columns >= 1,
                q == count / columns,
                count <= 0xFFFF_FFFF,
        {
            assert(columns != 1);
            assert(q * columns <= count);
        }
        q + 1
    };
    assert(rows == section_rows(count as int, columns as int));
    let last: u32 = if last_row < rows {
        last_row
    } else {
        rows
    };
    let mut out: Vec<(u32, u32, u32)> = Vec::new();
    let mut r: u32 = first_row;
    while r < last
        invariant
            first_row <= r,
            r <= last || r == first_row,
            last <= rows,
            rows == section_rows(count as int, columns as int),
            count == section_count(start as int, end as int),
            columns >= 1,
            out@ == rows_tiles(start as int, end as int, columns as int, first_row as int, r as int),
        decreases last - r,
    {
        assert(r * columns < count) by (nonlinear_arith)
            requires
                r < rows,
                rows == count / columns + if count % columns == 0 {
                    0int
                } else {
                    1int
                },
                columns >= 1,
        {
            assert(count == columns * (count / columns) + count % columns);
            assert(0 <= count % columns < columns);
        }
        let row_start: u32 = start + r * columns;
        let room: u32 = end - row_start;
        let n: u32 = if room < columns {
            room
        } else {
            columns
        };
        let ghost before = out@;
        let mut c: u32 = 0;
        while c < n
            invariant
                c <= n,
                n as int == (if end - (start + r * columns) < columns {
                    end - (start + r * columns)
                } else {
                    columns as int
                }),
                row_start == start + r * columns,
                row_start + n <= end,
                out@ == before + row_tiles(start as int, end as int, columns as int, r as int).take(c as int),
            decreases n - c,
        {
            let ghost prior = out@;
            out.push((row_start + c, r, c));
            proof {
                let row = row_tiles(start as int, end as int, columns as int, r as int);
                assert(row.take(c + 1) =~= row.take(c as int).push(row[c as int]));
                assert(out@ =~= prior.push(row[c as int]));
            }
            c += 1;
        }
        proof {
            let row = row_tiles(start as int, end as int, columns as int, r as int);
            assert(row.take(n as int) =~= row);
        }
        r += 1;
    }
    out
}

/// The heading of a folder section: its label, a middle dot set off by
/// three spaces each side, and the photo count.
pub open spec fn spec_section_heading(label: Seq<char>, start: usize, end: usize) -> Seq<char> {
    label + "   ·   "@ + spec_decimal(section_count(start as int, end as int) as nat) + " photos"@
}

/// `"{label}   ·   {count} photos"` for the section `start..end`.
pub fn section_heading(label: &str, start: usize, end: usize) -> (heading: String)
    ensures
        heading@ == spec_section_heading(label@, start, end),
{
    let count: usize = if end > start {
        end - start
    } else {
        0
    };
    let mut out = chars_of(label);
    let separator = vec![' ', ' ', ' ', '·', ' ', ' ', ' '];
    let suffix = vec![' ', 'p', 'h', 'o', 't', 'o', 's'];
    proof {
        reveal_strlit("   ·   ");
        reveal_strlit(" photos");
    }
    assert(separator@ =~= "   ·   "@);
    assert(suffix@ =~= " photos"@);
    extend(&mut out, &separator);
    extend(&mut out, &decimal_digits(count as u64));
    extend(&mut out, &suffix);
    string_of(&out)
}

} // verus!
