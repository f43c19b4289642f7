//! Chunking of the photo stream into bounded slices.
//!
//! Every folder range is cut into `ceil(count / PHOTOS_PER_CHUNK)` logical
//! chunks (at least one). The chunk boundaries inside a folder are moved to
//! the nearest multiple of the grid's column count, so that every chunk but
//! the last fills whole grid lines.
use vstd::prelude::*;
use vstd::arithmetic::div_mod::*;

use crate::grouping::{GroupRange, GroupRangeView, ranges_view};

verus! {

/// Photos per logical chunk.
pub const PHOTOS_PER_CHUNK: u32 = 64;

/// Columns each chunk's inner grid is pinned to.
pub const CHUNK_COLUMNS: u32 = 5;

/// Vertical pitch added to a tile line inside an inner grid.
pub const CHUNK_LINE_SPACING: i32 = 12;

/// Height of the heading above the first chunk of a folder.
pub const CHUNK_HEADER_HEIGHT: i32 = 70;

/// Chunk rows kept mounted beyond the viewport in each direction.
pub const REALIZATION_OVERSCAN_CHUNKS: i64 = 4;

/// One logical chunk of one folder range.
#[derive(Debug, Clone)]
pub struct ChunkMeta {
    pub folder_start: u32,
    pub folder_end: u32,
    pub logical_index: u32,
    pub logical_count: u32,
    pub label: String,
    pub photo_count: u32,
}

/// Plain-value view of a [`ChunkMeta`].
pub struct ChunkMetaView {
    pub folder_start: u32,
    pub folder_end: u32,
    pub logical_index: u32,
    pub logical_count: u32,
    pub label: Seq<char>,
    pub photo_count: u32,
}

impl View for ChunkMeta {
    type V = ChunkMetaView;

    open spec fn view(&self) -> ChunkMetaView {
        ChunkMetaView {
            folder_start: self.folder_start,
            folder_end: self.folder_end,
            logical_index: self.logical_index,
            logical_count: self.logical_count,
            label: self.label@,
            photo_count: self.photo_count,
        }
    }
}

/// `ceil(max(photo_count, 1) / PHOTOS_PER_CHUNK)`.
pub open spec fn spec_logical_chunk_count(photo_count: int) -> int {
    let n = if photo_count < 1 { 1 } else { photo_count };
    (n + 63) / 64
}

/// Number of logical chunks a folder of `photo_count` photos is cut into.
pub fn logical_chunk_count(photo_count: u32) -> (count: u32)
    ensures
        count == spec_logical_chunk_count(photo_count as int),
        count >= 1,
{
    let n = if photo_count < 1 { 1 } else { photo_count };
    (n - 1) / PHOTOS_PER_CHUNK + 1
}

/// Number of photos in the folder a chunk belongs to (zero when the bounds
/// are reversed).
pub open spec fn meta_count(meta: ChunkMetaView) -> int {
    if meta.folder_end >= meta.folder_start {
        meta.folder_end - meta.folder_start
    } else {
        0
    }
}

/// A chunk as produced for a folder range: its count of logical chunks is
/// the one of its folder and its index lies below that count.
pub open spec fn chunk_meta_wf(meta: ChunkMetaView) -> bool {
    &&& meta.folder_start <= meta.folder_end
    &&& meta.logical_count == spec_logical_chunk_count(meta_count(meta))
    &&& meta.logical_index < meta.logical_count
}

/// Offset, inside a folder of `count` photos cut into `logical_count` chunks,
/// of the start of chunk `index` for a grid of `columns` columns: zero for the
/// first chunk, `count` past the last one, otherwise `index * 64` rounded to
/// the nearest multiple of `columns`, kept between 1 and the last multiple of
/// `columns` below `count`.
pub open spec fn spec_boundary(index: int, logical_count: int, count: int, columns: int) -> int {
    let c = if columns < 1 { 1 } else { columns };
    if index == 0 {
        0
    } else if index >= logical_count {
        count
    } else {
        let aligned = ((index * 64 + c / 2) / c) * c;
        let last = if count > 0 { count - 1 } else { 0 };
        let hi = (last / c) * c;
        let clamped = if aligned < hi { aligned } else { hi };
        if clamped < 1 { 1 } else { clamped }
    }
}

/// Absolute `[start, end)` of a chunk in the photo stream.
pub open spec fn spec_chunk_bounds(meta: ChunkMetaView, columns: int) -> (int, int) {
    (
        meta.folder_start + spec_boundary(
            meta.logical_index as int,
            meta.logical_count as int,
            meta_count(meta),
            columns,
        ),
        meta.folder_start + spec_boundary(
            meta.logical_index + 1,
            meta.logical_count as int,
            meta_count(meta),
            columns,
        ),
    )
}

/// `(x / c) * c` lies in `(x - c, x]` and is a multiple of `c`.
proof fn lemma_round_down(x: int, c: int)
    requires
        c > 0,
        x >= 0,
    ensures
        x - c < (x / c) * c <= x,
        ((x / c) * c) % c == 0,
        (x / c) >= 0,
{
    lemma_fundamental_div_mod(x, c);
    lemma_mod_bound(x, c);
    lemma_div_pos_is_pos(x, c);
    assert((x / c) * c == c * (x / c)) by (nonlinear_arith);
    lemma_mod_multiples_basic(x / c, c);
}

/// `(x / c) * c` grows with `x`.
proof fn lemma_round_down_monotone(x: int, y: int, c: int)
    requires
        c > 0,
        0 <= x <= y,
    ensures
        (x / c) * c <= (y / c) * c,
{
    lemma_div_is_ordered(x, y, c);
    let qx = x / c;
    let qy = y / c;
    assert(qx * c <= qy * c) by (nonlinear_arith)
        requires
            qx <= qy,
            c > 0,
    ;
}

/// Every chunk boundary lies in `[0, count]` and a folder of at least one
/// photo has its internal boundaries in `[1, count - 1]`.
proof fn lemma_boundary_range(index: int, logical_count: int, count: int, columns: int)
    requires
        0 <= index,
        count >= 1,
        logical_count == spec_logical_chunk_count(count),
    ensures
        0 <= spec_boundary(index, logical_count, count, columns) <= count,
        0 < index < logical_count ==> 1 <= spec_boundary(index, logical_count, count, columns)
            < count,
{
    let c = if columns < 1 { 1 } else { columns };
    if 0 < index < logical_count {
        lemma_round_down(count - 1, c);
        lemma_round_down(index * 64 + c / 2, c);
        assert(count >= 2);
    }
}

/// The boundaries of a folder's chunks never decrease.
proof fn lemma_boundary_monotone(i: int, count: int, columns: int)
    requires
        0 <= i,
        count >= 0,
    ensures
        spec_boundary(i, spec_logical_chunk_count(count), count, columns) <= spec_boundary(
            i + 1,
            spec_logical_chunk_count(count),
            count,
            columns,
        ),
{
    let lc = spec_logical_chunk_count(count);
    let c = if columns < 1 { 1 } else { columns };
    if count >= 1 {
        lemma_boundary_range(i, lc, count, columns);
        lemma_boundary_range(i + 1, lc, count, columns);
    }
    if 0 < i && i + 1 < lc {
        lemma_round_down_monotone(i * 64 + c / 2, (i + 1) * 64 + c / 2, c);
    }
}

/// For at most 44 columns, consecutive boundaries are strictly increasing and
/// every internal boundary is a multiple of the column count.
proof fn lemma_boundary_strict(i: int, count: int, columns: int)
    requires
        0 <= i < spec_logical_chunk_count(count),
        count >= 1,
        1 <= columns <= 44,
    ensures
        spec_boundary(i, spec_logical_chunk_count(count), count, columns) < spec_boundary(
            i + 1,
            spec_logical_chunk_count(count),
            count,
            columns,
        ),
        0 < i ==> spec_boundary(i, spec_logical_chunk_count(count), count, columns) % columns
            == 0,
{
    let lc = spec_logical_chunk_count(count);
    let c = columns;
    let h = c / 2;
    lemma_boundary_range(i, lc, count, columns);
    lemma_boundary_range(i + 1, lc, count, columns);
    if 0 < i {
        // i < lc, so 64 * i < count
        assert(64 * (lc - 1) < count);
        lemma_round_down(count - 1, c);
        lemma_round_down(i * 64 + h, c);
        let a = ((i * 64 + h) / c) * c;
        let hi = ((count - 1) / c) * c;
        assert(count >= 65);
        assert(hi >= 1);
        assert(a >= 1);
        if i + 1 < lc {
            lemma_round_down((i + 1) * 64 + h, c);
            let q = (i * 64 + h) / c;
            // a is the only multiple of c that can reach hi; rule it out
            if a >= hi {
                assert(i + 2 == lc);
                assert(c == 44);
                assert(a == 64 * i + 22 || a == 64 * i + 21);
                assert(a == q * 44);
                assert(false) by (nonlinear_arith)
                    requires
                        a == q * 44,
                        a == 64 * i + 22 || a == 64 * i + 21,
                ;
            }
        }
    }
}

/// Chunk `i` of a folder ends where chunk `i + 1` starts; the first chunk
/// starts at the folder's first photo and the last one ends past its last
/// photo; chunk ends never decrease.
pub proof fn lemma_chunks_tile_folder(count: u32, columns: u32)
    ensures
        spec_boundary(0, spec_logical_chunk_count(count as int), count as int, columns as int)
            == 0,
        spec_boundary(
            spec_logical_chunk_count(count as int),
            spec_logical_chunk_count(count as int),
            count as int,
            columns as int,
        ) == count,
        forall|i: int|
            #![trigger spec_boundary(i, spec_logical_chunk_count(count as int), count as int, columns as int)]
            0 <= i < spec_logical_chunk_count(count as int) ==> spec_boundary(
                i,
                spec_logical_chunk_count(count as int),
                count as int,
                columns as int,
            ) <= spec_boundary(
                i + 1,
                spec_logical_chunk_count(count as int),
                count as int,
                columns as int,
            ),
{
    assert forall|i: int|
        0 <= i < spec_logical_chunk_count(count as int) implies #[trigger] spec_boundary(
        i,
        spec_logical_chunk_count(count as int),
        count as int,
        columns as int,
    ) <= spec_boundary(
        i + 1,
        spec_logical_chunk_count(count as int),
        count as int,
        columns as int,
    ) by {
        lemma_boundary_monotone(i, count as int, columns as int);
    }
}

/// With at most 44 columns every chunk of a non-empty folder is non-empty and
/// every boundary between two chunks of the folder falls on a whole grid line.
pub proof fn lemma_chunks_fill_whole_lines(count: u32, columns: u32)
    requires
        count >= 1,
        1 <= columns <= 44,
    ensures
        forall|i: int|
            #![trigger spec_boundary(i, spec_logical_chunk_count(count as int), count as int, columns as int)]
            0 <= i < spec_logical_chunk_count(count as int) ==> spec_boundary(
                i,
                spec_logical_chunk_count(count as int),
                count as int,
                columns as int,
            ) < spec_boundary(
                i + 1,
                spec_logical_chunk_count(count as int),
                count as int,
                columns as int,
            ),
        forall|i: int|
            #![trigger spec_boundary(i, spec_logical_chunk_count(count as int), count as int, columns as int)]
            0 < i < spec_logical_chunk_count(count as int) ==> spec_boundary(
                i,
                spec_logical_chunk_count(count as int),
                count as int,
                columns as int,
            ) % (columns as int) == 0,
{
    assert forall|i: int|
        0 <= i < spec_logical_chunk_count(count as int) implies #[trigger] spec_boundary(
        i,
        spec_logical_chunk_count(count as int),
        count as int,
        columns as int,
    ) < spec_boundary(
        i + 1,
        spec_logical_chunk_count(count as int),
        count as int,
        columns as int,
    ) && (0 < i ==> spec_boundary(
        i,
        spec_logical_chunk_count(count as int),
        count as int,
        columns as int,
    ) % (columns as int) == 0) by {
        lemma_boundary_strict(i, count as int, columns as int);
    }
}

/// Offset of the start of chunk `index` inside its folder.
fn chunk_boundary(index: u32, logical_count: u32, count: u32, columns: u32) -> (b: u32)
    requires
        count >= 1 || logical_count <= 1,
        logical_count == spec_logical_chunk_count(count as int),
    ensures
        b == spec_boundary(index as int, logical_count as int, count as int, columns as int),
        b <= count || (count == 0 && index == 0),
{
    let c: u32 = if columns < 1 { 1 } else { columns };
    if index == 0 {
        return 0;
    }
    if index >= logical_count {
        return count;
    }
    proof {
        lemma_boundary_range(index as int, logical_count as int, count as int, columns as int);
    }
    let nominal: u64 = index as u64 * 64;
    let x: u64 = nominal + (c / 2) as u64;
    let q: u64 = x / (c as u64);
    let last: u32 = if count > 0 { count - 1 } else { 0 };
    proof {
        lemma_round_down(last as int, c as int);
        lemma_round_down(x as int, c as int);
    }
    let aligned: u64 = q * (c as u64);
    let hi: u32 = (last / c) * c;
    let clamped: u64 = if aligned < hi as u64 { aligned } else { hi as u64 };
    let result: u64 = if clamped < 1 { 1 } else { clamped };
    result as u32
}

/// `[start, end)` of a chunk in the photo stream, with its internal edges
/// moved onto whole lines of a `columns`-wide grid.
pub fn aligned_chunk_bounds(meta: &ChunkMeta, columns: u32) -> (bounds: (u32, u32))
    requires
        chunk_meta_wf(meta@),
    ensures
        bounds.0 == spec_chunk_bounds(meta@, columns as int).0,
        bounds.1 == spec_chunk_bounds(meta@, columns as int).1,
        meta.folder_start <= bounds.0 <= bounds.1 <= meta.folder_end,
{
    let count = meta.folder_end - meta.folder_start;
    proof {
        lemma_boundary_monotone(meta.logical_index as int, count as int, columns as int);
    }
    let start = chunk_boundary(meta.logical_index, meta.logical_count, count, columns);
    let end = chunk_boundary(meta.logical_index + 1, meta.logical_count, count, columns);
    (meta.folder_start + start, meta.folder_start + end)
}

/// Ranges' first and past-the-end positions as kept by a chunk (the stream
/// positions are stored in 32 bits).
pub open spec fn range_start32(r: GroupRangeView) -> u32 {
    r.start as u32
}

pub open spec fn range_end32(r: GroupRangeView) -> u32 {
    r.end as u32
}

/// Photo count of a range as kept by a chunk.
pub open spec fn range_count32(r: GroupRangeView) -> u32 {
    (if r.end >= r.start { r.end - r.start } else { 0int }) as u32
}

/// The chunk `index` of `count` chunks cut from range `r`.
pub open spec fn spec_meta_for(r: GroupRangeView, index: int) -> ChunkMetaView {
    ChunkMetaView {
        folder_start: range_start32(r),
        folder_end: range_end32(r),
        logical_index: index as u32,
        logical_count: spec_logical_chunk_count(range_count32(r) as int) as u32,
        label: r.label,
        photo_count: range_count32(r),
    }
}

/// All chunks of one range, in order; none for an empty range.
pub open spec fn spec_range_metas(r: GroupRangeView) -> Seq<ChunkMetaView> {
    if range_count32(r) == 0 {
        Seq::empty()
    } else {
        Seq::new(
            spec_logical_chunk_count(range_count32(r) as int) as nat,
            |i: int| spec_meta_for(r, i),
        )
    }
}

/// The chunks of all ranges, range by range.
pub open spec fn spec_chunk_metas(ranges: Seq<GroupRangeView>) -> Seq<ChunkMetaView>
    decreases ranges.len(),
{
    if ranges.len() == 0 {
        Seq::empty()
    } else {
        spec_chunk_metas(ranges.drop_last()) + spec_range_metas(ranges.last())
    }
}

/// Plain views of a sequence of chunks.
pub open spec fn metas_view(metas: Seq<ChunkMeta>) -> Seq<ChunkMetaView> {
    metas.map_values(|m: ChunkMeta| m@)
}

/// Cut every non-empty range into its logical chunks.
pub fn build_chunk_meta(ranges: &[GroupRange]) -> (out: Vec<ChunkMeta>)
    ensures
        metas_view(out@) == spec_chunk_metas(ranges_view(ranges@)),
{
    let mut out: Vec<ChunkMeta> = Vec::new();
    let ghost rv = ranges_view(ranges@);
    for k in 0..ranges.len()
        invariant
            rv == ranges_view(ranges@),
            metas_view(out@) == spec_chunk_metas(rv.take(k as int)),
    {
        let range = &ranges[k];
        let count: u32 = (if range.end >= range.start { range.end - range.start } else { 0 }) as u32;
        let ghost before = metas_view(out@);
        assert(rv.take(k + 1).drop_last() =~= rv.take(k as int));
        assert(rv.take(k + 1).last() == range@);
        if count != 0 {
            let logical_count = logical_chunk_count(count);
            for logical_index in 0..logical_count
                invariant
                    rv == ranges_view(ranges@),
                    range@ == rv[k as int],
                    count == range_count32(range@),
                    count != 0,
                    logical_count == spec_logical_chunk_count(count as int),
                    metas_view(out@) == before + spec_range_metas(range@).take(
                        logical_index as int,
                    ),
            {
                let meta = ChunkMeta {
                    folder_start: range.start as u32,
                    folder_end: range.end as u32,
                    logical_index,
                    logical_count,
                    label: range.label.clone(),
                    photo_count: count,
                };
                let ghost prev = out@;
                out.push(meta);
                proof {
                    assert(spec_range_metas(range@).take(logical_index + 1) =~= spec_range_metas(
                        range@,
                    ).take(logical_index as int).push(spec_meta_for(range@, logical_index as int)));
                    assert(metas_view(out@) =~= metas_view(prev).push(meta@));
                }
            }
            assert(spec_range_metas(range@).take(logical_count as int) =~= spec_range_metas(
                range@,
            ));
        } else {
            assert(spec_range_metas(range@) =~= Seq::<ChunkMetaView>::empty());
            assert(before + spec_range_metas(range@) =~= before);
        }
    }
    assert(rv.take(ranges@.len() as int) =~= rv);
    out
}

/// The chunks of one range tile it: consecutive chunks share their edge, the
/// first starts at the range's start and the last ends at its end.
pub proof fn lemma_range_chunks_cover(r: GroupRangeView, columns: u32)
    requires
        range_start32(r) <= range_end32(r),
        range_count32(r) == range_end32(r) - range_start32(r),
        range_count32(r) > 0,
    ensures
        spec_chunk_bounds(spec_range_metas(r)[0], columns as int).0 == range_start32(r),
        spec_chunk_bounds(spec_range_metas(r).last(), columns as int).1 == range_end32(r),
        forall|k: int|
            0 <= k < spec_range_metas(r).len() - 1 ==> (#[trigger] spec_chunk_bounds(
                spec_range_metas(r)[k],
                columns as int,
            )).1 == spec_chunk_bounds(spec_range_metas(r)[k + 1], columns as int).0,
        forall|k: int|
            0 <= k < spec_range_metas(r).len() ==> #[trigger] chunk_meta_wf(
                spec_range_metas(r)[k],
            ),
{
    let count = range_count32(r);
    lemma_chunks_tile_folder(count, columns);
}

/// The chunks wanted for the stream: those of the folder ranges, or, without
/// ranges, the chunks of one unnamed range over the whole store (one empty
/// chunk for an empty store).
pub open spec fn spec_wanted_metas(ranges: Seq<GroupRangeView>, store_count: u32) -> Seq<
    ChunkMetaView,
> {
    if ranges.len() == 0 {
        Seq::new(
            spec_logical_chunk_count(store_count as int) as nat,
            |i: int| spec_store_meta(store_count, i),
        )
    } else {
        spec_chunk_metas(ranges)
    }
}

/// Chunk `i` of the unnamed whole-store range.
pub open spec fn spec_store_meta(store_count: u32, i: int) -> ChunkMetaView {
    ChunkMetaView {
        folder_start: 0,
        folder_end: store_count,
        logical_index: i as u32,
        logical_count: spec_logical_chunk_count(store_count as int) as u32,
        label: Seq::empty(),
        photo_count: store_count,
    }
}

/// Chunks the outer list should hold for `ranges` over a store of
/// `store_count` photos.
pub fn wanted_chunk_meta(ranges: &[GroupRange], store_count: u32) -> (out: Vec<ChunkMeta>)
    ensures
        metas_view(out@) == spec_wanted_metas(ranges_view(ranges@), store_count),
{
    if ranges.len() == 0 {
        let logical_count = logical_chunk_count(store_count);
        let mut out: Vec<ChunkMeta> = Vec::new();
        for logical_index in 0..logical_count
            invariant
                logical_count == spec_logical_chunk_count(store_count as int),
                metas_view(out@) =~= Seq::new(
                    logical_index as nat,
                    |i: int| spec_store_meta(store_count, i),
                ),
        {
            let ghost prev = out@;
            let meta = ChunkMeta {
                folder_start: 0,
                folder_end: store_count,
                logical_index,
                logical_count,
                label: String::new(),
                photo_count: store_count,
            };
            out.push(meta);
            proof {
                assert(meta@ == spec_store_meta(store_count, logical_index as int));
                assert(metas_view(out@) =~= metas_view(prev).push(meta@));
            }
        }
        out
    } else {
        build_chunk_meta(ranges)
    }
}

/// Whether a chunk's bounds hold stream `position`.
pub open spec fn chunk_holds(meta: ChunkMetaView, columns: int, position: int) -> bool {
    spec_chunk_bounds(meta, columns).0 <= position < spec_chunk_bounds(meta, columns).1
}

/// First chunk whose bounds hold `position`, or `position / 64`.
pub fn chunk_index_for_position(metas: &[ChunkMeta], columns: u32, position: u32) -> (index: u32)
    requires
        forall|k: int| 0 <= k < metas@.len() ==> #[trigger] chunk_meta_wf(metas@[k]@),
        metas@.len() <= u32::MAX,
    ensures
        (exists|i: int|
            0 <= i < metas@.len() && #[trigger] chunk_holds(metas@[i]@, columns as int, position as int))
            ==> {
            &&& index < metas@.len()
            &&& chunk_holds(metas@[index as int]@, columns as int, position as int)
            &&& forall|j: int|
                0 <= j < index ==> !#[trigger] chunk_holds(metas@[j]@, columns as int, position as int)
        },
        !(exists|i: int|
            0 <= i < metas@.len() && #[trigger] chunk_holds(metas@[i]@, columns as int, position as int))
            ==> index == position / 64,
{
    let mut i: usize = 0;
    while i < metas.len()
        invariant
            0 <= i <= metas@.len(),
            metas@.len() <= u32::MAX,
            forall|k: int| 0 <= k < metas@.len() ==> #[trigger] chunk_meta_wf(metas@[k]@),
            forall|j: int|
                0 <= j < i ==> !#[trigger] chunk_holds(metas@[j]@, columns as int, position as int),
        decreases metas@.len() - i,
    {
        let (start, end) = aligned_chunk_bounds(&metas[i], columns);
        if position >= start && position < end {
            return i as u32;
        }
        i += 1;
    }
    position / PHOTOS_PER_CHUNK
}

/// Photos the `position`-th 64-photo chunk of a store of `total_items`
/// photos holds: a full chunk, or the remainder for the last one.
pub fn filled_items_for_chunk(total_items: u32, position: u32) -> (n: u32)
    requires
        position * 64 <= u32::MAX,
    ensures
        n == if total_items >= position * 64 {
            if total_items - position * 64 < 64 { total_items - position * 64 } else { 64 }
        } else {
            0
        },
{
    let skipped = position * PHOTOS_PER_CHUNK;
    let rest = if total_items >= skipped { total_items - skipped } else { 0 };
    if rest < PHOTOS_PER_CHUNK { rest } else { PHOTOS_PER_CHUNK }
}

/// Inclusive window of chunk indices kept mounted around chunk
/// `center_chunk`: four chunks each side of the center, which is first
/// clamped into the list; `(0, 0)` for an empty list.
pub fn realization_window(center_chunk: i64, total_chunks: u32) -> (window: (u32, u32))
    ensures
        total_chunks == 0 ==> window == (0u32, 0u32),
        total_chunks > 0 ==> {
            let center = if center_chunk < 0 {
                0
            } else if center_chunk > total_chunks - 1 {
                total_chunks - 1
            } else {
                center_chunk as int
            };
            &&& window.0 == if center - 4 < 0 { 0 } else { center - 4 }
            &&& window.1 == if center + 4 > total_chunks - 1 { total_chunks - 1 } else { center + 4 }
        },
{
    if total_chunks == 0 {
        return (0, 0);
    }
    let last: i64 = total_chunks as i64 - 1;
    let center: i64 = if center_chunk < 0 { 0 } else if center_chunk > last { last } else { center_chunk };
    let start: i64 = if center - REALIZATION_OVERSCAN_CHUNKS < 0 { 0 } else { center - REALIZATION_OVERSCAN_CHUNKS };
    let end: i64 = if center + REALIZATION_OVERSCAN_CHUNKS > last { last } else { center + REALIZATION_OVERSCAN_CHUNKS };
    (start as u32, end as u32)
}

/// Final height of a chunk row holding `items` photos on `columns` lines:
/// `ceil(items / columns)` lines of one tile plus line spacing each.
pub fn chunk_row_height_px(items: u32, tile_height: i32, columns: u32) -> (h: i32)
    requires
        ({
            let c = if columns < 1 { 1int } else { columns as int };
            let t = if tile_height < 1 { 1int } else { tile_height as int };
            ((items + c - 1) / c) * (t + 12) <= i32::MAX
        }),
    ensures
        ({
            let c = if columns < 1 { 1int } else { columns as int };
            let t = if tile_height < 1 { 1int } else { tile_height as int };
            h == ((items + c - 1) / c) * (t + 12)
        }),
{
    let c: u32 = if columns < 1 { 1 } else { columns };
    let t: i64 = if tile_height < 1 { 1 } else { tile_height as i64 };
    let lines: u32 = if items == 0 { 0 } else { (items - 1) / c + 1 };
    proof {
        assert(lines as int == (items as int + c as int - 1) / (c as int)) by {
            if items > 0 {
                lemma_div_plus_one((items - 1) as int, c as int);
                assert((items - 1 + c) == items + c - 1);
            } else {
                lemma_basic_div((c - 1) as int, c as int);
            }
        }
        assert(0 <= lines * (t + 12) <= i32::MAX) by (nonlinear_arith)
            requires
                t >= 1,
                lines * (t + 12) <= i32::MAX,
        ;
        assert(lines <= lines * (t + 12)) by (nonlinear_arith)
            requires
                t >= 1,
        ;
    }
    let h: i64 = (lines as i64) * (t + 12);
    h as i32
}

/// Whether the existing chunk slices, given as `(offset, size)`, already
/// match the wanted chunks for `columns`.
pub fn slices_match(existing: &[(u32, u32)], wanted: &[ChunkMeta], columns: u32) -> (same: bool)
    requires
        forall|k: int| 0 <= k < wanted@.len() ==> #[trigger] chunk_meta_wf(wanted@[k]@),
    ensures
        same == (existing@.len() == wanted@.len() && forall|k: int|
            0 <= k < wanted@.len() ==> {
                let b = #[trigger] spec_chunk_bounds(wanted@[k]@, columns as int);
                existing@[k].0 == b.0 && existing@[k].1 == b.1 - b.0
            }),
{
    if existing.len() != wanted.len() {
        return false;
    }
    let mut k: usize = 0;
    while k < wanted.len()
        invariant
            existing@.len() == wanted@.len(),
            0 <= k <= wanted@.len(),
            forall|k: int| 0 <= k < wanted@.len() ==> #[trigger] chunk_meta_wf(wanted@[k]@),
            forall|j: int|
                0 <= j < k ==> {
                    let b = #[trigger] spec_chunk_bounds(wanted@[j]@, columns as int);
                    existing@[j].0 == b.0 && existing@[j].1 == b.1 - b.0
                },
        decreases wanted@.len() - k,
    {
        let (start, end) = aligned_chunk_bounds(&wanted[k], columns);
        if existing[k].0 != start || existing[k].1 != end - start {
            return false;
        }
        k += 1;
    }
    true
}

/// Columns of the photo grid for a surface `width` wide and tiles
/// `tile_width` wide: the space left after a 48 px margin (at least 200)
/// over the tile plus its 30 px of spacing, rounded down and kept between 1
/// and 12. A divisor of zero counts as unbounded (12), a negative one gives 1.
pub open spec fn spec_columns_for_width(width: i32, tile_width: i32) -> u32 {
    let available: int = if width - 48 < 200 { 200 } else { width - 48 };
    let step: int = tile_width + 30;
    if step > 0 {
        let columns = available / step;
        if columns < 1 {
            1
        } else if columns > 12 {
            12
        } else {
            columns as u32
        }
    } else if step == 0 {
        12
    } else {
        1
    }
}

/// Grid columns for a surface width and tile width (see
/// [`spec_columns_for_width`]). The division of two integers below 2^32
/// rounded down is the same in floating point and in integers.
pub fn columns_for_width(width: i32, tile_width: i32) -> (columns: u32)
    ensures
        columns == spec_columns_for_width(width, tile_width),
{
    let available: i64 = if (width as i64) - 48 < 200 { 200 } else { (width as i64) - 48 };
    let step: i64 = tile_width as i64 + 30;
    if step > 0 {
        let columns = available / step;
        if columns < 1 {
            1
        } else if columns > 12 {
            12
        } else {
            columns as u32
        }
    } else if step == 0 {
        12
    } else {
        1
    }
}

/// How far a zoom level lies from a tile width.
pub open spec fn level_distance(level: i32, current: i32) -> int {
    if level >= current {
        level - current
    } else {
        current - level
    }
}

/// Whether `i` is the zoom level nearest to `current`, the first of equally
/// near ones.
pub open spec fn is_nearest_level(levels: Seq<i32>, current: i32, i: int) -> bool {
    &&& 0 <= i < levels.len()
    &&& forall|j: int| 0 <= j < levels.len() ==> level_distance(levels[i], current) <= level_distance(
        #[trigger] levels[j],
        current,
    )
    &&& forall|j: int| 0 <= j < i ==> level_distance(levels[i], current) < level_distance(#[trigger] levels[j], current)
}

/// The zoom level one step from the one nearest to `current`: the next
/// larger in the list when zooming in, the previous one when zooming out,
/// staying at either end of the list.
pub open spec fn spec_next_zoom(levels: Seq<i32>, nearest: int, zoom_in: bool) -> i32 {
    if zoom_in {
        if nearest + 1 < levels.len() {
            levels[nearest + 1]
        } else {
            levels[levels.len() - 1]
        }
    } else if nearest >= 1 {
        levels[nearest - 1]
    } else {
        levels[0]
    }
}

fn distance_to(level: i32, current: i32) -> (d: i64)
    ensures
        d == level_distance(level, current),
{
    if level >= current {
        level as i64 - current as i64
    } else {
        current as i64 - level as i64
    }
}

/// The tile width after one wheel step on the sectioned grid (see
/// [`spec_next_zoom`]); `zoom_in` is whether the wheel moved up.
pub fn next_zoom(levels: &[i32], current: i32, zoom_in: bool) -> (width: i32)
    requires
        levels@.len() >= 1,
    ensures
        exists|i: int| #[trigger] is_nearest_level(levels@, current, i) && width == spec_next_zoom(levels@, i, zoom_in),
{
    let mut best: usize = 0;
    let mut best_distance: i64 = distance_to(levels[0], current);
    let mut k: usize = 1;
    while k < levels.len()
        invariant
            1 <= k <= levels@.len(),
            best < k,
            best_distance == level_distance(levels@[best as int], current),
            forall|j: int| 0 <= j < k ==> best_distance <= level_distance(#[trigger] levels@[j], current),
            forall|j: int| 0 <= j < best ==> best_distance < level_distance(#[trigger] levels@[j], current),
        decreases levels@.len() - k,
    {
        let d = distance_to(levels[k], current);
        if d < best_distance {
            best = k;
            best_distance = d;
        }
        k += 1;
    }
    assert(is_nearest_level(levels@, current, best as int));
    if zoom_in {
        if best + 1 < levels.len() {
            levels[best + 1]
        } else {
            levels[levels.len() - 1]
        }
    } else if best >= 1 {
        levels[best - 1]
    } else {
        levels[0]
    }
}

} // verus!
