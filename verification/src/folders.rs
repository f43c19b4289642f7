//! The folder hierarchy as the grid uses it: which folders a folder's
//! navigation covers, the order of folder sections, the flat list of header
//! and photo-line rows, and the smallest change that turns the shown rows
//! into new ones.
use vstd::prelude::*;

verus! {

/// Whether `relationships` (pairs of a folder and its parent) name `child`
/// as a child of `parent`.
pub open spec fn is_child_of(relationships: Seq<(i64, Option<i64>)>, child: i64, parent: i64) -> bool {
    exists|r: int| 0 <= r < relationships.len() && #[trigger] relationships[r] == (child, Some(parent))
}

/// Whether `path` walks from `from` down to `to` through child links of
/// `relationships`.
pub open spec fn is_descent(relationships: Seq<(i64, Option<i64>)>, path: Seq<i64>, from: i64, to: i64) -> bool {
    &&& path.len() >= 1
    &&& path[0] == from
    &&& path.last() == to
    &&& forall|k: int| 0 <= k < path.len() - 1 ==> #[trigger] is_child_of(relationships, path[k + 1], path[k])
}

/// Whether folder `x` is `target` or lies below it.
pub open spec fn in_scope(relationships: Seq<(i64, Option<i64>)>, target: i64, x: i64) -> bool {
    exists|path: Seq<i64>| #[trigger] is_descent(relationships, path, target, x)
}

proof fn lemma_descent_extends(relationships: Seq<(i64, Option<i64>)>, path: Seq<i64>, from: i64, to: i64, r: int)
    requires
        is_descent(relationships, path, from, to),
        0 <= r < relationships.len(),
        relationships[r].1 == Some(to),
    ensures
        is_descent(relationships, path.push(relationships[r].0), from, relationships[r].0),
{
    let p2 = path.push(relationships[r].0);
    assert forall|k: int| 0 <= k < p2.len() - 1 implies #[trigger] is_child_of(relationships, p2[k + 1], p2[k]) by {
        if k < path.len() - 1 {
            assert(p2[k] == path[k] && p2[k + 1] == path[k + 1]);
            assert(is_child_of(relationships, path[k + 1], path[k]));
        } else {
            assert(p2[k] == to);
            assert(relationships[r] == (p2[k + 1], Some(p2[k])));
        }
    }
}

/// A list of distinct folders drawn from `target` and the children named by
/// `relationships` is no longer than the relationships plus one.
proof fn lemma_scope_bound(scope: Seq<i64>, relationships: Seq<(i64, Option<i64>)>, target: i64)
    requires
        forall|i: int, j: int| 0 <= i < j < scope.len() ==> scope[i] != scope[j],
        forall|x: i64|
            #[trigger] scope.contains(x) ==> x == target || exists|r: int|
                0 <= r < relationships.len() && #[trigger] relationships[r].0 == x,
    ensures
        scope.len() <= relationships.len() + 1,
{
    let cands = relationships.map_values(|r: (i64, Option<i64>)| r.0).push(target);
    cands.lemma_cardinality_of_set();
    assert(scope.no_duplicates());
    scope.unique_seq_to_set();
    assert forall|x: i64| scope.to_set().contains(x) implies cands.to_set().contains(x) by {
        assert(scope.contains(x));
        if x == target {
            assert(cands[cands.len() - 1] == x);
        } else {
            let r = choose|r: int| 0 <= r < relationships.len() && #[trigger] relationships[r].0 == x;
            assert(cands[r] == x);
        }
    }
    vstd::set_lib::lemma_len_subset(scope.to_set(), cands.to_set());
}

/// Every folder with a descent from the target is in a set that holds the
/// target and the children of each of its members.
proof fn lemma_closed_holds_descents(
    scope: Seq<i64>,
    relationships: Seq<(i64, Option<i64>)>,
    target: i64,
    path: Seq<i64>,
    x: i64,
)
    requires
        scope.contains(target),
        forall|y: i64, r: int|
            #[trigger] scope.contains(y) && 0 <= r < relationships.len() && #[trigger] relationships[r].1 == Some(y)
                ==> scope.contains(relationships[r].0),
        is_descent(relationships, path, target, x),
    ensures
        scope.contains(x),
    decreases path.len(),
{
    if path.len() > 1 {
        let prefix = path.drop_last();
        let y = prefix.last();
        assert(is_descent(relationships, prefix, target, y)) by {
            assert forall|k: int| 0 <= k < prefix.len() - 1 implies #[trigger] is_child_of(
                relationships,
                prefix[k + 1],
                prefix[k],
            ) by {
                assert(prefix[k] == path[k] && prefix[k + 1] == path[k + 1]);
                assert(is_child_of(relationships, path[k + 1], path[k]));
            }
        }
        lemma_closed_holds_descents(scope, relationships, target, prefix, y);
        let k = path.len() - 2;
        assert(is_child_of(relationships, path[k + 1], path[k]));
        let r = choose|r: int| 0 <= r < relationships.len() && #[trigger] relationships[r] == (path[k + 1], Some(path[k]));
        assert(relationships[r].1 == Some(y));
    }
}

/// The folders a navigation to `target` covers: `target` and every folder
/// below it, each once, in the order they are found.
pub fn folder_navigation_scope(relationships: &[(i64, Option<i64>)], target_id: i64) -> (scope: Vec<i64>)
    ensures
        forall|x: i64| #[trigger] scope@.contains(x) <==> in_scope(relationships@, target_id, x),
        forall|i: int, j: int| 0 <= i < j < scope@.len() ==> scope@[i] != scope@[j],
{
    let ghost rel = relationships@;
    let mut scope: Vec<i64> = vec![target_id];
    let mut pending: Vec<i64> = vec![target_id];
    let ghost mut paths: Map<i64, Seq<i64>> = map![target_id => seq![target_id]];
    proof {
        assert(is_descent(rel, seq![target_id], target_id, target_id));
        assert(scope@[0] == target_id);
    }
    while pending.len() > 0
        invariant
            rel == relationships@,
            scope@.len() >= 1,
            scope@[0] == target_id,
            forall|i: int, j: int| 0 <= i < j < scope@.len() ==> scope@[i] != scope@[j],
            forall|i: int, j: int| 0 <= i < j < pending@.len() ==> pending@[i] != pending@[j],
            forall|x: i64|
                #[trigger] scope@.contains(x) ==> paths.dom().contains(x) && is_descent(rel, paths[x], target_id, x),
            forall|x: i64|
                #[trigger] scope@.contains(x) ==> x == target_id || exists|r: int|
                    0 <= r < rel.len() && #[trigger] rel[r].0 == x,
            forall|k: int| 0 <= k < pending@.len() ==> scope@.contains(#[trigger] pending@[k]),
            forall|x: i64, r: int|
                #[trigger] scope@.contains(x) && !pending@.contains(x) && 0 <= r < rel.len() && #[trigger] rel[r].1
                    == Some(x) ==> scope@.contains(rel[r].0),
        decreases rel.len() + 1 - scope@.len(), pending@.len(),
    {
        proof {
            lemma_scope_bound(scope@, rel, target_id);
        }
        let ghost scope_before = scope@;
        let ghost pending_before = pending@;
        let parent = pending.pop().unwrap();
        proof {
            assert(pending_before.last() == parent);
            assert(pending@ =~= pending_before.drop_last());
            assert(!pending@.contains(parent)) by {
                if pending@.contains(parent) {
                    let k = choose|k: int| 0 <= k < pending@.len() && pending@[k] == parent;
                    assert(pending_before[k] == pending_before[pending_before.len() - 1]);
                }
            }
            assert(scope@.contains(pending_before[pending_before.len() - 1]));
            assert forall|x: i64| #[trigger] pending_before.contains(x) implies pending@.contains(x) || x == parent by {
                let k = choose|k: int| 0 <= k < pending_before.len() && pending_before[k] == x;
                if k < pending_before.len() - 1 {
                    assert(pending@[k] == x);
                }
            }
        }
        let mut r: usize = 0;
        while r < relationships.len()
            invariant
                rel == relationships@,
                0 <= r <= rel.len(),
                scope@.len() >= 1,
                scope@[0] == target_id,
                scope_before.len() <= scope@.len(),
                forall|k: int| 0 <= k < scope_before.len() ==> scope@[k] == scope_before[k],
                scope@.contains(parent),
                !pending@.contains(parent),
                forall|i: int, j: int| 0 <= i < j < scope@.len() ==> scope@[i] != scope@[j],
                forall|i: int, j: int| 0 <= i < j < pending@.len() ==> pending@[i] != pending@[j],
                forall|x: i64|
                    #[trigger] scope@.contains(x) ==> paths.dom().contains(x) && is_descent(rel, paths[x], target_id, x),
                forall|x: i64|
                    #[trigger] scope@.contains(x) ==> x == target_id || exists|q: int|
                        0 <= q < rel.len() && #[trigger] rel[q].0 == x,
                forall|k: int| 0 <= k < pending@.len() ==> scope@.contains(#[trigger] pending@[k]),
                forall|x: i64, q: int|
                    #[trigger] scope@.contains(x) && !pending@.contains(x) && x != parent && 0 <= q < rel.len()
                        && #[trigger] rel[q].1 == Some(x) ==> scope@.contains(rel[q].0),
                forall|q: int| 0 <= q < r && #[trigger] rel[q].1 == Some(parent) ==> scope@.contains(rel[q].0),
                scope@.len() > scope_before.len() || pending@.len() < pending_before.len(),
                scope@.len() == scope_before.len() ==> pending@.len() < pending_before.len(),
            decreases rel.len() - r,
        {
            let (child, up) = relationships[r];
            if up == Some(parent) {
                let mut known = false;
                let mut k: usize = 0;
                while k < scope.len()
                    invariant
                        0 <= k <= scope@.len(),
                        known == exists|m: int| 0 <= m < k && scope@[m] == child,
                    decreases scope@.len() - k,
                {
                    if scope[k] == child {
                        known = true;
                    }
                    k += 1;
                }
                if !known {
                    proof {
                        assert(!scope@.contains(child));
                        lemma_descent_extends(rel, paths[parent], target_id, parent, r as int);
                        paths = paths.insert(child, paths[parent].push(child));
                    }
                    let ghost s0 = scope@;
                    let ghost p0 = pending@;
                    scope.push(child);
                    pending.push(child);
                    proof {
                        assert forall|x: i64| #[trigger] scope@.contains(x) implies s0.contains(x) || x == child by {
                            let m = choose|m: int| 0 <= m < scope@.len() && scope@[m] == x;
                            if m < s0.len() {
                                assert(s0[m] == x);
                            }
                        }
                        assert forall|x: i64| #[trigger] pending@.contains(x) implies p0.contains(x) || x == child by {
                            let m = choose|m: int| 0 <= m < pending@.len() && pending@[m] == x;
                            if m < p0.len() {
                                assert(p0[m] == x);
                            }
                        }
                        assert forall|x: i64| s0.contains(x) implies #[trigger] scope@.contains(x) by {
                            let m = choose|m: int| 0 <= m < s0.len() && s0[m] == x;
                            assert(scope@[m] == x);
                        }
                        assert forall|x: i64| p0.contains(x) implies #[trigger] pending@.contains(x) by {
                            let m = choose|m: int| 0 <= m < p0.len() && p0[m] == x;
                            assert(pending@[m] == x);
                        }
                        assert(scope@[scope@.len() - 1] == child);
                        assert(pending@[pending@.len() - 1] == child);
                        assert(rel[r as int].0 == child);
                    }
                }
            }
            r += 1;
        }
        proof {
            lemma_scope_bound(scope@, rel, target_id);
        }
    }
    proof {
        assert(scope@.contains(target_id)) by {
            assert(scope@[0] == target_id);
        }
        assert forall|x: i64| #[trigger] scope@.contains(x) <==> in_scope(rel, target_id, x) by {
            if scope@.contains(x) {
                assert(is_descent(rel, paths[x], target_id, x));
            }
            if in_scope(rel, target_id, x) {
                let path = choose|path: Seq<i64>| #[trigger] is_descent(rel, path, target_id, x);
                lemma_closed_holds_descents(scope@, rel, target_id, path, x);
            }
        }
    }
    scope
}

/// The two kinds of folder rows: a folder's header and a line of photos.
#[derive(Debug, Clone, Copy, PartialEq, Eq, Structural)]
pub enum FolderRowKind {
    Header,
    Photos,
}

/// One row of the flat folder list: a header (empty span at the folder's
/// first photo) or a line of photos `[start, end)`.
#[derive(Debug, Clone, Copy, PartialEq, Eq, Structural)]
pub struct FolderVirtualRow {
    pub kind: FolderRowKind,
    pub start: usize,
    pub end: usize,
}

/// Height of the folder header row in pixels.
pub const FOLDER_HEADER_HEIGHT: i32 = 70;

/// Photos per line for a grid of `columns` (at least one).
pub fn folder_chunk_size(columns: u32) -> (size: usize)
    ensures
        size == if columns < 1 { 1 } else { columns as usize },
{
    if columns < 1 {
        1
    } else {
        columns as usize
    }
}

/// Whether every line of `[start, end)` in lines of `size` can be counted:
/// the last line's start plus `size` fits in a `usize`.
pub open spec fn lines_fit(start: int, end: int, size: int) -> bool {
    start >= end || start + ((end - start - 1) / size) * size + size <= usize::MAX
}

/// The photo lines of `[start, end)`, at most `size` photos each.
pub open spec fn photo_lines(start: int, end: int, size: int) -> Seq<FolderVirtualRow>
    decreases end - start,
    when size >= 1
{
    if start >= end {
        Seq::empty()
    } else {
        let stop = if start + size < end { start + size } else { end };
        seq![FolderVirtualRow { kind: FolderRowKind::Photos, start: start as usize, end: stop as usize }]
            + photo_lines(stop, end, size)
    }
}

/// The rows of the folder list: for each range, a header then its lines.
pub open spec fn virtual_rows(ranges: Seq<crate::grouping::GroupRangeView>, size: int) -> Seq<FolderVirtualRow>
    decreases ranges.len(),
{
    if ranges.len() == 0 {
        Seq::empty()
    } else {
        let r = ranges.last();
        virtual_rows(ranges.drop_last(), size) + seq![
            FolderVirtualRow { kind: FolderRowKind::Header, start: r.start as usize, end: r.start as usize },
        ] + photo_lines(r.start, r.end, size)
    }
}

proof fn lemma_lines_step(start: int, end: int, size: int)
    requires
        size >= 1,
        start < end,
        lines_fit(start, end, size),
    ensures
        start + size <= usize::MAX,
        lines_fit(if start + size < end { start + size } else { end }, end, size),
{
    let q = (end - start - 1) / size;
    assert(q >= 0) by (nonlinear_arith)
        requires
            end - start - 1 >= 0,
            size >= 1,
            q == (end - start - 1) / size,
    ;
    assert(q * size >= 0) by (nonlinear_arith)
        requires
            q >= 0,
            size >= 1,
    ;
    if start + size < end {
        let q2 = (end - (start + size) - 1) / size;
        assert(q2 == q - 1) by (nonlinear_arith)
            requires
                size >= 1,
                q == (end - start - 1) / size,
                q2 == (end - start - 1 - size) / size,
        ;
        assert(start + size + q2 * size + size == start + q * size + size) by (nonlinear_arith)
            requires
                q2 == q - 1,
        ;
    }
}

/// The folder list's rows for `ranges` with lines of `chunk_size` photos
/// (at least one).
pub fn folder_virtual_rows(ranges: &[crate::grouping::GroupRange], chunk_size: usize) -> (rows: Vec<FolderVirtualRow>)
    requires
        forall|i: int|
            0 <= i < ranges@.len() ==> lines_fit(
                (#[trigger] ranges@[i]).start as int,
                ranges@[i].end as int,
                if chunk_size < 1 { 1 } else { chunk_size as int },
            ),
    ensures
        rows@ == virtual_rows(
            crate::grouping::ranges_view(ranges@),
            if chunk_size < 1 { 1 } else { chunk_size as int },
        ),
{
    let size: usize = if chunk_size < 1 { 1 } else { chunk_size };
    let ghost rv = crate::grouping::ranges_view(ranges@);
    let mut rows: Vec<FolderVirtualRow> = Vec::new();
    let mut i: usize = 0;
    while i < ranges.len()
        invariant
            0 <= i <= ranges@.len(),
            size >= 1,
            size == if chunk_size < 1 { 1 } else { chunk_size as int },
            rv == crate::grouping::ranges_view(ranges@),
            forall|k: int|
                0 <= k < ranges@.len() ==> lines_fit((#[trigger] ranges@[k]).start as int, ranges@[k].end as int, size as int),
            rows@ == virtual_rows(rv.take(i as int), size as int),
        decreases ranges@.len() - i,
    {
        let range = &ranges[i];
        assert(rv.take(i + 1).drop_last() =~= rv.take(i as int));
        assert(rv.take(i + 1).last() == range@);
        rows.push(FolderVirtualRow { kind: FolderRowKind::Header, start: range.start, end: range.start });
        let ghost base = rows@;
        let mut start = range.start;
        assert(lines_fit(range.start as int, range.end as int, size as int));
        while start < range.end
            invariant
                size >= 1,
                range.start <= start,
                start <= range.end || range.start >= range.end,
                lines_fit(start as int, range.end as int, size as int),
                rows@ + photo_lines(start as int, range.end as int, size as int) == base + photo_lines(
                    range.start as int,
                    range.end as int,
                    size as int,
                ),
            decreases range.end - start,
        {
            proof {
                lemma_lines_step(start as int, range.end as int, size as int);
            }
            let stop = if range.end - start > size { start + size } else { range.end };
            let ghost before = rows@;
            rows.push(FolderVirtualRow { kind: FolderRowKind::Photos, start, end: stop });
            proof {
                let tail = photo_lines(stop as int, range.end as int, size as int);
                assert(photo_lines(start as int, range.end as int, size as int) =~= seq![
                    FolderVirtualRow { kind: FolderRowKind::Photos, start, end: stop },
                ] + tail);
                assert(rows@ + tail =~= before + (seq![FolderVirtualRow { kind: FolderRowKind::Photos, start, end: stop }] + tail));
            }
            start = stop;
        }
        proof {
            if start >= range.end {
                assert(photo_lines(start as int, range.end as int, size as int) =~= Seq::<FolderVirtualRow>::empty());
            }
            assert(rows@ =~= rows@ + Seq::<FolderVirtualRow>::empty());
        }
        i += 1;
    }
    assert(rv.take(ranges@.len() as int) =~= rv);
    rows
}

/// A folder of the catalog: its id, its parent and how many photos it holds
/// itself.
#[derive(Debug, Clone, Copy, PartialEq, Eq, Structural)]
pub struct FolderCatalogEntry {
    pub folder_id: i64,
    pub parent_id: Option<i64>,
    pub photo_count: usize,
}

/// One folder section to show: the folder and the range of photos it heads.
#[derive(Debug, Clone, Copy, PartialEq, Eq, Structural)]
pub struct FolderSectionPlan {
    pub folder_id: i64,
    pub range_index: Option<usize>,
}

/// The catalog's folders that hold photos, in catalog order.
pub open spec fn catalog_ids(catalog: Seq<FolderCatalogEntry>) -> Seq<i64>
    decreases catalog.len(),
{
    if catalog.len() == 0 {
        Seq::empty()
    } else if catalog.last().photo_count > 0 {
        catalog_ids(catalog.drop_last()).push(catalog.last().folder_id)
    } else {
        catalog_ids(catalog.drop_last())
    }
}

/// The order in which folders are visited: the sidebar's order when there
/// is one, else the catalog's folders that hold photos.
pub open spec fn visit_order(catalog: Seq<FolderCatalogEntry>, order: Seq<i64>) -> Seq<i64> {
    if order.len() == 0 {
        catalog_ids(catalog)
    } else {
        order
    }
}

/// The positions below `n` of the ranges of folder `id`, in order.
pub open spec fn indices_of(range_ids: Seq<i64>, id: i64, n: int) -> Seq<int>
    decreases n,
{
    if n <= 0 {
        Seq::empty()
    } else if range_ids[n - 1] == id {
        indices_of(range_ids, id, n - 1).push(n - 1)
    } else {
        indices_of(range_ids, id, n - 1)
    }
}

/// The ranges in visiting order: for each folder the first time it is
/// visited, its ranges in order.
pub open spec fn visited_ranges(range_ids: Seq<i64>, ids: Seq<i64>) -> Seq<int>
    decreases ids.len(),
{
    if ids.len() == 0 {
        Seq::empty()
    } else if ids.drop_last().contains(ids.last()) {
        visited_ranges(range_ids, ids.drop_last())
    } else {
        visited_ranges(range_ids, ids.drop_last()) + indices_of(range_ids, ids.last(), range_ids.len() as int)
    }
}

/// The positions below `n` of ranges whose folder is never visited.
pub open spec fn unvisited_ranges(range_ids: Seq<i64>, ids: Seq<i64>, n: int) -> Seq<int>
    decreases n,
{
    if n <= 0 {
        Seq::empty()
    } else if ids.contains(range_ids[n - 1]) {
        unvisited_ranges(range_ids, ids, n - 1)
    } else {
        unvisited_ranges(range_ids, ids, n - 1).push(n - 1)
    }
}

/// The folder of each range.
pub open spec fn range_folder_ids(ranges: Seq<crate::grouping::GroupRange>) -> Seq<i64> {
    ranges.map_values(|r: crate::grouping::GroupRange| r.folder_id)
}

/// The sections of the folder list: the ranges of the visited folders in
/// visiting order, then every other range in stream order, so no range is
/// ever hidden.
pub open spec fn spec_section_plan(
    ranges: Seq<crate::grouping::GroupRange>,
    catalog: Seq<FolderCatalogEntry>,
    order: Seq<i64>,
) -> Seq<FolderSectionPlan> {
    let rids = range_folder_ids(ranges);
    let ids = visit_order(catalog, order);
    (visited_ranges(rids, ids) + unvisited_ranges(rids, ids, rids.len() as int)).map_values(
        |i: int| FolderSectionPlan { folder_id: rids[i], range_index: Some(i as usize) },
    )
}

fn contains_id(ids: &Vec<i64>, upto: usize, id: i64) -> (found: bool)
    requires
        upto <= ids@.len(),
    ensures
        found == ids@.take(upto as int).contains(id),
{
    let mut k: usize = 0;
    while k < upto
        invariant
            0 <= k <= upto <= ids@.len(),
            forall|m: int| 0 <= m < k ==> ids@[m] != id,
        decreases upto - k,
    {
        if ids[k] == id {
            assert(ids@.take(upto as int)[k as int] == id);
            return true;
        }
        k += 1;
    }
    proof {
        if ids@.take(upto as int).contains(id) {
            let m = choose|m: int| 0 <= m < upto && ids@.take(upto as int)[m] == id;
            assert(ids@[m] == id);
        }
    }
    false
}

/// The folder sections to show (see [`spec_section_plan`]).
pub fn folder_section_plan(
    ranges: &[crate::grouping::GroupRange],
    catalog: &[FolderCatalogEntry],
    folder_order: &[i64],
) -> (plan: Vec<FolderSectionPlan>)
    ensures
        plan@ == spec_section_plan(ranges@, catalog@, folder_order@),
{
    let ghost rids = range_folder_ids(ranges@);
    let mut ids: Vec<i64> = Vec::new();
    if folder_order.len() == 0 {
        let mut c: usize = 0;
        while c < catalog.len()
            invariant
                0 <= c <= catalog@.len(),
                ids@ == catalog_ids(catalog@.take(c as int)),
            decreases catalog@.len() - c,
        {
            assert(catalog@.take(c + 1).drop_last() =~= catalog@.take(c as int));
            if catalog[c].photo_count > 0 {
                ids.push(catalog[c].folder_id);
            }
            c += 1;
        }
        assert(catalog@.take(catalog@.len() as int) =~= catalog@);
    } else {
        let mut c: usize = 0;
        while c < folder_order.len()
            invariant
                0 <= c <= folder_order@.len(),
                ids@ == folder_order@.take(c as int),
            decreases folder_order@.len() - c,
        {
            ids.push(folder_order[c]);
            assert(ids@ =~= folder_order@.take(c + 1));
            c += 1;
        }
        assert(folder_order@.take(folder_order@.len() as int) =~= folder_order@);
    }
    let ghost order = visit_order(catalog@, folder_order@);
    assert(ids@ == order);
    let mut plan: Vec<FolderSectionPlan> = Vec::new();
    let ghost mut picked: Seq<int> = Seq::empty();
    let mut v: usize = 0;
    while v < ids.len()
        invariant
            0 <= v <= ids@.len(),
            ids@ == order,
            rids == range_folder_ids(ranges@),
            picked == visited_ranges(rids, order.take(v as int)),
            plan@ == picked.map_values(|i: int| FolderSectionPlan { folder_id: rids[i], range_index: Some(i as usize) }),
        decreases ids@.len() - v,
    {
        let id = ids[v];
        let ghost prev = order.take(v as int);
        assert(order.take(v + 1).drop_last() =~= prev);
        assert(order.take(v + 1).last() == id);
        if !contains_id(&ids, v, id) {
            let mut i: usize = 0;
            let ghost base = picked;
            while i < ranges.len()
                invariant
                    0 <= i <= ranges@.len(),
                    rids == range_folder_ids(ranges@),
                    picked == base + indices_of(rids, id, i as int),
                    plan@ == picked.map_values(
                        |i: int| FolderSectionPlan { folder_id: rids[i], range_index: Some(i as usize) },
                    ),
                decreases ranges@.len() - i,
            {
                if ranges[i].folder_id == id {
                    let ghost before = picked;
                    plan.push(FolderSectionPlan { folder_id: id, range_index: Some(i) });
                    proof {
                        picked = picked.push(i as int);
                        assert(picked =~= base + indices_of(rids, id, i + 1));
                        assert(plan@ =~= picked.map_values(
                            |i: int| FolderSectionPlan { folder_id: rids[i], range_index: Some(i as usize) },
                        ));
                    }
                }
                i += 1;
            }
        }
        v += 1;
    }
    assert(order.take(ids@.len() as int) =~= order);
    let ghost first = picked;
    let mut i: usize = 0;
    while i < ranges.len()
        invariant
            0 <= i <= ranges@.len(),
            ids@ == order,
            rids == range_folder_ids(ranges@),
            picked == first + unvisited_ranges(rids, order, i as int),
            plan@ == picked.map_values(|i: int| FolderSectionPlan { folder_id: rids[i], range_index: Some(i as usize) }),
        decreases ranges@.len() - i,
    {
        let len = ids.len();
        if !contains_id(&ids, len, ranges[i].folder_id) {
            assert(ids@.take(len as int) =~= ids@);
            plan.push(FolderSectionPlan { folder_id: ranges[i].folder_id, range_index: Some(i) });
            proof {
                picked = picked.push(i as int);
                assert(picked =~= first + unvisited_ranges(rids, order, i + 1));
                assert(plan@ =~= picked.map_values(
                    |i: int| FolderSectionPlan { folder_id: rids[i], range_index: Some(i as usize) },
                ));
            }
        } else {
            assert(ids@.take(len as int) =~= ids@);
        }
        i += 1;
    }
    plan
}

proof fn lemma_indices_of(range_ids: Seq<i64>, id: i64, n: int)
    requires
        0 <= n <= range_ids.len(),
    ensures
        forall|i: int| #[trigger] indices_of(range_ids, id, n).contains(i) <==> 0 <= i < n && range_ids[i] == id,
        forall|a: int, b: int|
            0 <= a < b < indices_of(range_ids, id, n).len() ==> indices_of(range_ids, id, n)[a] < indices_of(
                range_ids,
                id,
                n,
            )[b],
        forall|a: int| 0 <= a < indices_of(range_ids, id, n).len() ==> 0 <= #[trigger] indices_of(range_ids, id, n)[a] < n,
    decreases n,
{
    if n > 0 {
        lemma_indices_of(range_ids, id, n - 1);
        let prev = indices_of(range_ids, id, n - 1);
        let cur = indices_of(range_ids, id, n);
        assert forall|i: int| #[trigger] cur.contains(i) <==> 0 <= i < n && range_ids[i] == id by {
            if range_ids[n - 1] == id {
                if cur.contains(i) {
                    let k = choose|k: int| 0 <= k < cur.len() && cur[k] == i;
                    if k < prev.len() {
                        assert(prev.contains(i));
                    }
                }
                if 0 <= i < n && range_ids[i] == id {
                    if i < n - 1 {
                        assert(prev.contains(i));
                        let k = choose|k: int| 0 <= k < prev.len() && prev[k] == i;
                        assert(cur[k] == i);
                    } else {
                        assert(cur[cur.len() - 1] == i);
                    }
                }
            }
        }
    }
}

proof fn lemma_unvisited(range_ids: Seq<i64>, ids: Seq<i64>, n: int)
    requires
        0 <= n <= range_ids.len(),
    ensures
        forall|i: int|
            #[trigger] unvisited_ranges(range_ids, ids, n).contains(i) <==> 0 <= i < n && !ids.contains(range_ids[i]),
        forall|a: int, b: int|
            0 <= a < b < unvisited_ranges(range_ids, ids, n).len() ==> unvisited_ranges(range_ids, ids, n)[a]
                < unvisited_ranges(range_ids, ids, n)[b],
        forall|a: int|
            0 <= a < unvisited_ranges(range_ids, ids, n).len() ==> 0 <= #[trigger] unvisited_ranges(range_ids, ids, n)[a] < n,
    decreases n,
{
    if n > 0 {
        lemma_unvisited(range_ids, ids, n - 1);
        let prev = unvisited_ranges(range_ids, ids, n - 1);
        let cur = unvisited_ranges(range_ids, ids, n);
        assert forall|i: int| #[trigger] cur.contains(i) <==> 0 <= i < n && !ids.contains(range_ids[i]) by {
            if !ids.contains(range_ids[n - 1]) {
                if cur.contains(i) {
                    let k = choose|k: int| 0 <= k < cur.len() && cur[k] == i;
                    if k < prev.len() {
                        assert(prev.contains(i));
                    }
                }
                if 0 <= i < n && !ids.contains(range_ids[i]) {
                    if i < n - 1 {
                        assert(prev.contains(i));
                        let k = choose|k: int| 0 <= k < prev.len() && prev[k] == i;
                        assert(cur[k] == i);
                    } else {
                        assert(cur[cur.len() - 1] == i);
                    }
                }
            }
        }
    }
}

proof fn lemma_visited(range_ids: Seq<i64>, ids: Seq<i64>)
    ensures
        forall|i: int|
            #[trigger] visited_ranges(range_ids, ids).contains(i) <==> 0 <= i < range_ids.len() && ids.contains(
                range_ids[i],
            ),
        forall|a: int, b: int|
            0 <= a < b < visited_ranges(range_ids, ids).len() ==> visited_ranges(range_ids, ids)[a]
                != visited_ranges(range_ids, ids)[b],
    decreases ids.len(),
{
    if ids.len() > 0 {
        let rest = ids.drop_last();
        let id = ids.last();
        lemma_visited(range_ids, rest);
        let prev = visited_ranges(range_ids, rest);
        let cur = visited_ranges(range_ids, ids);
        assert forall|x: i64| #[trigger] ids.contains(x) <==> rest.contains(x) || x == id by {
            if ids.contains(x) {
                let k = choose|k: int| 0 <= k < ids.len() && ids[k] == x;
                if k < rest.len() {
                    assert(rest[k] == x);
                }
            }
            if rest.contains(x) {
                let k = choose|k: int| 0 <= k < rest.len() && rest[k] == x;
                assert(ids[k] == x);
            }
            if x == id {
                assert(ids[ids.len() - 1] == x);
            }
        }
        if !rest.contains(id) {
            let n = range_ids.len() as int;
            lemma_indices_of(range_ids, id, n);
            let more = indices_of(range_ids, id, n);
            assert forall|i: int| #[trigger] cur.contains(i) <==> 0 <= i < range_ids.len() && ids.contains(range_ids[i]) by {
                if cur.contains(i) {
                    let k = choose|k: int| 0 <= k < cur.len() && cur[k] == i;
                    if k < prev.len() {
                        assert(prev.contains(i));
                    } else {
                        assert(more.contains(i));
                    }
                }
                if 0 <= i < range_ids.len() && ids.contains(range_ids[i]) {
                    if rest.contains(range_ids[i]) {
                        assert(prev.contains(i));
                        let k = choose|k: int| 0 <= k < prev.len() && prev[k] == i;
                        assert(cur[k] == i);
                    } else {
                        assert(more.contains(i));
                        let k = choose|k: int| 0 <= k < more.len() && more[k] == i;
                        assert(cur[prev.len() + k] == i);
                    }
                }
            }
            assert forall|a: int, b: int| 0 <= a < b < cur.len() implies cur[a] != cur[b] by {
                if b >= prev.len() && a < prev.len() {
                    assert(prev.contains(cur[a]));
                    assert(more.contains(cur[b]));
                    assert(range_ids[cur[b]] == id);
                    if cur[a] == cur[b] {
                        assert(rest.contains(range_ids[cur[a]]));
                    }
                } else if a >= prev.len() {
                    assert(cur[a] == more[a - prev.len()]);
                    assert(cur[b] == more[b - prev.len()]);
                }
            }
        }
    }
}

/// Whether some section of `plan` heads range `i`.
pub open spec fn shows_range(plan: Seq<FolderSectionPlan>, i: int) -> bool {
    exists|k: int| 0 <= k < plan.len() && #[trigger] plan[k].range_index == Some(i as usize)
}

/// The folder list shows every photo range exactly once: whatever the
/// catalog and the sidebar order, no range is hidden and none repeats.
pub proof fn lemma_section_plan_shows_every_range_once(
    ranges: Seq<crate::grouping::GroupRange>,
    catalog: Seq<FolderCatalogEntry>,
    order: Seq<i64>,
)
    requires
        ranges.len() <= usize::MAX,
    ensures
        ({
            let plan = spec_section_plan(ranges, catalog, order);
            &&& forall|i: int| 0 <= i < ranges.len() ==> #[trigger] shows_range(plan, i)
            &&& forall|a: int, b: int| 0 <= a < b < plan.len() ==> plan[a].range_index != plan[b].range_index
            &&& forall|k: int|
                0 <= k < plan.len() ==> ((#[trigger] plan[k]).range_index matches Some(i) && i < ranges.len()
                    && plan[k].folder_id == ranges[i as int].folder_id)
        }),
{
    let rids = range_folder_ids(ranges);
    let ids = visit_order(catalog, order);
    let n = rids.len() as int;
    lemma_visited(rids, ids);
    lemma_unvisited(rids, ids, n);
    let v = visited_ranges(rids, ids);
    let u = unvisited_ranges(rids, ids, n);
    let all = v + u;
    let plan = spec_section_plan(ranges, catalog, order);
    assert forall|k: int| 0 <= k < all.len() implies 0 <= #[trigger] all[k] < n by {
        if k < v.len() {
            assert(v.contains(all[k]));
        } else {
            assert(all[k] == u[k - v.len()]);
        }
    }
    assert forall|i: int| 0 <= i < ranges.len() implies #[trigger] shows_range(plan, i) by {
        if ids.contains(rids[i]) {
            assert(v.contains(i));
            let k = choose|k: int| 0 <= k < v.len() && v[k] == i;
            assert(all[k] == i);
            assert(plan[k].range_index == Some(i as usize));
        } else {
            assert(u.contains(i));
            let k = choose|k: int| 0 <= k < u.len() && u[k] == i;
            assert(all[v.len() + k] == i);
            assert(plan[v.len() + k].range_index == Some(i as usize));
        }
    }
    assert forall|k: int| 0 <= k < plan.len() implies ((#[trigger] plan[k]).range_index matches Some(i) && i
        < ranges.len() && plan[k].folder_id == ranges[i as int].folder_id) by {
        assert(0 <= all[k] < n);
        assert(plan[k].range_index == Some(all[k] as usize));
        assert(rids[all[k]] == ranges[all[k]].folder_id);
    }
    assert forall|a: int, b: int| 0 <= a < b < plan.len() implies plan[a].range_index != plan[b].range_index by {
        assert(0 <= all[a] < n && 0 <= all[b] < n);
        assert(plan[a].range_index == Some(all[a] as usize));
        assert(plan[b].range_index == Some(all[b] as usize));
        if b < v.len() {
        } else if a >= v.len() {
            assert(all[a] == u[a - v.len()] && all[b] == u[b - v.len()]);
        } else {
            assert(v.contains(all[a]));
            assert(u.contains(all[b]));
        }
    }
}

/// The data one row of the folder list shows.
#[derive(Debug, Clone)]
pub struct FolderRowData {
    pub kind: FolderRowKind,
    pub folder_id: i64,
    pub folder_path: String,
    pub label: String,
    pub count: usize,
    pub start: usize,
    pub end: usize,
    pub photo_ids: Vec<i64>,
}

/// Plain-value view of a [`FolderRowData`].
pub struct RowDataView {
    pub kind: FolderRowKind,
    pub folder_id: i64,
    pub folder_path: Seq<char>,
    pub label: Seq<char>,
    pub count: usize,
    pub start: usize,
    pub end: usize,
    pub photo_ids: Seq<i64>,
}

impl FolderRowData {
    pub open spec fn view(&self) -> RowDataView {
        RowDataView {
            kind: self.kind,
            folder_id: self.folder_id,
            folder_path: self.folder_path@,
            label: self.label@,
            count: self.count,
            start: self.start,
            end: self.end,
            photo_ids: self.photo_ids@,
        }
    }
}

/// The views of a list of rows.
pub open spec fn rows_view(rows: Seq<FolderRowData>) -> Seq<RowDataView> {
    rows.map_values(|r: FolderRowData| r.view())
}

fn same_ids(a: &Vec<i64>, b: &Vec<i64>) -> (same: bool)
    ensures
        same == (a@ == b@),
{
    if a.len() != b.len() {
        return false;
    }
    let mut i: usize = 0;
    while i < a.len()
        invariant
            a@.len() == b@.len(),
            0 <= i <= a@.len(),
            forall|j: int| 0 <= j < i ==> a@[j] == b@[j],
        decreases a@.len() - i,
    {
        if a[i] != b[i] {
            return false;
        }
        i += 1;
    }
    assert(a@ =~= b@);
    true
}

/// Whether two rows show the same thing.
pub fn folder_virtual_row_matches(old: &FolderRowData, new: &FolderRowData) -> (same: bool)
    ensures
        same == (old.view() == new.view()),
{
    old.kind == new.kind && old.folder_id == new.folder_id && crate::text::same_chars(
        &crate::text::chars_of(old.folder_path.as_str()),
        &crate::text::chars_of(new.folder_path.as_str()),
    ) && crate::text::same_chars(
        &crate::text::chars_of(old.label.as_str()),
        &crate::text::chars_of(new.label.as_str()),
    ) && old.count == new.count && old.start == new.start && old.end == new.end && same_ids(
        &old.photo_ids,
        &new.photo_ids,
    )
}

/// Whether a changed header row may be replaced in place: both headers of
/// the same folder, path and span (only the label or count changed).
pub open spec fn header_replaceable(old: RowDataView, new: RowDataView) -> bool {
    &&& old.kind == FolderRowKind::Header
    &&& new.kind == FolderRowKind::Header
    &&& old.folder_id == new.folder_id
    &&& old.folder_path == new.folder_path
    &&& old.start == new.start
    &&& old.end == new.end
}

/// The common prefix from row `p` on: rows equal, or headers replaced in
/// place (their positions listed), up to the first other difference.
pub open spec fn prefix_scan(old: Seq<RowDataView>, new: Seq<RowDataView>, p: int) -> (int, Seq<int>)
    decreases old.len() - p,
{
    if 0 <= p && p < old.len() && p < new.len() {
        if old[p] == new[p] {
            prefix_scan(old, new, p + 1)
        } else if header_replaceable(old[p], new[p]) {
            let (q, rs) = prefix_scan(old, new, p + 1);
            (q, seq![p] + rs)
        } else {
            (p, Seq::empty())
        }
    } else {
        (p, Seq::empty())
    }
}

/// Whether the rows `t` places from the end of both lists are equal.
pub open spec fn tail_equal(old: Seq<RowDataView>, new: Seq<RowDataView>, t: int) -> bool {
    old[old.len() - 1 - t] == new[new.len() - 1 - t]
}

/// The common suffix length after a prefix of `p`, counted from `s`.
pub open spec fn suffix_scan(old: Seq<RowDataView>, new: Seq<RowDataView>, p: int, s: int) -> int
    decreases old.len() - p - s,
{
    if 0 <= s && s < old.len() - p && s < new.len() - p && old[old.len() - 1 - s] == new[new.len() - 1 - s] {
        suffix_scan(old, new, p, s + 1)
    } else {
        s
    }
}

/// How to turn the shown rows into new ones: replace the listed headers in
/// place, then splice out `removed` rows at `prefix` and put in the new rows
/// between `prefix` and `new_len - suffix` (nothing to splice when both
/// lists are all prefix).
#[derive(Debug)]
pub struct RowSplice {
    pub replaced: Vec<usize>,
    pub prefix: usize,
    pub suffix: usize,
    pub splice: bool,
}

/// The rows after a splice plan is applied to `old`.
pub open spec fn apply_splice(
    old: Seq<RowDataView>,
    new: Seq<RowDataView>,
    replaced: Seq<usize>,
    prefix: int,
    suffix: int,
    splice: bool,
) -> Seq<RowDataView> {
    let patched = Seq::new(
        old.len(),
        |i: int| if replaced.contains(i as usize) { new[i] } else { old[i] },
    );
    if splice {
        patched.take(prefix) + new.subrange(prefix, new.len() - suffix) + patched.skip(old.len() - suffix)
    } else {
        patched
    }
}

proof fn lemma_prefix_scan(old: Seq<RowDataView>, new: Seq<RowDataView>, p: int)
    requires
        0 <= p <= old.len(),
        p <= new.len(),
    ensures
        ({
            let (q, rs) = prefix_scan(old, new, p);
            &&& p <= q <= old.len()
            &&& q <= new.len()
            &&& forall|k: int| 0 <= k < rs.len() ==> p <= #[trigger] rs[k] < q
            &&& forall|i: int| p <= i < q ==> (old[i] == new[i] || (rs.contains(i) && header_replaceable(old[i], new[i])))
            &&& forall|i: int| #[trigger] rs.contains(i) ==> p <= i < q
        }),
    decreases old.len() - p,
{
    if p < old.len() && p < new.len() {
        if old[p] == new[p] {
            lemma_prefix_scan(old, new, p + 1);
        } else if header_replaceable(old[p], new[p]) {
            lemma_prefix_scan(old, new, p + 1);
            let (q, rs) = prefix_scan(old, new, p + 1);
            let all = seq![p] + rs;
            assert(all[0] == p);
            assert forall|k: int| 0 <= k < all.len() implies p <= #[trigger] all[k] < q by {
                if k > 0 {
                    assert(all[k] == rs[k - 1]);
                }
            }
            assert forall|i: int| #[trigger] all.contains(i) implies p <= i < q by {
                let k = choose|k: int| 0 <= k < all.len() && all[k] == i;
                if k > 0 {
                    assert(all[k] == rs[k - 1]);
                }
            }
            assert forall|i: int| p <= i < q implies (old[i] == new[i] || (all.contains(i) && header_replaceable(
                old[i],
                new[i],
            ))) by {
                if i == p {
                    assert(all[0] == i);
                } else if old[i] != new[i] {
                    assert(rs.contains(i));
                    let k = choose|k: int| 0 <= k < rs.len() && rs[k] == i;
                    assert(all[k + 1] == i);
                }
            }
        }
    }
}

proof fn lemma_suffix_scan(old: Seq<RowDataView>, new: Seq<RowDataView>, p: int, s: int)
    requires
        0 <= p <= old.len(),
        p <= new.len(),
        0 <= s <= old.len() - p,
        s <= new.len() - p,
        forall|t: int| 0 <= t < s ==> #[trigger] tail_equal(old, new, t),
    ensures
        s <= suffix_scan(old, new, p, s) <= old.len() - p,
        suffix_scan(old, new, p, s) <= new.len() - p,
        forall|t: int| 0 <= t < suffix_scan(old, new, p, s) ==> #[trigger] tail_equal(old, new, t),
    decreases old.len() - p - s,
{
    if s < old.len() - p && s < new.len() - p && old[old.len() - 1 - s] == new[new.len() - 1 - s] {
        lemma_suffix_scan(old, new, p, s + 1);
    }
}

/// Applying the splice plan to the shown rows gives exactly the new rows:
/// the kept prefix and suffix are equal, replaced headers take the new
/// rows, and the spliced middle is the new middle.
pub proof fn lemma_splice_gives_new_rows(old: Seq<RowDataView>, new: Seq<RowDataView>)
    requires
        old.len() <= usize::MAX,
        new.len() <= usize::MAX,
    ensures
        ({
            let (prefix, replaced) = prefix_scan(old, new, 0);
            let suffix = suffix_scan(old, new, prefix, 0);
            let splice = !(prefix == old.len() && prefix == new.len());
            apply_splice(
                old,
                new,
                replaced.map_values(|i: int| i as usize),
                prefix,
                suffix,
                splice,
            ) == new
        }),
{
    lemma_prefix_scan(old, new, 0);
    let (prefix, rs) = prefix_scan(old, new, 0);
    lemma_suffix_scan(old, new, prefix, 0);
    let suffix = suffix_scan(old, new, prefix, 0);
    let replaced = rs.map_values(|i: int| i as usize);
    let patched = Seq::new(old.len(), |i: int| if replaced.contains(i as usize) { new[i] } else { old[i] });
    assert forall|i: int| 0 <= i < prefix implies patched[i] == new[i] by {
        if old[i] != new[i] {
            assert(rs.contains(i));
            let k = choose|k: int| 0 <= k < rs.len() && rs[k] == i;
            assert(replaced[k] == i as usize);
            assert(replaced.contains(i as usize));
        }
    }
    assert forall|i: int| prefix <= i < old.len() implies patched[i] == old[i] by {
        if replaced.contains(i as usize) {
            let k = choose|k: int| 0 <= k < replaced.len() && replaced[k] == i as usize;
            assert(0 <= rs[k] < prefix);
            assert(replaced[k] == rs[k] as usize);
            assert(rs[k] as usize == rs[k]);
            assert(i as usize == i);
        }
    }
    let splice = !(prefix == old.len() && prefix == new.len());
    let result = apply_splice(old, new, replaced, prefix, suffix, splice);
    if splice {
        assert(result =~= new) by {
            assert forall|i: int| 0 <= i < new.len() implies result[i] == new[i] by {
                if i < prefix {
                } else if i < new.len() - suffix {
                } else {
                    let t = new.len() - 1 - i;
                    assert(tail_equal(old, new, t));
                }
            }
        }
    } else {
        assert(result =~= new);
    }
}

/// The splice plan that turns the shown rows `old` into `new` (see
/// [`lemma_splice_gives_new_rows`]).
pub fn row_splice(old: &[FolderRowData], new: &[FolderRowData]) -> (plan: RowSplice)
    ensures
        ({
            let (prefix, replaced) = prefix_scan(rows_view(old@), rows_view(new@), 0);
            &&& plan.prefix == prefix
            &&& plan.replaced@ == replaced.map_values(|i: int| i as usize)
            &&& plan.suffix == suffix_scan(rows_view(old@), rows_view(new@), prefix, 0)
            &&& plan.splice == !(prefix == old@.len() && prefix == new@.len())
        }),
{
    let ghost ov = rows_view(old@);
    let ghost nv = rows_view(new@);
    let mut replaced: Vec<usize> = Vec::new();
    let ghost mut taken: Seq<int> = Seq::empty();
    let mut p: usize = 0;
    while p < old.len() && p < new.len()
        invariant_except_break
            0 <= p <= old@.len(),
            p <= new@.len(),
            ov == rows_view(old@),
            nv == rows_view(new@),
            prefix_scan(ov, nv, 0) == (prefix_scan(ov, nv, p as int).0, taken + prefix_scan(ov, nv, p as int).1),
            replaced@ == taken.map_values(|i: int| i as usize),
        ensures
            0 <= p <= old@.len(),
            p <= new@.len(),
            prefix_scan(ov, nv, 0) == (p as int, taken),
            replaced@ == taken.map_values(|i: int| i as usize),
        decreases old@.len() - p,
    {
        assert(ov[p as int] == old@[p as int].view());
        assert(nv[p as int] == new@[p as int].view());
        if folder_virtual_row_matches(&old[p], &new[p]) {
            p += 1;
            continue;
        }
        let o = &old[p];
        let n = &new[p];
        if o.kind == FolderRowKind::Header && n.kind == FolderRowKind::Header && o.folder_id == n.folder_id
            && crate::text::same_chars(
            &crate::text::chars_of(o.folder_path.as_str()),
            &crate::text::chars_of(n.folder_path.as_str()),
        ) && o.start == n.start && o.end == n.end {
            proof {
                let (q, rs) = prefix_scan(ov, nv, p + 1);
                assert(taken + (seq![p as int] + rs) =~= taken.push(p as int) + rs);
                taken = taken.push(p as int);
            }
            let ghost before = replaced@;
            replaced.push(p);
            assert(replaced@ =~= taken.map_values(|i: int| i as usize));
            p += 1;
            continue;
        }
        assert(taken + Seq::<int>::empty() =~= taken);
        break;
    }
    let mut s: usize = 0;
    while s < old.len() - p && s < new.len() - p
        invariant_except_break
            0 <= p <= old@.len(),
            p <= new@.len(),
            0 <= s <= old@.len() - p,
            s <= new@.len() - p,
            ov == rows_view(old@),
            nv == rows_view(new@),
            suffix_scan(ov, nv, p as int, 0) == suffix_scan(ov, nv, p as int, s as int),
        ensures
            suffix_scan(ov, nv, p as int, 0) == s,
        decreases old@.len() - p - s,
    {
        let a = old.len() - 1 - s;
        let b = new.len() - 1 - s;
        assert(ov[a as int] == old@[a as int].view());
        assert(nv[b as int] == new@[b as int].view());
        if !folder_virtual_row_matches(&old[a], &new[b]) {
            break;
        }
        s += 1;
    }
    let splice = !(p == old.len() && p == new.len());
    RowSplice { replaced, prefix: p, suffix: s, splice }
}

/// What the folder rows need of each photo: its id and its folder's path
/// (empty when unknown).
pub open spec fn photo_ids_of(photos: Seq<(i64, String)>) -> Seq<i64> {
    photos.map_values(|p: (i64, String)| p.0)
}

/// The header row of a range.
pub open spec fn header_row(range: crate::grouping::GroupRange, photos: Seq<(i64, String)>) -> RowDataView {
    RowDataView {
        kind: FolderRowKind::Header,
        folder_id: range.folder_id,
        folder_path: if range.start < photos.len() { photos[range.start as int].1@ } else { Seq::empty() },
        label: range.label@,
        count: if range.end >= range.start { (range.end - range.start) as usize } else { 0 },
        start: range.start,
        end: range.start,
        photo_ids: Seq::empty(),
    }
}

/// The photo-line rows of `[start, end)` of a folder, `size` photos each,
/// each with the ids of its photos (none when the line runs past them).
pub open spec fn line_rows(folder_id: i64, start: int, end: int, size: int, ids: Seq<i64>) -> Seq<RowDataView>
    decreases end - start,
    when size >= 1
{
    if start >= end {
        Seq::empty()
    } else {
        let stop = if start + size < end { start + size } else { end };
        seq![
            RowDataView {
                kind: FolderRowKind::Photos,
                folder_id,
                folder_path: Seq::empty(),
                label: Seq::empty(),
                count: 0,
                start: start as usize,
                end: stop as usize,
                photo_ids: if stop <= ids.len() { ids.subrange(start, stop) } else { Seq::empty() },
            },
        ] + line_rows(folder_id, stop, end, size, ids)
    }
}

/// The rows of the folder list for the sections `plan`: each section's
/// header, then its photo lines.
pub open spec fn plan_rows(
    plan: Seq<FolderSectionPlan>,
    ranges: Seq<crate::grouping::GroupRange>,
    photos: Seq<(i64, String)>,
    size: int,
) -> Seq<RowDataView>
    decreases plan.len(),
{
    if plan.len() == 0 {
        Seq::empty()
    } else {
        let rest = plan_rows(plan.drop_last(), ranges, photos, size);
        match plan.last().range_index {
            Some(i) => {
                let r = ranges[i as int];
                rest + seq![header_row(r, photos)] + line_rows(r.folder_id, r.start as int, r.end as int, size, photo_ids_of(photos))
            },
            None => rest,
        }
    }
}

fn string_copy(s: &String) -> (c: String)
    ensures
        c@ == s@,
{
    s.clone()
}

/// The rows of the folder list: sections in [`spec_section_plan`] order,
/// each a header and lines of `line_size` photos (at least one).
pub fn build_folder_rows(
    ranges: &[crate::grouping::GroupRange],
    photos: &[(i64, String)],
    line_size: usize,
    catalog: &[FolderCatalogEntry],
    folder_order: &[i64],
) -> (rows: Vec<FolderRowData>)
    requires
        forall|i: int|
            0 <= i < ranges@.len() ==> lines_fit(
                (#[trigger] ranges@[i]).start as int,
                ranges@[i].end as int,
                if line_size < 1 { 1 } else { line_size as int },
            ),
    ensures
        rows_view(rows@) == plan_rows(
            spec_section_plan(ranges@, catalog@, folder_order@),
            ranges@,
            photos@,
            if line_size < 1 { 1 } else { line_size as int },
        ),
{
    let size: usize = if line_size < 1 { 1 } else { line_size };
    let plan = folder_section_plan(ranges, catalog, folder_order);
    let n = ranges.len();
    assert(ranges@.len() == n);
    proof {
        lemma_section_plan_shows_every_range_once(ranges@, catalog@, folder_order@);
    }
    let ghost ids = photo_ids_of(photos@);
    let mut rows: Vec<FolderRowData> = Vec::new();
    let mut k: usize = 0;
    while k < plan.len()
        invariant
            0 <= k <= plan@.len(),
            size >= 1,
            size == if line_size < 1 { 1 } else { line_size as int },
            plan@ == spec_section_plan(ranges@, catalog@, folder_order@),
            ids == photo_ids_of(photos@),
            forall|j: int|
                0 <= j < plan@.len() ==> ((#[trigger] plan@[j]).range_index matches Some(i) && i < ranges@.len()),
            forall|i: int|
                0 <= i < ranges@.len() ==> lines_fit((#[trigger] ranges@[i]).start as int, ranges@[i].end as int, size as int),
            rows_view(rows@) == plan_rows(plan@.take(k as int), ranges@, photos@, size as int),
        decreases plan@.len() - k,
    {
        assert(plan@.take(k + 1).drop_last() =~= plan@.take(k as int));
        assert(plan@.take(k + 1).last() == plan@[k as int]);
        let index = match plan[k].range_index {
            Some(i) => i,
            None => {
                k += 1;
                continue;
            },
        };
        assert(plan@[k as int].range_index == Some(index));
        let range = &ranges[index];
        let path = if range.start < photos.len() { string_copy(&photos[range.start].1) } else { String::new() };
        let count = if range.end >= range.start { range.end - range.start } else { 0 };
        let header = FolderRowData {
            kind: FolderRowKind::Header,
            folder_id: range.folder_id,
            folder_path: path,
            label: string_copy(&range.label),
            count,
            start: range.start,
            end: range.start,
            photo_ids: Vec::new(),
        };
        assert(header.view() == header_row(*range, photos@));
        let ghost before = rows_view(rows@);
        rows.push(header);
        assert(rows_view(rows@) =~= before.push(header.view()));
        let ghost base = rows_view(rows@);
        let mut start = range.start;
        assert(lines_fit(range.start as int, range.end as int, size as int));
        while start < range.end
            invariant
                size >= 1,
                range.start <= start,
                lines_fit(start as int, range.end as int, size as int),
                ids == photo_ids_of(photos@),
                rows_view(rows@) + line_rows(range.folder_id, start as int, range.end as int, size as int, ids)
                    == base + line_rows(range.folder_id, range.start as int, range.end as int, size as int, ids),
            decreases range.end - start,
        {
            proof {
                lemma_lines_step(start as int, range.end as int, size as int);
            }
            let stop = if range.end - start > size { start + size } else { range.end };
            let mut line_ids: Vec<i64> = Vec::new();
            if stop <= photos.len() {
                let mut j: usize = start;
                while j < stop
                    invariant
                        start <= j <= stop <= photos@.len(),
                        ids == photo_ids_of(photos@),
                        line_ids@ == ids.subrange(start as int, j as int),
                    decreases stop - j,
                {
                    line_ids.push(photos[j].0);
                    assert(line_ids@ =~= ids.subrange(start as int, j + 1));
                    j += 1;
                }
            }
            let row = FolderRowData {
                kind: FolderRowKind::Photos,
                folder_id: range.folder_id,
                folder_path: String::new(),
                label: String::new(),
                count: 0,
                start,
                end: stop,
                photo_ids: line_ids,
            };
            let ghost before = rows_view(rows@);
            rows.push(row);
            proof {
                let tail = line_rows(range.folder_id, stop as int, range.end as int, size as int, ids);
                assert(line_rows(range.folder_id, start as int, range.end as int, size as int, ids) =~= seq![row.view()]
                    + tail);
                assert(rows_view(rows@) =~= before.push(row.view()));
                assert(rows_view(rows@) + tail =~= before + (seq![row.view()] + tail));
            }
            start = stop;
        }
        proof {
            assert(line_rows(range.folder_id, start as int, range.end as int, size as int, ids) =~= Seq::<RowDataView>::empty());
            assert(rows_view(rows@) =~= rows_view(rows@) + Seq::<RowDataView>::empty());
        }
        k += 1;
    }
    assert(plan@.take(plan@.len() as int) =~= plan@);
    rows
}

} // verus!
