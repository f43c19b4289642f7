//! Updates of the grid's photo list and its selection: replacing it (unchanged, reordered in
//! place, or rebuilt, at once or in batches), removing photos (with the
//! positions the list model drops and the photo selected afterwards) and
//! finding the photos whose folder changed availability.
use vstd::prelude::*;

use crate::text::{chars_of, same_chars};

verus! {

/// Whether `id` is one of `ids`.
pub open spec fn listed(ids: Seq<i64>, id: i64) -> bool {
    exists|k: int| 0 <= k < ids.len() && ids[k] == id
}

/// The positions, ascending, of the photos whose id is listed.
pub open spec fn removed_positions(photos: Seq<i64>, ids: Seq<i64>) -> Seq<int>
    decreases photos.len(),
{
    if photos.len() == 0 {
        Seq::empty()
    } else {
        let rest = removed_positions(photos.drop_last(), ids);
        if listed(ids, photos.last()) {
            rest.push(photos.len() - 1)
        } else {
            rest
        }
    }
}

/// The photos whose id is not listed, in their order.
pub open spec fn kept_photos(photos: Seq<i64>, ids: Seq<i64>) -> Seq<i64>
    decreases photos.len(),
{
    if photos.len() == 0 {
        Seq::empty()
    } else {
        let rest = kept_photos(photos.drop_last(), ids);
        if listed(ids, photos.last()) {
            rest
        } else {
            rest.push(photos.last())
        }
    }
}

/// The list after removing the entries at `positions`, the last position
/// first.
pub open spec fn removed_from_the_end(s: Seq<i64>, positions: Seq<int>) -> Seq<i64>
    decreases positions.len(),
{
    if positions.len() == 0 {
        s
    } else {
        removed_from_the_end(s.remove(positions.last()), positions.drop_last())
    }
}

/// Strictly ascending positions below `n`.
pub open spec fn ascending_below(positions: Seq<int>, n: int) -> bool {
    &&& forall|a: int, b: int| 0 <= a < b < positions.len() ==> positions[a] < positions[b]
    &&& forall|a: int| 0 <= a < positions.len() ==> 0 <= #[trigger] positions[a] < n
}

proof fn lemma_removed_positions_ascending(photos: Seq<i64>, ids: Seq<i64>)
    ensures
        ascending_below(removed_positions(photos, ids), photos.len() as int),
        removed_positions(photos, ids).len() + kept_photos(photos, ids).len() == photos.len(),
    decreases photos.len(),
{
    if photos.len() > 0 {
        lemma_removed_positions_ascending(photos.drop_last(), ids);
    }
}

proof fn lemma_remove_before_push(s: Seq<i64>, x: i64, positions: Seq<int>)
    requires
        ascending_below(positions, s.len() as int),
    ensures
        removed_from_the_end(s.push(x), positions) == removed_from_the_end(s, positions).push(x),
    decreases positions.len(),
{
    if positions.len() > 0 {
        let j = positions.last();
        assert(s.push(x).remove(j) =~= s.remove(j).push(x));
        let rest = positions.drop_last();
        assert(ascending_below(rest, s.len() - 1)) by {
            assert forall|a: int| 0 <= a < rest.len() implies 0 <= #[trigger] rest[a] < s.len() - 1 by {
                assert(positions[a] < positions[positions.len() - 1]);
            }
        }
        lemma_remove_before_push(s.remove(j), x, rest);
    }
}

/// Removing the listed photos' positions from the list model, the last
/// position first, leaves exactly the photos the list keeps: the model and
/// the photo list stay in step.
pub proof fn lemma_removal_keeps_model_in_step(photos: Seq<i64>, ids: Seq<i64>)
    ensures
        removed_from_the_end(photos, removed_positions(photos, ids)) == kept_photos(photos, ids),
    decreases photos.len(),
{
    if photos.len() > 0 {
        let front = photos.drop_last();
        let x = photos.last();
        lemma_removal_keeps_model_in_step(front, ids);
        assert(front.push(x) =~= photos);
        let rest = removed_positions(front, ids);
        if listed(ids, x) {
            assert(photos.remove(photos.len() - 1) =~= front);
            assert(rest.push(photos.len() - 1).drop_last() =~= rest);
            assert(removed_from_the_end(photos, rest.push(photos.len() - 1)) == removed_from_the_end(
                photos.remove(photos.len() - 1),
                rest,
            ));
        } else {
            lemma_removed_positions_ascending(front, ids);
            lemma_remove_before_push(front, x, removed_positions(front, ids));
        }
    }
}

/// What removing photos does to the grid.
pub struct PhotoRemoval {
    /// The positions the list model drops, ascending.
    pub positions: Vec<usize>,
    /// The ids of the photos that stay, in order.
    pub kept: Vec<i64>,
    /// The position selected afterwards: where the first removed photo
    /// was, or the last photo when that is past the end; none when no
    /// photo is left.
    pub select: Option<usize>,
}

/// The position selected after a removal.
pub open spec fn spec_selection_after(first_removed: int, kept_len: int) -> Option<int> {
    if kept_len == 0 {
        None
    } else if first_removed < kept_len - 1 {
        Some(first_removed)
    } else {
        Some(kept_len - 1)
    }
}

fn is_listed(ids: &[i64], id: i64) -> (b: bool)
    ensures
        b == listed(ids@, id),
{
    let mut k: usize = 0;
    while k < ids.len()
        invariant
            0 <= k <= ids@.len(),
            forall|j: int| 0 <= j < k ==> ids@[j] != id,
        decreases ids@.len() - k,
    {
        if ids[k] == id {
            return true;
        }
        k += 1;
    }
    false
}

/// Plans the removal of the photos whose id is in `ids` from a grid listing
/// `photo_ids`: `None` when none of them is listed (nothing changes).
pub fn plan_photo_removal(photo_ids: &[i64], ids: &[i64]) -> (plan: Option<PhotoRemoval>)
    ensures
        plan is None <==> removed_positions(photo_ids@, ids@).len() == 0,
        plan matches Some(p) ==> {
            &&& p.positions@.map_values(|i: usize| i as int) == removed_positions(photo_ids@, ids@)
            &&& p.kept@ == kept_photos(photo_ids@, ids@)
            &&& p.select == match spec_selection_after(
                removed_positions(photo_ids@, ids@)[0],
                kept_photos(photo_ids@, ids@).len() as int,
            ) {
                Some(i) => Some(i as usize),
                None => None::<usize>,
            }
        },
{
    let mut positions: Vec<usize> = Vec::new();
    let mut kept: Vec<i64> = Vec::new();
    let mut i: usize = 0;
    while i < photo_ids.len()
        invariant
            0 <= i <= photo_ids@.len(),
            positions@.map_values(|p: usize| p as int) == removed_positions(photo_ids@.take(i as int), ids@),
            kept@ == kept_photos(photo_ids@.take(i as int), ids@),
        decreases photo_ids@.len() - i,
    {
        assert(photo_ids@.take(i + 1).drop_last() =~= photo_ids@.take(i as int));
        if is_listed(ids, photo_ids[i]) {
            let ghost before = positions@.map_values(|p: usize| p as int);
            positions.push(i);
            assert(positions@.map_values(|p: usize| p as int) =~= before.push(i as int));
        } else {
            kept.push(photo_ids[i]);
        }
        i += 1;
    }
    assert(photo_ids@.take(photo_ids@.len() as int) =~= photo_ids@);
    if positions.len() == 0 {
        return None;
    }
    proof {
        lemma_removed_positions_ascending(photo_ids@, ids@);
        assert(positions@.map_values(|p: usize| p as int)[0] == positions@[0] as int);
    }
    let first = positions[0];
    let select = if kept.len() == 0 {
        None
    } else if first < kept.len() - 1 {
        Some(first)
    } else {
        Some(kept.len() - 1)
    };
    Some(PhotoRemoval { positions, kept, select })
}

/// The availability a folder gets from a batch of updates: that of its last
/// update, none when it has none.
pub open spec fn update_for(updates: Seq<(i64, bool)>, folder: i64) -> Option<bool>
    decreases updates.len(),
{
    if updates.len() == 0 {
        None
    } else if updates.last().0 == folder {
        Some(updates.last().1)
    } else {
        update_for(updates.drop_last(), folder)
    }
}

/// Whether a photo (its folder and whether its original is available)
/// changes under the updates.
pub open spec fn changes(updates: Seq<(i64, bool)>, photo: (i64, bool)) -> bool {
    update_for(updates, photo.0) matches Some(a) && a != photo.1
}

/// The positions, ascending, of the photos that change.
pub open spec fn changed_positions(photos: Seq<(i64, bool)>, updates: Seq<(i64, bool)>) -> Seq<int>
    decreases photos.len(),
{
    if photos.len() == 0 {
        Seq::empty()
    } else {
        let rest = changed_positions(photos.drop_last(), updates);
        if changes(updates, photos.last()) {
            rest.push(photos.len() - 1)
        } else {
            rest
        }
    }
}

fn update_lookup(updates: &[(i64, bool)], folder: i64) -> (found: Option<bool>)
    ensures
        found == update_for(updates@, folder),
{
    let mut k: usize = updates.len();
    assert(updates@.take(updates@.len() as int) =~= updates@);
    while k > 0
        invariant
            k <= updates@.len(),
            update_for(updates@, folder) == update_for(updates@.take(k as int), folder),
        decreases k,
    {
        assert(updates@.take(k as int).drop_last() =~= updates@.take(k - 1));
        if updates[k - 1].0 == folder {
            return Some(updates[k - 1].1);
        }
        k -= 1;
    }
    None
}

/// The photos (by folder and availability) whose badge a batch of folder
/// availability updates changes: those whose folder was updated, the last
/// update winning, to a value other than the photo's.
pub fn availability_changes(photos: &[(i64, bool)], updates: &[(i64, bool)]) -> (positions: Vec<usize>)
    ensures
        positions@.map_values(|i: usize| i as int) == changed_positions(photos@, updates@),
{
    let mut positions: Vec<usize> = Vec::new();
    let mut i: usize = 0;
    proof {
        assert(updates@.take(updates@.len() as int) =~= updates@);
    }
    while i < photos.len()
        invariant
            0 <= i <= photos@.len(),
            positions@.map_values(|p: usize| p as int) == changed_positions(photos@.take(i as int), updates@),
        decreases photos@.len() - i,
    {
        assert(photos@.take(i + 1).drop_last() =~= photos@.take(i as int));
        let changed = match update_lookup(updates, photos[i].0) {
            Some(a) => a != photos[i].1,
            None => false,
        };
        if changed {
            let ghost before = positions@.map_values(|p: usize| p as int);
            positions.push(i);
            assert(positions@.map_values(|p: usize| p as int) =~= before.push(i as int));
        }
        i += 1;
    }
    assert(photos@.take(photos@.len() as int) =~= photos@);
    positions
}

/// How many photos one repaint step updates.
pub const AVAILABILITY_BATCH: usize = 128;

/// The end of the repaint step that starts at `offset` among `total`
/// photos.
pub fn availability_batch_end(offset: usize, total: usize) -> (end: usize)
    requires
        offset <= total,
    ensures
        end == if offset + AVAILABILITY_BATCH < total { offset + AVAILABILITY_BATCH } else { total as int },
{
    if total - offset > AVAILABILITY_BATCH {
        offset + AVAILABILITY_BATCH
    } else {
        total
    }
}


/// What the grid compares of a listed photo when its list is replaced.
#[derive(Debug)]
pub struct PhotoRecord {
    pub id: i64,
    pub history_caption: Option<String>,
    pub edited_at: i64,
    pub edit_recipe: String,
    pub path: String,
    pub mtime: i64,
    pub size_bytes: i64,
}

/// The plain view of a [`PhotoRecord`].
pub struct RecordView {
    pub id: i64,
    pub history_caption: Option<Seq<char>>,
    pub edited_at: i64,
    pub edit_recipe: Seq<char>,
    pub path: Seq<char>,
    pub mtime: i64,
    pub size_bytes: i64,
}

impl PhotoRecord {
    pub open spec fn view(&self) -> RecordView {
        RecordView {
            id: self.id,
            history_caption: match self.history_caption {
                Some(c) => Some(c@),
                None => None,
            },
            edited_at: self.edited_at,
            edit_recipe: self.edit_recipe@,
            path: self.path@,
            mtime: self.mtime,
            size_bytes: self.size_bytes,
        }
    }
}

/// The plain views of a list of records.
pub open spec fn records_view(s: Seq<PhotoRecord>) -> Seq<RecordView> {
    s.map_values(|r: PhotoRecord| r.view())
}

/// The ids of a list of records.
pub open spec fn record_ids(s: Seq<PhotoRecord>) -> Seq<i64> {
    s.map_values(|r: PhotoRecord| r.id)
}

fn same_text(a: &String, b: &String) -> (same: bool)
    ensures
        same == (a@ == b@),
{
    same_chars(&chars_of(a.as_str()), &chars_of(b.as_str()))
}

fn same_record(a: &PhotoRecord, b: &PhotoRecord) -> (same: bool)
    ensures
        same == (a.view() == b.view()),
{
    let captions = match (&a.history_caption, &b.history_caption) {
        (Some(x), Some(y)) => same_text(x, y),
        (None, None) => true,
        _ => false,
    };
    a.id == b.id && captions && a.edited_at == b.edited_at && same_text(&a.edit_recipe, &b.edit_recipe)
        && same_text(&a.path, &b.path) && a.mtime == b.mtime && a.size_bytes == b.size_bytes
}

/// The last position of `id` in `ids`.
pub open spec fn last_index_of(ids: Seq<i64>, id: i64) -> Option<int>
    decreases ids.len(),
{
    if ids.len() == 0 {
        None
    } else if ids.last() == id {
        Some(ids.len() - 1)
    } else {
        last_index_of(ids.drop_last(), id)
    }
}

/// How a list reorders into another: for each new photo, in order, whose id
/// has not come earlier in the new list, the pair of the position of the
/// existing photo object with that id (the last one with it) and the new
/// position; new photos with no existing object are left out.
pub open spec fn reorder_pairs(current: Seq<i64>, new: Seq<i64>) -> Seq<(int, int)>
    decreases new.len(),
{
    if new.len() == 0 {
        Seq::empty()
    } else {
        let rest = reorder_pairs(current, new.drop_last());
        let id = new.last();
        if listed(new.drop_last(), id) {
            rest
        } else {
            match last_index_of(current, id) {
                Some(c) => rest.push((c, new.len() - 1)),
                None => rest,
            }
        }
    }
}

/// How the grid takes a new photo list.
#[derive(Debug, PartialEq, Eq)]
pub enum ReplaceKind {
    /// The same photos with the same details in the same order: nothing
    /// changes.
    Unchanged,
    /// The same set of photos in another order: the existing objects are
    /// moved, each `(existing position, new position)`.
    Reorder(Vec<(usize, usize)>),
    /// A long list: built in batches between frames.
    Progressive,
    /// Built at once.
    Rebuild,
}

/// The plain view of a [`ReplaceKind`].
pub enum ReplaceKindView {
    Unchanged,
    Reorder(Seq<(int, int)>),
    Progressive,
    Rebuild,
}

impl ReplaceKind {
    pub open spec fn view(&self) -> ReplaceKindView {
        match self {
            ReplaceKind::Unchanged => ReplaceKindView::Unchanged,
            ReplaceKind::Reorder(p) => ReplaceKindView::Reorder(
                p@.map_values(|q: (usize, usize)| (q.0 as int, q.1 as int)),
            ),
            ReplaceKind::Progressive => ReplaceKindView::Progressive,
            ReplaceKind::Rebuild => ReplaceKindView::Rebuild,
        }
    }
}

/// Lists longer than this are built in batches.
pub const PROGRESSIVE_REPLACE_THRESHOLD: usize = 1000;

/// How many photos one batch of a progressive build adds.
pub const PROGRESSIVE_BATCH_SIZE: usize = 2000;

/// Whether two lists hold the same number of photos, at least one, and
/// every new id is among the existing ones.
pub open spec fn same_photo_set(current: Seq<i64>, new: Seq<i64>) -> bool {
    &&& current.len() == new.len()
    &&& current.len() > 0
    &&& forall|j: int| 0 <= j < new.len() ==> listed(current, #[trigger] new[j])
}

/// How the grid takes `new` in place of `current`: unchanged when every
/// record is the same; reordered when the ids are the same set; in
/// batches past [`PROGRESSIVE_REPLACE_THRESHOLD`] photos; else at once.
pub open spec fn spec_replace_kind(current: Seq<PhotoRecord>, new: Seq<PhotoRecord>) -> ReplaceKindView {
    if records_view(current) == records_view(new) {
        ReplaceKindView::Unchanged
    } else if same_photo_set(record_ids(current), record_ids(new)) {
        ReplaceKindView::Reorder(reorder_pairs(record_ids(current), record_ids(new)))
    } else if new.len() > PROGRESSIVE_REPLACE_THRESHOLD {
        ReplaceKindView::Progressive
    } else {
        ReplaceKindView::Rebuild
    }
}

fn records_equal(current: &[PhotoRecord], new: &[PhotoRecord]) -> (same: bool)
    ensures
        same == (records_view(current@) == records_view(new@)),
{
    if current.len() != new.len() {
        assert(records_view(current@).len() != records_view(new@).len());
        return false;
    }
    let mut i: usize = 0;
    while i < current.len()
        invariant
            0 <= i <= current@.len(),
            current@.len() == new@.len(),
            forall|k: int| 0 <= k < i ==> current@[k].view() == new@[k].view(),
        decreases current@.len() - i,
    {
        if !same_record(&current[i], &new[i]) {
            assert(records_view(current@)[i as int] != records_view(new@)[i as int]);
            return false;
        }
        i += 1;
    }
    assert(records_view(current@) =~= records_view(new@));
    true
}

fn id_listed(records: &[PhotoRecord], upto: usize, id: i64) -> (b: bool)
    requires
        upto <= records@.len(),
    ensures
        b == listed(record_ids(records@).take(upto as int), id),
{
    let mut k: usize = 0;
    while k < upto
        invariant
            0 <= k <= upto <= records@.len(),
            forall|j: int| 0 <= j < k ==> records@[j].id != id,
        decreases upto - k,
    {
        if records[k].id == id {
            assert(record_ids(records@).take(upto as int)[k as int] == id);
            return true;
        }
        k += 1;
    }
    assert forall|j: int| 0 <= j < upto implies record_ids(records@).take(upto as int)[j] != id by {
        assert(record_ids(records@).take(upto as int)[j] == records@[j].id);
    }
    false
}

fn last_index(records: &[PhotoRecord], id: i64) -> (found: Option<usize>)
    ensures
        match found {
            Some(c) => last_index_of(record_ids(records@), id) == Some(c as int),
            None => last_index_of(record_ids(records@), id) is None,
        },
{
    let ghost ids = record_ids(records@);
    let mut k: usize = records.len();
    assert(ids.take(ids.len() as int) =~= ids);
    while k > 0
        invariant
            k <= records@.len(),
            ids == record_ids(records@),
            last_index_of(ids, id) == last_index_of(ids.take(k as int), id),
        decreases k,
    {
        assert(ids.take(k as int).drop_last() =~= ids.take(k - 1));
        if records[k - 1].id == id {
            return Some(k - 1);
        }
        k -= 1;
    }
    None
}

fn same_set(current: &[PhotoRecord], new: &[PhotoRecord]) -> (b: bool)
    ensures
        b == same_photo_set(record_ids(current@), record_ids(new@)),
{
    if current.len() != new.len() || current.len() == 0 {
        return false;
    }
    let mut j: usize = 0;
    while j < new.len()
        invariant
            0 <= j <= new@.len(),
            current@.len() == new@.len(),
            forall|k: int| 0 <= k < j ==> listed(record_ids(current@), #[trigger] record_ids(new@)[k]),
        decreases new@.len() - j,
    {
        assert(record_ids(current@).take(current@.len() as int) =~= record_ids(current@));
        if !id_listed(current, current.len(), new[j].id) {
            assert(record_ids(new@)[j as int] == new@[j as int].id);
            return false;
        }
        j += 1;
    }
    true
}

/// How the grid takes a new photo list (see [`spec_replace_kind`]).
pub fn replace_kind(current: &[PhotoRecord], new: &[PhotoRecord]) -> (kind: ReplaceKind)
    ensures
        kind@ == spec_replace_kind(current@, new@),
{
    if records_equal(current, new) {
        return ReplaceKind::Unchanged;
    }
    if same_set(current, new) {
        let mut pairs: Vec<(usize, usize)> = Vec::new();
        let ghost cur = record_ids(current@);
        let ghost nw = record_ids(new@);
        let mut j: usize = 0;
        while j < new.len()
            invariant
                0 <= j <= new@.len(),
                cur == record_ids(current@),
                nw == record_ids(new@),
                pairs@.map_values(|q: (usize, usize)| (q.0 as int, q.1 as int)) == reorder_pairs(
                    cur,
                    nw.take(j as int),
                ),
            decreases new@.len() - j,
        {
            assert(nw.take(j + 1).drop_last() =~= nw.take(j as int));
            assert(nw.take(j + 1).last() == new@[j as int].id);
            assert(nw.take(j as int) =~= record_ids(new@).take(j as int));
            if !id_listed(new, j, new[j].id) {
                match last_index(current, new[j].id) {
                    Some(c) => {
                        let ghost before = pairs@.map_values(|q: (usize, usize)| (q.0 as int, q.1 as int));
                        pairs.push((c, j));
                        assert(pairs@.map_values(|q: (usize, usize)| (q.0 as int, q.1 as int)) =~= before.push(
                            (c as int, j as int),
                        ));
                    },
                    None => {},
                }
            }
            j += 1;
        }
        assert(nw.take(nw.len() as int) =~= nw);
        return ReplaceKind::Reorder(pairs);
    }
    if new.len() > PROGRESSIVE_REPLACE_THRESHOLD {
        ReplaceKind::Progressive
    } else {
        ReplaceKind::Rebuild
    }
}

/// The end of the progressive batch that starts at `offset` of `total`
/// photos; the first batch replaces the list, later ones append to it.
pub fn progressive_batch_end(offset: usize, total: usize) -> (end: usize)
    requires
        offset <= total,
    ensures
        end == if offset + PROGRESSIVE_BATCH_SIZE < total { offset + PROGRESSIVE_BATCH_SIZE } else { total as int },
{
    if total - offset > PROGRESSIVE_BATCH_SIZE {
        offset + PROGRESSIVE_BATCH_SIZE
    } else {
        total
    }
}


proof fn lemma_last_index_of(ids: Seq<i64>, id: i64)
    ensures
        last_index_of(ids, id) matches Some(c) ==> 0 <= c < ids.len() && ids[c] == id,
        last_index_of(ids, id) is None <==> !listed(ids, id),
    decreases ids.len(),
{
    if ids.len() > 0 {
        lemma_last_index_of(ids.drop_last(), id);
        if ids.last() != id && listed(ids, id) {
            let k = choose|k: int| 0 <= k < ids.len() && ids[k] == id;
            assert(ids.drop_last()[k] == id);
        }
        if listed(ids.drop_last(), id) {
            let k = choose|k: int| 0 <= k < ids.drop_last().len() && ids.drop_last()[k] == id;
            assert(ids[k] == id);
        }
    }
}

/// Whether no id occurs twice.
pub open spec fn distinct_ids(ids: Seq<i64>) -> bool {
    forall|a: int, b: int| 0 <= a < b < ids.len() ==> ids[a] != ids[b]
}

/// A reorder moves existing objects to new photos with the same id, each
/// object at most once, in the new list's order; when the new ids are
/// distinct and all exist, every new photo gets its existing object, so
/// with lists of equal length every object is reused exactly once.
pub proof fn lemma_reorder_reuses_each_object_once(current: Seq<i64>, new: Seq<i64>)
    ensures
        forall|k: int|
            0 <= k < reorder_pairs(current, new).len() ==> {
                let (c, n) = #[trigger] reorder_pairs(current, new)[k];
                &&& 0 <= c < current.len()
                &&& 0 <= n < new.len()
                &&& current[c] == new[n]
            },
        forall|a: int, b: int|
            0 <= a < b < reorder_pairs(current, new).len() ==> {
                &&& (#[trigger] reorder_pairs(current, new)[a]).1 < (#[trigger] reorder_pairs(current, new)[b]).1
                &&& reorder_pairs(current, new)[a].0 != reorder_pairs(current, new)[b].0
            },
        distinct_ids(new) && (forall|j: int| 0 <= j < new.len() ==> listed(current, #[trigger] new[j]))
            ==> reorder_pairs(current, new).len() == new.len(),
    decreases new.len(),
{
    if new.len() > 0 {
        let front = new.drop_last();
        let id = new.last();
        let rest = reorder_pairs(current, front);
        lemma_reorder_reuses_each_object_once(current, front);
        lemma_last_index_of(current, id);
        assert forall|k: int| 0 <= k < rest.len() implies (#[trigger] rest[k]).1 < front.len() && new[rest[k].1]
            == front[rest[k].1] by {}
        if distinct_ids(new) && (forall|j: int| 0 <= j < new.len() ==> listed(current, #[trigger] new[j])) {
            assert(distinct_ids(front));
            assert forall|j: int| 0 <= j < front.len() implies listed(current, #[trigger] front[j]) by {
                assert(front[j] == new[j]);
            }
            assert(listed(current, new[new.len() - 1]));
            if listed(front, id) {
                let k = choose|k: int| 0 <= k < front.len() && front[k] == id;
                assert(new[k] == new[new.len() - 1]);
            }
        }
        if !listed(front, id) {
            if let Some(c) = last_index_of(current, id) {
                let out = rest.push((c, new.len() - 1));
                assert forall|a: int| 0 <= a < rest.len() implies new[(#[trigger] rest[a]).1] != id by {
                    assert(front[rest[a].1] == new[rest[a].1]);
                }
                assert forall|a: int, b: int| 0 <= a < b < out.len() implies {
                    &&& (#[trigger] out[a]).1 < (#[trigger] out[b]).1
                    &&& out[a].0 != out[b].0
                } by {
                    if b == out.len() - 1 {
                        assert(out[a] == rest[a]);
                        assert(current[out[a].0] == new[out[a].1]);
                    } else {
                        assert(out[a] == rest[a] && out[b] == rest[b]);
                    }
                }
            }
        }
    }
}


/// The photos an action applies to: the selected ones, unless a photo the
/// action was invoked on is given and not among them, which then stands
/// alone.
pub fn selected_ids_or_fallback(ids: Vec<i64>, fallback: Option<i64>) -> (out: Vec<i64>)
    ensures
        out@ == match fallback {
            Some(f) => if listed(ids@, f) { ids@ } else { seq![f] },
            None => ids@,
        },
{
    match fallback {
        Some(f) => {
            if is_listed(ids.as_slice(), f) {
                ids
            } else {
                let out = vec![f];
                assert(out@ =~= seq![f]);
                out
            }
        },
        None => ids,
    }
}

/// The ids at selected positions, in the selection's order, skipping
/// positions past the end of the list.
pub open spec fn ids_at(photo_ids: Seq<i64>, positions: Seq<u32>) -> Seq<i64>
    decreases positions.len(),
{
    if positions.len() == 0 {
        Seq::empty()
    } else {
        let rest = ids_at(photo_ids, positions.drop_last());
        let p = positions.last() as int;
        if p < photo_ids.len() {
            rest.push(photo_ids[p])
        } else {
            rest
        }
    }
}

/// The ids of the photos at the selected positions (see [`ids_at`]).
pub fn ids_at_positions(photo_ids: &[i64], positions: &[u32]) -> (ids: Vec<i64>)
    ensures
        ids@ == ids_at(photo_ids@, positions@),
{
    let mut ids: Vec<i64> = Vec::new();
    let mut k: usize = 0;
    while k < positions.len()
        invariant
            0 <= k <= positions@.len(),
            ids@ == ids_at(photo_ids@, positions@.take(k as int)),
        decreases positions@.len() - k,
    {
        assert(positions@.take(k + 1).drop_last() =~= positions@.take(k as int));
        let p = positions[k] as usize;
        if p < photo_ids.len() {
            ids.push(photo_ids[p]);
        }
        k += 1;
    }
    assert(positions@.take(positions@.len() as int) =~= positions@);
    ids
}

/// The positions, ascending, of the photos whose id is wanted: what the
/// selection marks when a set of ids is selected.
pub fn positions_of_ids(photo_ids: &[i64], wanted: &[i64]) -> (positions: Vec<usize>)
    ensures
        positions@.map_values(|i: usize| i as int) == removed_positions(photo_ids@, wanted@),
{
    let mut positions: Vec<usize> = Vec::new();
    let mut i: usize = 0;
    while i < photo_ids.len()
        invariant
            0 <= i <= photo_ids@.len(),
            positions@.map_values(|p: usize| p as int) == removed_positions(photo_ids@.take(i as int), wanted@),
        decreases photo_ids@.len() - i,
    {
        assert(photo_ids@.take(i + 1).drop_last() =~= photo_ids@.take(i as int));
        if is_listed(wanted, photo_ids[i]) {
            let ghost before = positions@.map_values(|p: usize| p as int);
            positions.push(i);
            assert(positions@.map_values(|p: usize| p as int) =~= before.push(i as int));
        }
        i += 1;
    }
    assert(photo_ids@.take(photo_ids@.len() as int) =~= photo_ids@);
    positions
}

/// The first photo, by position, whose folder is in `scope`: where the grid
/// scrolls to show a folder and its subfolders.
pub fn first_position_in(photo_folders: &[i64], scope: &[i64]) -> (found: Option<usize>)
    ensures
        match found {
            Some(p) => p < photo_folders@.len() && listed(scope@, photo_folders@[p as int]) && forall|j: int|
                0 <= j < p ==> !listed(scope@, #[trigger] photo_folders@[j]),
            None => forall|j: int| 0 <= j < photo_folders@.len() ==> !listed(scope@, #[trigger] photo_folders@[j]),
        },
{
    let mut i: usize = 0;
    while i < photo_folders.len()
        invariant
            0 <= i <= photo_folders@.len(),
            forall|j: int| 0 <= j < i ==> !listed(scope@, #[trigger] photo_folders@[j]),
        decreases photo_folders@.len() - i,
    {
        if is_listed(scope, photo_folders[i]) {
            return Some(i);
        }
        i += 1;
    }
    None
}

/// The walk of a Folder stream `new` over the listed photos `current`,
/// through its first `n` photos: how many listed photos it has met, in
/// order, and the runs `(position, count)` of new photos between them;
/// `None` once a listed photo turns up out of its place.
pub open spec fn stream_walk(current: Seq<i64>, new: Seq<i64>, n: int) -> Option<(int, Seq<(usize, usize)>)>
    decreases n,
{
    if n <= 0 {
        Some((0, Seq::empty()))
    } else {
        match stream_walk(current, new, n - 1) {
            None => None,
            Some((c, runs)) => {
                let id = new[n - 1];
                if c < current.len() && current[c] == id {
                    Some((c + 1, runs))
                } else if listed(current, id) {
                    None
                } else if runs.len() > 0 && runs.last().0 + runs.last().1 == n - 1 {
                    Some((c, runs.update(runs.len() - 1, (runs.last().0, (runs.last().1 + 1) as usize))))
                } else {
                    Some((c, runs.push(((n - 1) as usize, 1usize))))
                }
            },
        }
    }
}

proof fn lemma_walk_stays_none(current: Seq<i64>, new: Seq<i64>, a: int, b: int)
    requires
        0 <= a <= b,
        stream_walk(current, new, a) is None,
    ensures
        stream_walk(current, new, b) is None,
    decreases b - a,
{
    if a < b {
        lemma_walk_stays_none(current, new, a, b - 1);
    }
}

/// How a sorted Folder stream `new` adds to the listed photos `current`
/// while keeping them: the runs `(position, count)` of photos to insert,
/// in order, when every listed photo comes back in its order and every
/// other photo is new; `None` when a listed photo is missing, moved or the
/// stream is shorter (a full replacement is needed then). Whether a kept
/// photo's own fields changed is compared by the caller.
pub open spec fn spec_stream_insertions(current: Seq<i64>, new: Seq<i64>) -> Option<Seq<(usize, usize)>> {
    if new.len() < current.len() {
        None
    } else {
        match stream_walk(current, new, new.len() as int) {
            Some((c, runs)) => if c == current.len() {
                Some(runs)
            } else {
                None
            },
            None => None,
        }
    }
}

/// The insertions that take the grid from `current` to the Folder stream
/// `new` (see [`spec_stream_insertions`]).
pub fn stream_insertions(current: &[i64], new: &[i64]) -> (runs: Option<Vec<(usize, usize)>>)
    ensures
        match runs {
            Some(r) => spec_stream_insertions(current@, new@) == Some(r@),
            None => spec_stream_insertions(current@, new@) is None,
        },
{
    if new.len() < current.len() {
        return None;
    }
    let mut c: usize = 0;
    let mut runs: Vec<(usize, usize)> = Vec::new();
    let mut p: usize = 0;
    while p < new.len()
        invariant
            0 <= p <= new@.len(),
            stream_walk(current@, new@, p as int) == Some((c as int, runs@)),
            c <= current@.len(),
            forall|k: int| 0 <= k < runs@.len() ==> #[trigger] runs@[k].0 + runs@[k].1 <= p,
        decreases new@.len() - p,
    {
        let id = new[p];
        if c < current.len() && current[c] == id {
            c += 1;
        } else if is_listed(current, id) {
            proof {
                lemma_walk_stays_none(current@, new@, p + 1, new@.len() as int);
            }
            return None;
        } else {
            let n = runs.len();
            if n > 0 && runs[n - 1].0 + runs[n - 1].1 == p {
                let (start, count) = runs[n - 1];
                runs.set(n - 1, (start, count + 1));
            } else {
                runs.push((p, 1));
            }
        }
        p += 1;
    }
    if c == current.len() {
        Some(runs)
    } else {
        None
    }
}

/// `s` without the runs `(position, count)`, the last run removed first.
pub open spec fn drop_runs(s: Seq<i64>, runs: Seq<(usize, usize)>) -> Seq<i64>
    decreases runs.len(),
{
    if runs.len() == 0 {
        s
    } else {
        let (start, count) = runs.last();
        drop_runs(s.take(start as int) + s.skip(start + count), runs.drop_last())
    }
}

/// Runs that are non-empty, in increasing order without overlap, and end by
/// position `end`.
pub open spec fn runs_in_order(runs: Seq<(usize, usize)>, end: int) -> bool {
    &&& forall|k: int| 0 <= k < runs.len() ==> #[trigger] runs[k].1 >= 1 && runs[k].0 + runs[k].1 <= end
    &&& forall|k: int| 0 <= k < runs.len() - 1 ==> #[trigger] runs[k].0 + runs[k].1 <= runs[k + 1].0
}

proof fn lemma_drop_runs_push(s: Seq<i64>, runs: Seq<(usize, usize)>, x: i64)
    requires
        runs_in_order(runs, s.len() as int),
    ensures
        drop_runs(s.push(x), runs) == drop_runs(s, runs).push(x),
    decreases runs.len(),
{
    if runs.len() > 0 {
        let (start, count) = runs.last();
        let t = s.take(start as int) + s.skip(start + count);
        assert(s.push(x).take(start as int) + s.push(x).skip(start + count) =~= t.push(x));
        let rest = runs.drop_last();
        assert forall|k: int| 0 <= k < rest.len() implies #[trigger] rest[k].1 >= 1 && rest[k].0 + rest[k].1 <= t.len() by {
            assert(rest[k] == runs[k]);
            if k < rest.len() - 1 {
                assert(rest[k + 1] == runs[k + 1]);
            }
            assert(runs[k].0 + runs[k].1 <= runs[rest.len() as int].0) by {
                lemma_runs_before(runs, k, rest.len() as int);
            }
        }
        assert forall|k: int| 0 <= k < rest.len() - 1 implies #[trigger] rest[k].0 + rest[k].1 <= rest[k + 1].0 by {
            assert(rest[k] == runs[k] && rest[k + 1] == runs[k + 1]);
        }
        lemma_drop_runs_push(t, rest, x);
    }
}

proof fn lemma_runs_before(runs: Seq<(usize, usize)>, k: int, m: int)
    requires
        0 <= k < m < runs.len(),
        forall|j: int| 0 <= j < runs.len() ==> #[trigger] runs[j].1 >= 1,
        forall|j: int| 0 <= j < runs.len() - 1 ==> #[trigger] runs[j].0 + runs[j].1 <= runs[j + 1].0,
    ensures
        runs[k].0 + runs[k].1 <= runs[m].0,
    decreases m - k,
{
    if k + 1 < m {
        lemma_runs_before(runs, k + 1, m);
    }
}

#[verifier::rlimit(60)]
proof fn lemma_stream_walk(current: Seq<i64>, new: Seq<i64>, p: int)
    requires
        0 <= p <= new.len(),
        new.len() <= usize::MAX,
        stream_walk(current, new, p) is Some,
    ensures
        ({
            let (c, runs) = stream_walk(current, new, p)->0;
            &&& 0 <= c <= current.len()
            &&& runs_in_order(runs, p)
            &&& drop_runs(new.take(p), runs) == current.take(c)
            &&& forall|k: int, q: int|
                #![trigger runs[k], new[q]]
                0 <= k < runs.len() && runs[k].0 <= q < runs[k].0 + runs[k].1 ==> !listed(current, new[q])
        }),
    decreases p,
{
    if p == 0 {
        assert(new.take(0) =~= current.take(0));
    } else {
        lemma_stream_walk(current, new, p - 1);
        let (c, runs) = stream_walk(current, new, p - 1)->0;
        let id = new[p - 1];
        assert(new.take(p) =~= new.take(p - 1).push(id));
        if c < current.len() && current[c] == id {
            lemma_drop_runs_push(new.take(p - 1), runs, id);
            assert(current.take(c + 1) =~= current.take(c).push(id));
        } else if listed(current, id) {
        } else if runs.len() > 0 && runs.last().0 + runs.last().1 == p - 1 {
            let last = runs.len() - 1;
            let (start, count) = runs.last();
            let runs2 = runs.update(last, (start, (count + 1) as usize));
            assert(runs2.drop_last() =~= runs.drop_last());
            assert(new.take(p).take(start as int) + new.take(p).skip(start + count + 1) =~= new.take(p - 1).take(
                start as int,
            ) + new.take(p - 1).skip(start + count));
            assert forall|k: int| 0 <= k < runs2.len() - 1 implies #[trigger] runs2[k].0 + runs2[k].1
                <= runs2[k + 1].0 by {
                assert(runs2[k] == runs[k]);
            }
            assert forall|k: int, q: int|
                #![trigger runs2[k], new[q]]
                0 <= k < runs2.len() && runs2[k].0 <= q < runs2[k].0 + runs2[k].1 implies !listed(
                current,
                new[q],
            ) by {
                if k == last && q == p - 1 {
                } else {
                    assert(runs[k].0 <= q < runs[k].0 + runs[k].1);
                }
            }
        } else {
            let runs2 = runs.push(((p - 1) as usize, 1usize));
            assert(runs2.drop_last() =~= runs);
            assert(new.take(p).take(p - 1) + new.take(p).skip(p) =~= new.take(p - 1));
            assert forall|k: int| 0 <= k < runs2.len() - 1 implies #[trigger] runs2[k].0 + runs2[k].1
                <= runs2[k + 1].0 by {
                assert(runs2[k] == runs[k]);
                if k + 1 < runs.len() {
                    assert(runs2[k + 1] == runs[k + 1]);
                } else {
                    assert(runs2[k + 1] == ((p - 1) as usize, 1usize));
                }
            }
            assert forall|k: int, q: int|
                #![trigger runs2[k], new[q]]
                0 <= k < runs2.len() && runs2[k].0 <= q < runs2[k].0 + runs2[k].1 implies !listed(
                current,
                new[q],
            ) by {
                if k < runs.len() {
                    assert(runs2[k] == runs[k]);
                } else {
                    assert(runs2[k] == ((p - 1) as usize, 1usize));
                    assert(q == p - 1);
                }
            }
        }
    }
}

/// The insertions found for a Folder stream rebuild it: its runs are in
/// order, inside the stream, hold only photos that are not listed yet, and
/// the stream without them is the listed photos.
pub proof fn lemma_stream_insertions_rebuild(current: Seq<i64>, new: Seq<i64>)
    requires
        new.len() <= usize::MAX,
        spec_stream_insertions(current, new) is Some,
    ensures
        ({
            let runs = spec_stream_insertions(current, new)->0;
            &&& runs_in_order(runs, new.len() as int)
            &&& drop_runs(new, runs) == current
            &&& forall|k: int, q: int|
                #![trigger runs[k], new[q]]
                0 <= k < runs.len() && runs[k].0 <= q < runs[k].0 + runs[k].1 ==> !listed(current, new[q])
        }),
{
    lemma_stream_walk(current, new, new.len() as int);
    assert(new.take(new.len() as int) =~= new);
    assert(current.take(current.len() as int) =~= current);
}

} // verus!
