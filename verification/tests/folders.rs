use pic_library::gallery::stream_insertions;
use pic_library::gallery::{first_position_in, ids_at_positions, positions_of_ids, selected_ids_or_fallback};
use pic_library::gallery::{availability_batch_end, availability_changes, plan_photo_removal};
use pic_library::gallery::{progressive_batch_end, replace_kind, PhotoRecord, ReplaceKind};
use pic_library::folders::{
    build_folder_rows, folder_chunk_size, folder_navigation_scope, folder_section_plan,
    folder_virtual_row_matches, folder_virtual_rows, row_splice, FolderCatalogEntry, FolderRowData,
    FolderRowKind, FolderSectionPlan, FolderVirtualRow,
};
use pic_library::grouping::GroupRange;

fn range(start: usize, end: usize, label: &str, folder_id: i64) -> GroupRange {
    GroupRange { start, end, label: label.to_string(), folder_id }
}

#[test]
fn navigation_scope_covers_every_descendant_once() {
    let relationships = vec![
        (1, None),
        (2, Some(1)),
        (3, Some(2)),
        (4, Some(1)),
        (5, None),
        (6, Some(5)),
        (3, Some(2)),
    ];
    let mut scope = folder_navigation_scope(&relationships, 1);
    scope.sort();
    assert_eq!(scope, vec![1, 2, 3, 4]);
    assert_eq!(folder_navigation_scope(&relationships, 3), vec![3]);
    let mut cyclic = folder_navigation_scope(&[(1, Some(2)), (2, Some(1))], 1);
    cyclic.sort();
    assert_eq!(cyclic, vec![1, 2]);
    assert_eq!(folder_navigation_scope(&[], 9), vec![9]);
}

#[test]
fn virtual_rows_are_headers_then_lines() {
    let ranges = vec![range(0, 5, "A", 1), range(5, 5, "Empty", 2), range(5, 7, "B", 3)];
    let rows = folder_virtual_rows(&ranges, folder_chunk_size(2));
    let header = |s: usize| FolderVirtualRow { kind: FolderRowKind::Header, start: s, end: s };
    let line = |s: usize, e: usize| FolderVirtualRow { kind: FolderRowKind::Photos, start: s, end: e };
    assert_eq!(
        rows,
        vec![header(0), line(0, 2), line(2, 4), line(4, 5), header(5), header(5), line(5, 7)]
    );
    assert_eq!(folder_chunk_size(0), 1);
    assert_eq!(folder_virtual_rows(&ranges, 0).len(), 1 + 5 + 1 + 1 + 2);
}

#[test]
fn section_plan_follows_the_sidebar_and_keeps_every_range() {
    let ranges = vec![range(0, 2, "a", 10), range(2, 3, "b", 20), range(3, 4, "c", 30), range(4, 6, "a2", 10)];
    let plan = folder_section_plan(&ranges, &[], &[30, 10, 30, 99]);
    let indices: Vec<Option<usize>> = plan.iter().map(|p| p.range_index).collect();
    assert_eq!(indices, vec![Some(2), Some(0), Some(3), Some(1)]);
    assert_eq!(plan[1], FolderSectionPlan { folder_id: 10, range_index: Some(0) });
    let catalog = vec![
        FolderCatalogEntry { folder_id: 20, parent_id: None, photo_count: 1 },
        FolderCatalogEntry { folder_id: 10, parent_id: None, photo_count: 0 },
    ];
    let by_catalog = folder_section_plan(&ranges, &catalog, &[]);
    let indices: Vec<Option<usize>> = by_catalog.iter().map(|p| p.range_index).collect();
    assert_eq!(indices, vec![Some(1), Some(0), Some(2), Some(3)]);
}

#[test]
fn folder_rows_carry_paths_counts_and_photo_ids() {
    let ranges = vec![range(0, 3, "Trip", 7)];
    let photos: Vec<(i64, String)> = vec![(100, "/p/Trip".into()), (101, "/p/Trip".into()), (102, "/p/Trip".into())];
    let rows = build_folder_rows(&ranges, &photos, 2, &[], &[]);
    assert_eq!(rows.len(), 3);
    assert_eq!(rows[0].kind, FolderRowKind::Header);
    assert_eq!(rows[0].folder_path, "/p/Trip");
    assert_eq!(rows[0].label, "Trip");
    assert_eq!(rows[0].count, 3);
    assert_eq!(rows[1].photo_ids, vec![100, 101]);
    assert_eq!(rows[2].photo_ids, vec![102]);
    assert_eq!((rows[2].start, rows[2].end), (2, 3));
    let short = build_folder_rows(&ranges, &photos[..1], 2, &[], &[]);
    assert_eq!(short[1].photo_ids, Vec::<i64>::new());
}

fn header(folder_id: i64, label: &str, count: usize, start: usize) -> FolderRowData {
    FolderRowData {
        kind: FolderRowKind::Header,
        folder_id,
        folder_path: "/p".into(),
        label: label.into(),
        count,
        start,
        end: start,
        photo_ids: vec![],
    }
}

fn line(folder_id: i64, start: usize, end: usize) -> FolderRowData {
    FolderRowData {
        kind: FolderRowKind::Photos,
        folder_id,
        folder_path: String::new(),
        label: String::new(),
        count: 0,
        start,
        end,
        photo_ids: (start as i64..end as i64).collect(),
    }
}

fn apply(old: &[FolderRowData], new: &[FolderRowData]) -> Vec<FolderRowData> {
    let plan = row_splice(old, new);
    let mut rows: Vec<FolderRowData> = old.to_vec();
    for &r in &plan.replaced {
        rows[r] = new[r].clone();
    }
    if plan.splice {
        let removed = old.len() - plan.prefix - plan.suffix;
        rows.splice(plan.prefix..plan.prefix + removed, new[plan.prefix..new.len() - plan.suffix].iter().cloned());
    }
    rows
}

#[test]
fn splice_plan_turns_old_rows_into_new_rows() {
    let old = vec![header(1, "A", 2, 0), line(1, 0, 2), header(2, "B", 1, 2), line(2, 2, 3)];
    let new = vec![header(1, "A", 3, 0), line(1, 0, 2), line(1, 2, 3), header(2, "B", 1, 3), line(2, 3, 4)];
    let plan = row_splice(&old, &new);
    assert_eq!(plan.replaced, vec![0]);
    assert_eq!(plan.prefix, 2);
    let result = apply(&old, &new);
    assert_eq!(result.len(), new.len());
    for (a, b) in result.iter().zip(new.iter()) {
        assert!(folder_virtual_row_matches(a, b));
    }
    let same = row_splice(&old, &old);
    assert!(!same.splice);
    assert_eq!(same.prefix, old.len());
}

#[test]
fn removing_photos_keeps_model_and_selection_in_step() {
    assert!(plan_photo_removal(&[1, 2, 3], &[]).is_none());
    assert!(plan_photo_removal(&[1, 2, 3], &[9]).is_none());
    let plan = plan_photo_removal(&[10, 11, 12, 13, 14], &[11, 13, 99]).unwrap();
    assert_eq!(plan.positions, vec![1, 3]);
    assert_eq!(plan.kept, vec![10, 12, 14]);
    assert_eq!(plan.select, Some(1));
    let mut model = vec![10, 11, 12, 13, 14];
    for position in plan.positions.iter().rev() {
        model.remove(*position);
    }
    assert_eq!(model, plan.kept);
    let plan = plan_photo_removal(&[10, 11, 12], &[12]).unwrap();
    assert_eq!(plan.select, Some(1));
    let plan = plan_photo_removal(&[10, 11], &[10, 11]).unwrap();
    assert!(plan.kept.is_empty());
    assert_eq!(plan.select, None);
}

#[test]
fn availability_updates_touch_only_changed_photos() {
    let photos = [(1, true), (2, true), (1, false), (3, false), (2, false)];
    assert_eq!(availability_changes(&photos, &[(1, false)]), vec![0]);
    assert_eq!(availability_changes(&photos, &[(2, true), (2, false), (3, true)]), vec![1, 3]);
    assert!(availability_changes(&photos, &[]).is_empty());
    assert_eq!(availability_batch_end(0, 300), 128);
    assert_eq!(availability_batch_end(256, 300), 300);
}

fn record(id: i64, path: &str) -> PhotoRecord {
    PhotoRecord {
        id,
        history_caption: None,
        edited_at: 0,
        edit_recipe: String::new(),
        path: path.to_string(),
        mtime: 1,
        size_bytes: 2,
    }
}

#[test]
fn replacement_reuses_existing_photo_objects() {
    let current = vec![record(1, "/a"), record(2, "/b"), record(3, "/c")];
    let same = vec![record(1, "/a"), record(2, "/b"), record(3, "/c")];
    assert_eq!(replace_kind(&current, &same), ReplaceKind::Unchanged);
    let reordered = vec![record(3, "/c"), record(1, "/a"), record(2, "/b")];
    assert_eq!(replace_kind(&current, &reordered), ReplaceKind::Reorder(vec![(2, 0), (0, 1), (1, 2)]));
    let renamed = vec![record(1, "/a"), record(2, "/b2"), record(3, "/c")];
    assert_eq!(replace_kind(&current, &renamed), ReplaceKind::Reorder(vec![(0, 0), (1, 1), (2, 2)]));
    let other = vec![record(1, "/a"), record(4, "/d"), record(3, "/c")];
    assert_eq!(replace_kind(&current, &other), ReplaceKind::Rebuild);
    assert_eq!(replace_kind(&[], &[]), ReplaceKind::Unchanged);
    let long: Vec<PhotoRecord> = (0..1001).map(|i| record(i, "/x")).collect();
    assert_eq!(replace_kind(&current, &long), ReplaceKind::Progressive);
    assert_eq!(progressive_batch_end(0, 5000), 2000);
    assert_eq!(progressive_batch_end(4000, 5000), 5000);
}

#[test]
fn selection_maps_between_ids_and_positions() {
    assert_eq!(selected_ids_or_fallback(vec![4, 5], Some(5)), vec![4, 5]);
    assert_eq!(selected_ids_or_fallback(vec![4, 5], Some(9)), vec![9]);
    assert_eq!(selected_ids_or_fallback(vec![4, 5], None), vec![4, 5]);
    assert_eq!(selected_ids_or_fallback(vec![], Some(9)), vec![9]);
    let photos = [10, 11, 12, 13];
    assert_eq!(ids_at_positions(&photos, &[2, 0, 7]), vec![12, 10]);
    assert_eq!(positions_of_ids(&photos, &[13, 10, 99]), vec![0, 3]);
    let folders = [1, 1, 2, 3, 2];
    assert_eq!(first_position_in(&folders, &[3, 2]), Some(2));
    assert_eq!(first_position_in(&folders, &[7]), None);
}

#[test]
fn folder_stream_additions_keep_listed_photos_in_order() {
    assert_eq!(stream_insertions(&[1, 2, 3], &[1, 9, 8, 2, 3, 7]), Some(vec![(1, 2), (5, 1)]));
    assert_eq!(stream_insertions(&[1, 2, 3], &[5, 1, 2, 3]), Some(vec![(0, 1)]));
    assert_eq!(stream_insertions(&[1, 2, 3], &[1, 2, 3]), Some(vec![]));
    assert_eq!(stream_insertions(&[1, 2, 3], &[1, 3, 2]), None);
    assert_eq!(stream_insertions(&[1, 2, 3], &[1, 2]), None);
    assert_eq!(stream_insertions(&[1, 2, 3], &[1, 2, 9]), None);
}
