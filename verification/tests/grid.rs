use pic_library::sections::{section_heading, section_window_tiles};
use pic_library::chunks::{next_zoom, slices_match, wanted_chunk_meta};
use pic_library::dates::{history_group_label, local_date_from_millis, local_date_from_secs};
use pic_library::chunks::{
    aligned_chunk_bounds, build_chunk_meta, chunk_index_for_position, chunk_row_height_px,
    filled_items_for_chunk, logical_chunk_count, realization_window, PHOTOS_PER_CHUNK,
};
use pic_library::dates::{date_group_label, day_month_year_label, history_label_for, month_year_label, parse_photo_date, CivilDate};
use pic_library::grouping::{format_count, header_range_for_index, rebuild_group_ranges, GroupMode, GroupRange};

fn range(start: usize, end: usize) -> GroupRange {
    GroupRange {
        start,
        end,
        label: "Folder".to_string(),
        folder_id: 1,
    }
}

#[test]
fn aligned_chunks_cover_each_folder_without_gaps() {
    for columns in [2_u32, 3, 4, 5, 6, 7, 8, 9, 11, 12] {
        for count in [1_usize, 63, 64, 65, 127, 128, 129, 1000] {
            let metas = build_chunk_meta(&[range(0, count)]);
            assert!(!metas.is_empty());
            let mut cursor = 0_u32;
            for (index, meta) in metas.iter().enumerate() {
                let (start, end) = aligned_chunk_bounds(meta, columns);
                assert_eq!(start, cursor, "columns={columns} count={count}");
                assert!(end > start, "columns={columns} count={count}");
                if index + 1 < metas.len() {
                    assert_eq!(end % columns, 0, "internal boundary columns={columns} count={count}");
                }
                cursor = end;
            }
            assert_eq!(cursor, count as u32, "columns={columns} count={count}");
        }
    }
}

#[test]
fn chunk_count_is_independent_of_columns() {
    for count in [1_usize, 63, 64, 65, 127, 128, 129, 1000] {
        let metas = build_chunk_meta(&[range(10, 10 + count)]);
        let expected = (count as u32).div_ceil(PHOTOS_PER_CHUNK);
        assert_eq!(metas.len() as u32, expected);
        for columns in [2_u32, 3, 4, 5, 6, 7, 8, 9, 11, 12] {
            assert_eq!(metas.len() as u32, expected);
            let first = aligned_chunk_bounds(&metas[0], columns).0;
            let last = aligned_chunk_bounds(metas.last().unwrap(), columns).1;
            assert_eq!(first, 10);
            assert_eq!(last, (10 + count) as u32);
        }
    }
}

#[test]
fn chunk_helpers_have_exact_values() {
    assert_eq!(logical_chunk_count(0), 1);
    assert_eq!(logical_chunk_count(65), 2);
    assert_eq!(filled_items_for_chunk(100, 1), 36);
    assert_eq!(filled_items_for_chunk(100, 2), 0);
    assert_eq!(realization_window(0, 10), (0, 4));
    assert_eq!(realization_window(8, 10), (4, 9));
    assert_eq!(chunk_row_height_px(6, 100, 5), 224);
    let metas = build_chunk_meta(&[range(0, 130)]);
    assert_eq!(chunk_index_for_position(&metas, 5, 0), 0);
    assert_eq!(chunk_index_for_position(&metas, 5, 129), 2);
}

#[test]
fn group_ranges_follow_label_runs() {
    let labels: Vec<String> = ["A", "A", "B", "B", "A"].iter().map(|s| s.to_string()).collect();
    let ranges = rebuild_group_ranges(GroupMode::Day, &labels, &[]);
    let spans: Vec<(usize, usize, String)> = ranges.iter().map(|r| (r.start, r.end, r.label.clone())).collect();
    assert_eq!(
        spans,
        vec![(0, 2, "A".to_string()), (2, 4, "B".to_string()), (4, 5, "A".to_string())]
    );
    assert!(rebuild_group_ranges(GroupMode::Ungrouped, &labels, &[]).is_empty());
    let folders = rebuild_group_ranges(GroupMode::Folder, &labels[..2], &[1, 2]);
    assert_eq!(folders.len(), 2);
    assert_eq!(header_range_for_index(&ranges, 3), Some(1));
    assert_eq!(header_range_for_index(&ranges, 9), Some(2));
    assert_eq!(header_range_for_index(&[], 0), None);
}

#[test]
fn counts_use_thousands_separators() {
    assert_eq!(format_count(0), "0");
    assert_eq!(format_count(999), "999");
    assert_eq!(format_count(1000), "1,000");
    assert_eq!(format_count(1234567), "1,234,567");
}

fn day(year: i32, month: u32, day: u32, day_number: i64) -> CivilDate {
    CivilDate { year, month, day, day_number }
}

#[test]
fn date_labels() {
    let today = day(2024, 5, 10, 1000);
    let yesterday = day(2024, 5, 9, 999);
    let d = day(2023, 1, 2, 500);
    assert_eq!(month_year_label(d), "Jan 2023");
    assert_eq!(day_month_year_label(d), "02 Jan 2023");
    assert_eq!(date_group_label(GroupMode::Month, Some(d), today, yesterday), "Jan 2023");
    assert_eq!(date_group_label(GroupMode::Day, Some(today), today, yesterday), "Today");
    assert_eq!(date_group_label(GroupMode::Day, Some(yesterday), today, yesterday), "Yesterday");
    assert_eq!(date_group_label(GroupMode::Day, None, today, yesterday), "Unknown Date");
    assert_eq!(date_group_label(GroupMode::Ungrouped, Some(d), today, yesterday), "");
    assert_eq!(history_label_for(0, Some(d), today, yesterday), "Unknown Date");
    assert_eq!(history_label_for(5, Some(today), today, yesterday), "Today");
    assert_eq!(history_label_for(5, Some(day(2024, 5, 5, 995)), today, yesterday), "Earlier This Week");
    assert_eq!(history_label_for(5, Some(day(2024, 5, 1, 991)), today, yesterday), "Earlier This Month");
    assert_eq!(history_label_for(5, Some(d), today, yesterday), "Jan 2023");
    let parsed = parse_photo_date("2023-07-04 12:00:00").unwrap();
    assert_eq!((parsed.year, parsed.month, parsed.day), (2023, 7, 4));
    assert!(parse_photo_date("not a date").is_none());
}

#[test]
fn grid_columns_follow_width_and_tile_size() {
    use_columns();
}

fn use_columns() {
    assert_eq!(pic_library::chunks::columns_for_width(1000, 176), 4);
    assert_eq!(pic_library::chunks::columns_for_width(0, 176), 1);
    assert_eq!(pic_library::chunks::columns_for_width(1000, -30), 12);
    assert_eq!(pic_library::chunks::columns_for_width(1000, 10), 12);
    assert_eq!(pic_library::chunks::columns_for_width(1000, -100), 1);
}

#[test]
fn wanted_chunks_cover_an_ungrouped_store() {
    let metas = wanted_chunk_meta(&[], 130);
    assert_eq!(metas.len(), 3);
    assert!(metas.iter().all(|m| m.folder_start == 0 && m.folder_end == 130 && m.logical_count == 3));
    let bounds: Vec<(u32, u32)> = metas.iter().map(|m| aligned_chunk_bounds(m, 5)).collect();
    let existing: Vec<(u32, u32)> = bounds.iter().map(|(s, e)| (*s, e - s)).collect();
    assert!(slices_match(&existing, &metas, 5));
    assert!(!slices_match(&existing[..2], &metas, 5));
    assert!(wanted_chunk_meta(&[], 0).len() == 1);
    let grouped = wanted_chunk_meta(&[range(0, 10)], 10);
    assert_eq!(grouped.len(), 1);
    assert_eq!((grouped[0].folder_start, grouped[0].folder_end), (0, 10));
}

#[test]
fn clock_dependent_labels_handle_missing_times() {
    assert_eq!(history_group_label(0), "Unknown Date");
    assert_eq!(history_group_label(-5), "Unknown Date");
    let today = history_group_label(i64::MAX);
    assert_eq!(today, "Unknown Date");
    let day = local_date_from_secs(0).unwrap();
    assert!(day.year == 1969 || day.year == 1970);
}

#[test]
fn timestamps_convert_exactly_within_chrono_range() {
    assert!(local_date_from_secs(8_210_266_876_799).is_some());
    assert!(local_date_from_secs(8_210_266_876_800).is_none());
    assert!(local_date_from_secs(-8_334_601_228_800).is_some());
    assert!(local_date_from_secs(-8_334_601_228_801).is_none());
    assert!(local_date_from_millis(8_210_266_876_799_999).is_some());
    assert!(local_date_from_millis(8_210_266_876_800_000).is_none());
    assert!(local_date_from_millis(-8_334_601_228_800_000).is_some());
    assert!(local_date_from_millis(-8_334_601_228_800_001).is_none());
    assert!(local_date_from_millis(i64::MIN).is_none());
}

fn days_from_ce(y: i64, m: i64, d: i64) -> i64 {
    let leap = y.rem_euclid(4) == 0 && (y.rem_euclid(100) != 0 || y.rem_euclid(400) == 0);
    let before = [0, 31, 59, 90, 120, 151, 181, 212, 243, 273, 304, 334][(m - 1) as usize]
        + if leap && m > 2 { 1 } else { 0 };
    let p = y - 1;
    p * 365 + p.div_euclid(4) - p.div_euclid(100) + p.div_euclid(400) + before + d
}

#[test]
fn chrono_day_numbers_follow_the_calendar() {
    for secs in [0i64, 951_782_400, 4_107_542_400, -62_135_596_800, -100_000_000_000, 8_000_000_000_000, -8_000_000_000_000] {
        let d = local_date_from_secs(secs).unwrap();
        assert_eq!(d.day_number, days_from_ce(d.year as i64, d.month as i64, d.day as i64));
        assert!((d.day_number - (secs.div_euclid(86400) + 719_163)).abs() <= 1);
    }
    let d = parse_photo_date("2020-02-29 12:00:00").unwrap();
    assert_eq!((d.year, d.month, d.day), (2020, 2, 29));
    assert_eq!(d.day_number, days_from_ce(2020, 2, 29));
    assert_ne!(history_group_label(1), "Unknown Date");
}

#[test]
fn wheel_zoom_steps_from_the_nearest_level() {
    let levels = [84, 120, 160, 220, 320];
    assert_eq!(next_zoom(&levels, 150, true), 220);
    assert_eq!(next_zoom(&levels, 140, false), 84);
    assert_eq!(next_zoom(&levels, 320, true), 320);
    assert_eq!(next_zoom(&levels, 10, false), 84);
    assert_eq!(next_zoom(&levels, 10, true), 120);
}

#[test]
fn section_window_lists_visible_tiles_row_by_row() {
    assert_eq!(
        section_window_tiles(10, 17, 3, 1, 5),
        vec![(13, 1, 0), (14, 1, 1), (15, 1, 2), (16, 2, 0)]
    );
    assert_eq!(section_window_tiles(10, 17, 3, 0, 1), vec![(10, 0, 0), (11, 0, 1), (12, 0, 2)]);
    assert!(section_window_tiles(10, 10, 3, 0, 5).is_empty());
    assert!(section_window_tiles(10, 17, 3, 4, 9).is_empty());
    assert_eq!(section_heading("Trips", 10, 17), "Trips   \u{b7}   7 photos");
    assert_eq!(section_heading("Empty", 5, 2), "Empty   \u{b7}   0 photos");
}
