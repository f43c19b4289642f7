use pic_library::scanner::{scan_report, scan_step, ScanInput, ScanOutcome, ScanState};
use pic_library::scanner::{mtime_text, photo_metadata};
use pic_library::dates::format_date;
use pic_library::details::{dimensions_text, photo_detail_texts};
use pic_library::grouping::header_count_text;
use pic_library::library::next_zoom;
use pic_library::library::{zoomed_in, zoomed_out, PhotoGrid, DEFAULT_TILE, MAX_TILE, MIN_TILE};
use pic_library::home::{short_edit_line, HomeRefresh};
use pic_library::library::{is_displayable_photo, normalized_rotation, photo_count_label, photo_paths};
use pic_library::scanner::{
    ascii_field_text, camera_label, commit_due, exif_date_text, needs_raw_dimensions, parent_folder_id,
    raw_dimensions, reindex_plan, should_descend, ReindexPlan,
};
use pic_library::settings::{AvailabilityTally, AVAILABILITY_PAGE_SIZE};
use pic_library::settings::{album_view_style_from, AlbumViewStyle, ALBUM_VIEW_STYLE_SETTING_KEY, BOOKSHELF_SETTING_KEY};

#[test]
fn history_lines_lose_their_seconds() {
    assert_eq!(short_edit_line("Photo · 2024-05-01 10:11:12"), "Photo · 2024-05-01 10:11");
    assert_eq!(short_edit_line("ab"), "ab");
    assert_eq!(short_edit_line("x:é"), "x");
    assert_eq!(short_edit_line("no seconds"), "no seconds");
}

#[test]
fn the_window_lists_displayable_files_in_path_order() {
    assert!(is_displayable_photo("/a/B.JPG"));
    assert!(is_displayable_photo("c.tiff"));
    assert!(!is_displayable_photo("d.heic"));
    assert!(!is_displayable_photo("noext"));
    let found = vec![
        ("/p/b.png".to_string(), true),
        ("/p/a.jpg".to_string(), true),
        ("/p/dir.jpg".to_string(), false),
        ("/p/notes.txt".to_string(), true),
        ("/p/a/z.gif".to_string(), true),
    ];
    assert_eq!(photo_paths(found), vec!["/p/a/z.gif", "/p/a.jpg", "/p/b.png"]);
    assert_eq!(photo_count_label(0), "0 photos");
    assert_eq!(photo_count_label(1234), "1234 photos");
    assert_eq!(normalized_rotation(-90), 270);
    assert_eq!(normalized_rotation(450), 90);
}

#[test]
fn album_view_style_defaults_and_migrates_the_bookshelf_toggle() {
    assert_eq!(album_view_style_from(None, None), AlbumViewStyle::Default);
    assert_eq!(album_view_style_from(None, Some("true")), AlbumViewStyle::Bookshelf);
    assert_eq!(album_view_style_from(Some("album-covers"), Some("true")), AlbumViewStyle::AlbumCovers);
    assert_eq!(AlbumViewStyle::AlbumCovers.setting_value(), "album-covers");
    assert_eq!(album_view_style_from(Some("default"), Some("true")), AlbumViewStyle::Default);
    assert_eq!(album_view_style_from(Some("unknown"), Some("false")), AlbumViewStyle::Default);
    assert_eq!(AlbumViewStyle::default(), AlbumViewStyle::Default);
    assert_eq!(BOOKSHELF_SETTING_KEY, "iphone-bookshelf-albums");
    assert_eq!(ALBUM_VIEW_STYLE_SETTING_KEY, "albums-home-style");
}

#[test]
fn import_walk_and_metadata_rules() {
    assert!(should_descend("Holiday"));
    assert!(!should_descend("Catalog.LRDATA"));
    assert!(!should_descend("Previews"));
    assert!(!should_descend("cache"));
    assert_eq!(camera_label(Some("NIKON".into()), Some("NIKON D850".into())), Some("NIKON D850".into()));
    assert_eq!(camera_label(Some("Canon".into()), Some("EOS R5".into())), Some("Canon EOS R5".into()));
    assert_eq!(camera_label(None, Some("X100".into())), Some("X100".into()));
    assert_eq!(camera_label(None, None), None);
    assert_eq!(exif_date_text("2023:07:04 10:11:12"), "2023-07-04 10-11-12");
    assert_eq!(ascii_field_text(b"  Canon \0"), Some("Canon \0".trim().to_string()));
    assert_eq!(ascii_field_text(b"   "), None);
    assert!(commit_due(64));
    assert!(!commit_due(0));
    assert!(!commit_due(65));
    let registered = vec![("/r/a".to_string(), 2), ("/r/a".to_string(), 3)];
    assert_eq!(parent_folder_id(&registered, Some("/r/a"), 1), 3);
    assert_eq!(parent_folder_id(&registered, Some("/r/b"), 1), 1);
    assert_eq!(parent_folder_id(&registered, None, 1), 1);
    assert_eq!(raw_dimensions(Some(10), None, Some((1, 2))), (Some(10), Some(2)));
    assert!(needs_raw_dimensions(Some(1), None));
}

#[test]
fn reindexing_rules() {
    let current = Some((Some(5), Some(100), Some(10), Some(10)));
    assert_eq!(
        reindex_plan("a.jpg", current, Some(5), 100, true),
        ReindexPlan { skip: true, newly_discovered: false, queue_thumbnail: false }
    );
    assert_eq!(
        reindex_plan("a.jpg", current, Some(6), 100, true),
        ReindexPlan { skip: false, newly_discovered: false, queue_thumbnail: true }
    );
    assert_eq!(
        reindex_plan("a.nef", Some((Some(5), Some(100), None, Some(10))), Some(5), 100, true),
        ReindexPlan { skip: false, newly_discovered: false, queue_thumbnail: false }
    );
    assert_eq!(
        reindex_plan("a.heic", current, Some(5), 100, false),
        ReindexPlan { skip: false, newly_discovered: false, queue_thumbnail: true }
    );
    assert_eq!(
        reindex_plan("a.png", None, Some(5), 100, false),
        ReindexPlan { skip: false, newly_discovered: true, queue_thumbnail: true }
    );
}

#[test]
fn zoom_steps_from_the_nearest_level() {
    let levels = [84, 120, 176, 240, 320];
    assert_eq!(next_zoom(&levels, 176, true), 240);
    assert_eq!(next_zoom(&levels, 176, false), 120);
    assert_eq!(next_zoom(&levels, 300, true), 320);
    assert_eq!(next_zoom(&levels, 90, false), 84);
    assert_eq!(next_zoom(&levels, 148, true), 176);
}

#[test]
fn info_bar_dates() {
    assert_eq!(format_date("2024-03-05T14:07:00+02:00"), "Mar 5, 2024, 2:07 PM");
    assert_eq!(format_date("2023-12-25 00:30:00"), "Dec 25, 2023, 12:30 AM");
    assert_eq!(format_date("Unknown date"), "Unknown date");
}

#[test]
fn section_header_counts() {
    assert_eq!(header_count_text(1), "\u{2022}  1 photo");
    assert_eq!(header_count_text(12345), "\u{2022}  12,345 photos");
    assert_eq!(header_count_text(0), "\u{2022}  0 photos");
}

#[test]
fn detail_texts_fall_back_to_unknowns() {
    assert_eq!(dimensions_text(4032, 3024), "4032 \u{d7} 3024");
    assert_eq!(dimensions_text(0, 3024), "Unknown");
    assert_eq!(dimensions_text(4032, -1), "Unknown");
    let (date, camera, dimensions) = photo_detail_texts(None, None, 0, 0);
    assert_eq!(date, "Unknown date");
    assert_eq!(camera, "Unknown camera");
    assert_eq!(dimensions, "Unknown");
    let (date, camera, dimensions) =
        photo_detail_texts(Some("2023-12-25 00:30:00"), Some("Canon EOS R5"), 8192, 5464);
    assert_eq!(date, "Dec 25, 2023, 12:30 AM");
    assert_eq!(camera, "Canon EOS R5");
    assert_eq!(dimensions, "8192 \u{d7} 5464");
}

#[test]
fn photo_dates_parse_in_each_stored_form() {
    let rfc = pic_library::dates::parse_photo_date("2024-03-05T14:07:00+02:00").unwrap();
    assert!(rfc.day_number >= 738950 - 2 && rfc.day_number <= 738950 + 2);
    let d = pic_library::dates::parse_photo_date("2021-02-03 04-05-06").unwrap();
    assert_eq!((d.year, d.month, d.day), (2021, 2, 3));
    assert!(pic_library::dates::parse_photo_date("2021/02/03").is_none());
}

#[test]
fn zoom_keeps_the_photo_list() {
    let mut grid = PhotoGrid::new();
    assert_eq!(grid.tile_size(), DEFAULT_TILE);
    assert!(grid.photos().is_empty());
    grid.load(vec![
        ("/p/b.JPG".to_string(), true),
        ("/p/notes.txt".to_string(), true),
        ("/p/a.png".to_string(), true),
        ("/p/dir.png".to_string(), false),
    ]);
    let before: Vec<String> = grid.photos().to_vec();
    assert_eq!(before, vec!["/p/a.png".to_string(), "/p/b.JPG".to_string()]);
    assert_eq!(grid.count_label(), "2 photos");
    assert!(grid.set_tile_size(zoomed_in(grid.tile_size())));
    assert_eq!(grid.tile_size(), DEFAULT_TILE + 20);
    assert!(!grid.set_tile_size(DEFAULT_TILE + 20));
    assert_eq!(grid.photos().to_vec(), before);
    assert_eq!(zoomed_in(310), MAX_TILE);
    assert_eq!(zoomed_out(100), MIN_TILE);
    assert_eq!(zoomed_out(200), 180);
}

#[test]
fn home_reads_again_only_when_something_changed() {
    let mut state = HomeRefresh::new();
    assert!(state.wants_refresh(false, 7));
    state.begin();
    assert!(state.finish(false, 7, false));
    assert!(!state.wants_refresh(false, 7));
    assert!(state.wants_refresh(true, 7));
    assert!(state.wants_refresh(false, 8));
    state.begin();
    state.note_missing();
    assert!(!state.finish(false, 7, false));
    assert!(state.wants_refresh(false, 7));
    state.begin();
    assert!(state.finish(false, 7, true));
    assert!(!state.wants_refresh(false, 7));
}

#[test]
fn availability_count_covers_every_photo_once() {
    let mut tally = AvailabilityTally::new();
    let page: Vec<bool> = (0..AVAILABILITY_PAGE_SIZE).map(|i| i % 4 != 0).collect();
    assert!(!tally.record_page(&page));
    assert_eq!((tally.offset, tally.available, tally.unavailable), (256, 192, 64));
    assert!(!tally.record_page(&[true, false, false]));
    assert_eq!((tally.offset, tally.available, tally.unavailable), (259, 193, 66));
    assert!(tally.record_page(&[]));
    assert_eq!((tally.offset, tally.available, tally.unavailable), (259, 193, 66));
}

fn tiff_with_camera() -> Vec<u8> {
    let mut b: Vec<u8> = b"II*\0".to_vec();
    b.extend_from_slice(&8u32.to_le_bytes());
    b.extend_from_slice(&3u16.to_le_bytes());
    let strings: [(u16, &[u8]); 3] =
        [(0x010F, b"Canon\0"), (0x0110, b"Canon EOS R5\0"), (0x0132, b"2021:02:03 04:05:06\0")];
    let mut offset = 8 + 2 + 3 * 12 + 4;
    for (tag, text) in strings.iter() {
        b.extend_from_slice(&tag.to_le_bytes());
        b.extend_from_slice(&2u16.to_le_bytes());
        b.extend_from_slice(&(text.len() as u32).to_le_bytes());
        b.extend_from_slice(&(offset as u32).to_le_bytes());
        offset += text.len();
    }
    b.extend_from_slice(&0u32.to_le_bytes());
    for (_, text) in strings.iter() {
        b.extend_from_slice(text);
    }
    b
}

#[test]
fn photo_metadata_reads_exif_camera_and_date() {
    let m = photo_metadata(&tiff_with_camera(), false, Some((4000, 3000)), Some(5), Some("later".to_string()), 77);
    assert_eq!(m.taken_at.as_deref(), Some("2021-02-03 04-05-06"));
    assert_eq!(m.camera.as_deref(), Some("Canon EOS R5"));
    assert_eq!((m.width, m.height), (Some(4000), Some(3000)));
    assert_eq!((m.size_bytes, m.mtime), (Some(77), Some(5)));
    let raw = photo_metadata(&tiff_with_camera(), true, Some((10, 20)), None, None, 1);
    assert_eq!((raw.width, raw.height), (Some(10), Some(20)));
    let plain = photo_metadata(b"not an image", false, None, Some(5), Some("mtime".to_string()), 3);
    assert_eq!(plain.taken_at.as_deref(), Some("mtime"));
    assert_eq!(plain.camera, None);
    assert_eq!((plain.width, plain.height), (None, None));
    assert!(mtime_text(None).is_none());
    let epoch = mtime_text(Some(0)).unwrap();
    assert_eq!(epoch.len(), 25);
    assert!(epoch.starts_with("1970-01-01T") || epoch.starts_with("1969-12-31T"));
    assert!(epoch.ends_with(":00"));
    let at_epoch = pic_library::dates::parse_photo_date(&epoch).unwrap();
    assert!((at_epoch.day_number - 719163).abs() <= 1);
    assert!(mtime_text(Some(i64::MAX)).is_none());
}

#[test]
fn import_loop_commits_every_sixty_four_photos() {
    let mut state = ScanState::new();
    let mut commits = 0;
    for i in 0..130 {
        let input = if i % 10 == 9 { ScanInput::Failed } else { ScanInput::Indexed { queue_thumbnail: i % 2 == 0 } };
        let (next, action) = scan_step(&state, input);
        if action.commit {
            commits += 1;
        }
        assert_eq!(action.report_failure, input == ScanInput::Failed);
        assert_eq!(action.outcome, ScanOutcome::Running);
        state = next;
    }
    assert_eq!((state.imported, state.failed), (117, 13));
    assert_eq!(state.pending, 117 % 64);
    assert!(commits >= 1);
    let (skipped, _) = scan_step(&state, ScanInput::Skipped);
    assert_eq!(skipped.skipped, 1);
    let (done, action) = scan_step(&state, ScanInput::Stop { cancelled: false });
    assert!(action.commit && done.finished && done.pending == 0);
    assert_eq!(action.outcome, ScanOutcome::Indexed { imported: 117, thumbnails: state.thumbnails });
    let (_, cancelled) = scan_step(&ScanState::new(), ScanInput::Stop { cancelled: true });
    assert_eq!(cancelled.outcome, ScanOutcome::Cancelled { imported: 0 });
    assert_eq!(scan_report(&done, 2, false), ScanOutcome::Finished { imported: 117, failed: 15 });
    assert_eq!(scan_report(&done, 2, true), ScanOutcome::Cancelled { imported: 117 });
}
