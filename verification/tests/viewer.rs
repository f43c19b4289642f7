use pic_library::pixels::{rotate_image, RgbaPixels};
use pic_library::cache::{texture_bytes, RecentTextures, TextureKey};
use pic_library::viewer::{DecodePermits, PermitStep, MAX_CONCURRENT_VIEWER_DECODES};
use pic_library::viewer::{foreground_result_step, ForegroundResultStep, ViewerAction, ViewerState, ZoomMode};
use pic_library::cache::{display_texture_cache, edited_thumbnail_cache, edited_thumbnail_key, thumbnail_needs_edit};
use pic_library::requests::{PrefetchLeases, ViewerRequestClaim, ViewerRequestKey, ViewerRequests};
use pic_library::viewer::{
    decode_admitted, decode_stale, navigation_step, prefetch_targets, quarter_turn,
    viewer_decode_target, viewer_generation_current, viewer_trace_uri, WheelNavigationState,
};

#[test]
fn older_generation_is_not_current() {
    assert!(viewer_generation_current(9, 9));
    assert!(!viewer_generation_current(10, 9));
}

#[test]
fn navigation_steps_stop_at_the_ends() {
    assert_eq!(navigation_step(0, -1, 5), 0);
    assert_eq!(navigation_step(3, -1, 5), 2);
    assert_eq!(navigation_step(4, 1, 5), 4);
    assert_eq!(navigation_step(2, 1, 5), 3);
    assert_eq!(navigation_step(2, 0, 5), 2);
    assert_eq!(navigation_step(0, 1, 0), 0);
}

#[test]
fn wheel_steps_accumulate_on_the_queued_target() {
    let mut wheel = WheelNavigationState::default();
    wheel.begin(1);
    assert_eq!(wheel.queue_step(3, 1, 10), Some(4));
    assert_eq!(wheel.queue_step(3, 1, 10), Some(5));
    assert_eq!(wheel.take_pending_target(), Some(5));
    assert_eq!(wheel.active_direction, 0);
    assert_eq!(wheel.queue_step(9, 1, 10), None);
    wheel.begin(-1);
    assert_eq!(wheel.queue_step(1, -1, 10), Some(0));
    wheel.cancel();
    assert_eq!(wheel.pending_target, None);
}

#[test]
fn trace_uri_hides_user_information() {
    assert_eq!(viewer_trace_uri("smb://user:pw@host/a.jpg"), "smb://host/a.jpg");
    assert_eq!(viewer_trace_uri("/home/a.jpg"), "/home/a.jpg");
    assert_eq!(viewer_trace_uri("nfs://host/a@b/c.jpg"), "nfs://b/c.jpg");
}

#[test]
fn prefetch_prefers_the_direction_of_travel() {
    assert_eq!(prefetch_targets(3, 1, 10), vec![4, 2]);
    assert_eq!(prefetch_targets(3, -1, 10), vec![2, 4]);
    assert_eq!(prefetch_targets(0, 1, 1), Vec::<usize>::new());
    assert_eq!(prefetch_targets(9, 1, 10), vec![8]);
}

#[test]
fn decode_target_follows_viewport_and_rotation() {
    let t = viewer_decode_target(1036, 794, 2, 90, false);
    assert_eq!((t.target_width, t.target_height), (1588, 2072));
    assert_eq!((t.logical_width, t.logical_height, t.scale_factor, t.fallback), (1036, 794, 2, false));
    let f = viewer_decode_target(0, 794, 0, -90, false);
    assert_eq!((f.target_width, f.target_height, f.fallback), (768, 1024, true));
    let one = viewer_decode_target(1036, 794, 1, 0, true);
    assert_eq!((one.target_width, one.target_height), (u32::MAX, u32::MAX));
    assert!(quarter_turn(270));
    assert!(quarter_turn(-90));
    assert!(!quarter_turn(180));
    assert!(decode_admitted(true, 0, false));
    assert!(!decode_admitted(true, 3, false));
    assert!(decode_admitted(true, 3, true));
    assert!(!decode_admitted(false, 0, true));
    assert!(decode_stale(2, 1, false));
    assert!(decode_stale(1, 1, true));
    assert!(!decode_stale(1, 1, false));
}

fn request_key(name: &str) -> ViewerRequestKey {
    ViewerRequestKey {
        path: format!("/test/{name}.jpg"),
        mtime: 1,
        size_bytes: 1,
        rotation: 0,
        edit_recipe: String::new(),
        target_width: 800,
        target_height: 600,
    }
}

#[test]
fn foreground_promotes_prefetch_without_losing_its_work() {
    let mut requests = ViewerRequests::new();
    let key = request_key("promote");
    let (prefetch_request, mut prefetch, first) = requests.claim(&key, false);
    assert_eq!(first, ViewerRequestClaim::New);
    let (foreground_request, mut foreground, joined) = requests.claim(&key, true);
    assert_eq!(prefetch_request, foreground_request);
    assert_eq!(joined, ViewerRequestClaim::PromotedPrefetch);
    requests.cancel(&mut prefetch);
    assert!(requests.has_consumers(foreground_request));
    assert!(requests.is_foreground(foreground_request));
    requests.finish(foreground_request);
    requests.release(&mut foreground);
    assert!(!requests.has_consumers(foreground_request));
    assert_eq!(requests.request_for(&key), None);
}

#[test]
fn identical_foregrounds_join_one_inflight_request() {
    let mut requests = ViewerRequests::new();
    let key = request_key("foreground-join");
    let (first_request, mut first, created) = requests.claim(&key, true);
    assert_eq!(created, ViewerRequestClaim::New);
    let (second_request, mut second, joined) = requests.claim(&key, true);
    assert_eq!(first_request, second_request);
    assert_eq!(joined, ViewerRequestClaim::JoinedForeground);
    assert_eq!(requests.consumers(first_request), 2);
    requests.cancel(&mut first);
    assert!(requests.has_consumers(second_request));
    requests.finish(second_request);
    requests.release(&mut second);
    requests.release(&mut second);
    assert_eq!(requests.request_for(&key), None);
}

#[test]
fn prefetch_cancellation_spares_the_kept_request() {
    let mut requests = ViewerRequests::new();
    let kept = request_key("kept");
    let other = request_key("other");
    let (kept_id, kept_lease, _) = requests.claim(&kept, false);
    let (other_id, other_lease, _) = requests.claim(&other, false);
    let mut leases = PrefetchLeases::new();
    let kept_serial = leases.add(kept_lease);
    let other_serial = leases.add(other_lease);
    assert!(!leases.is_cancelled(kept_serial));
    assert!(!leases.is_cancelled(other_serial));
    leases.cancel_lightbox_prefetch_except(&mut requests, Some(&kept));
    assert!(!leases.is_cancelled(kept_serial));
    assert!(leases.is_cancelled(other_serial));
    assert!(requests.has_consumers(kept_id));
    assert!(!requests.has_consumers(other_id));
    requests.finish(other_id);
    assert_eq!(requests.request_for(&other), None);
    leases.cancel_lightbox_prefetch(&mut requests);
    assert!(leases.is_cancelled(kept_serial));
    assert!(leases.is_cancelled(other_serial));
    assert!(!leases.is_cancelled(other_serial + 1));
    assert!(!requests.has_consumers(kept_id));
}

fn texture_key(path: &str) -> TextureKey {
    TextureKey {
        path: path.to_string(),
        rotation: 0,
        edit_recipe: String::new(),
        target_width: 10,
        target_height: 10,
    }
}

#[test]
fn recent_textures_evict_least_recent_past_limits() {
    let mut cache: RecentTextures<u32> = RecentTextures::new(2, 1000);
    cache.insert(texture_key("a"), 100, 1);
    cache.insert(texture_key("b"), 100, 2);
    assert!(cache.touch(&texture_key("a")));
    assert_eq!(cache.front(), Some(&1));
    cache.insert(texture_key("c"), 100, 3);
    assert_eq!(cache.len(), 2);
    assert!(!cache.touch(&texture_key("b")));
    assert!(cache.touch(&texture_key("a")));
    cache.insert(texture_key("a"), 950, 4);
    assert_eq!(cache.len(), 1);
    assert_eq!(cache.front(), Some(&4));
    cache.insert(texture_key("d"), 2000, 5);
    assert_eq!(cache.len(), 1);
    assert_eq!(cache.total(), 2000);
    assert!(cache.can_insert(10));
}

#[test]
fn texture_bytes_saturate() {
    assert_eq!(texture_bytes(10, 20), 800);
    assert_eq!(texture_bytes(-5, 20), 0);
    assert_eq!(texture_bytes(i32::MAX, i32::MAX), (i32::MAX as usize) * (i32::MAX as usize) * 4);
}

#[test]
fn recent_textures_forget_removed_keys() {
    let mut cache: RecentTextures<u32> = RecentTextures::new(96, usize::MAX);
    cache.insert(texture_key("a"), 1, 1);
    cache.insert(texture_key("b"), 1, 2);
    cache.remove(&texture_key("a"));
    assert_eq!(cache.len(), 1);
    assert!(!cache.touch(&texture_key("a")));
    assert_eq!(cache.front(), Some(&2));
}

#[test]
fn decode_pool_bounds_concurrent_decodes() {
    let mut pool = DecodePermits::new(MAX_CONCURRENT_VIEWER_DECODES);
    assert_eq!(pool.in_flight(), 0);
    for _ in 0..3 {
        assert_eq!(pool.try_acquire(true), PermitStep::Granted);
    }
    assert_eq!(pool.in_flight(), 3);
    assert_eq!(pool.try_acquire(true), PermitStep::Wait);
    assert_eq!(pool.try_acquire(false), PermitStep::GiveUp);
    pool.release();
    assert_eq!(pool.in_flight(), 2);
    assert_eq!(pool.try_acquire(false), PermitStep::GiveUp);
    assert_eq!(pool.in_flight(), 2);
    assert_eq!(pool.try_acquire(true), PermitStep::Granted);
    assert_eq!(pool.in_flight(), 3);
}

#[test]
fn edited_thumbnail_cache_keeps_the_most_recent_ninety_six() {
    let mut cache: RecentTextures<u32> = edited_thumbnail_cache();
    for i in 0..97u32 {
        cache.insert(edited_thumbnail_key(&format!("/p/{i}.jpg"), 90, ""), 0, i);
    }
    assert_eq!(cache.len(), 96);
    assert!(!cache.touch(&edited_thumbnail_key("/p/0.jpg", 90, "")));
    assert!(cache.touch(&edited_thumbnail_key("/p/1.jpg", -270, "")));
    assert_eq!(cache.front(), Some(&1));
    let key = edited_thumbnail_key("/p/x.jpg", -90, "crop");
    assert_eq!(key.rotation, 270);
    assert_eq!((key.target_width, key.target_height), (0, 0));
    assert!(thumbnail_needs_edit(90, true));
    assert!(!thumbnail_needs_edit(720, true));
    assert!(thumbnail_needs_edit(0, false));
    let display: RecentTextures<u32> = display_texture_cache();
    assert_eq!(display.len(), 0);
    assert!(display.can_insert(1));
}

#[test]
fn viewer_steps_and_retires_stale_decodes() {
    let mut viewer = ViewerState::new();
    assert_eq!(viewer.navigate_photo(1), ViewerAction::Nothing);
    assert_eq!(viewer.open(0, 3), ViewerAction::Nothing);
    assert!(!viewer.visible);
    assert_eq!(viewer.open(5, 9), ViewerAction::Show { index: 4, generation: 1 });
    assert_eq!(viewer.navigate_photo(1), ViewerAction::Nothing);
    assert_eq!(viewer.navigate_photo(-1), ViewerAction::Show { index: 3, generation: 2 });
    assert!(viewer.decode_current(2));
    assert!(!viewer.decode_current(1));
    assert_eq!(viewer.set_one_to_one(true, true), ViewerAction::ReuseNative);
    assert_eq!(viewer.zoom, ZoomMode::OneToOne);
    assert_eq!(viewer.set_one_to_one(true, false), ViewerAction::Nothing);
    assert_eq!(viewer.set_one_to_one(false, false), ViewerAction::Refit);
    assert_eq!(viewer.zoom, ZoomMode::Fit);
    assert_eq!(viewer.set_one_to_one(true, false), ViewerAction::Show { index: 3, generation: 3 });
    assert_eq!(viewer.navigate_photo(-1), ViewerAction::Show { index: 2, generation: 4 });
    assert!(!viewer.one_to_one);
    assert_eq!(viewer.refresh_current(), ViewerAction::Show { index: 2, generation: 5 });
    assert_eq!(viewer.navigate_collection(1), ViewerAction::Collection(1));
    assert_eq!(viewer.navigate_collection(0), ViewerAction::Nothing);
    viewer.close();
    assert!(!viewer.decode_current(5));
    assert_eq!(viewer.navigate_collection(1), ViewerAction::Nothing);
    assert_eq!(viewer.refresh_current(), ViewerAction::Nothing);
}

fn numbered(width: u32, height: u32) -> RgbaPixels {
    let data: Vec<u8> = (0..width * height).flat_map(|p| [p as u8, 0, 0, 255]).collect();
    RgbaPixels { width, height, data }
}

fn pixel(image: &RgbaPixels, x: u32, y: u32) -> u8 {
    image.data[((y * image.width + x) * 4) as usize]
}

#[test]
fn quarter_turns_swap_image_axes() {
    let turned = rotate_image(numbered(3, 2), 90);
    assert_eq!((turned.width, turned.height), (2, 3));
    // (x, y) = (0, 0) of the 3x2 image moves to (height - 1 - 0, 0) = (1, 0).
    assert_eq!(pixel(&turned, 1, 0), 0);
    assert_eq!(pixel(&turned, 0, 0), 3);
    let back = rotate_image(numbered(3, 2), -90);
    assert_eq!((back.width, back.height), (2, 3));
    assert_eq!(pixel(&back, 0, 2), 0);
    let half = rotate_image(numbered(3, 2), 180);
    assert_eq!((half.width, half.height), (3, 2));
    assert_eq!(pixel(&half, 2, 1), 0);
    assert_eq!(pixel(&half, 0, 0), 5);
    let same = rotate_image(numbered(3, 2), 720);
    assert_eq!(same.data, numbered(3, 2).data);
}

#[test]
fn finished_prefetch_releases_without_counting_as_cancelled() {
    let mut requests = ViewerRequests::new();
    let key = request_key("done");
    let (id, lease, _) = requests.claim(&key, false);
    let mut leases = PrefetchLeases::new();
    let serial = leases.add(lease);
    requests.finish(id);
    leases.release(&mut requests, serial);
    assert!(!leases.is_cancelled(serial));
    assert_eq!(requests.request_for(&key), None);
    leases.cancel_lightbox_prefetch(&mut requests);
    assert!(leases.is_cancelled(serial));
}

#[test]
fn foreground_result_is_shown_cleared_or_dropped() {
    let shown = foreground_result_step(4, 4, false, true, false, false);
    assert_eq!(
        shown,
        ForegroundResultStep { discard: false, show: true, clear: false, keep_native: false, cache: true, fit: true, settle: true }
    );
    let native = foreground_result_step(4, 4, false, true, true, false);
    assert!(native.show && native.keep_native && !native.cache && !native.fit);
    let failed = foreground_result_step(4, 4, false, false, false, false);
    assert!(failed.clear && !failed.show && failed.settle);
    let moved_on = foreground_result_step(5, 4, false, true, false, false);
    assert!(moved_on.discard && !moved_on.show && !moved_on.settle);
    let cancelled = foreground_result_step(4, 4, true, true, false, false);
    assert!(cancelled.discard && cancelled.settle);
}
