//! Decisions of the photo viewer: stepping through photos, the wheel's
//! queued step, which neighbours to prefetch, the size to decode for, and
//! what trace output may show of a URI.
use vstd::prelude::*;

use crate::shares::scheme_separator;
use crate::text::{chars_of, extend, find_from, first_occurrence, last_char, rfind_char, slice_of, string_of};

verus! {

/// The photo after one step in `direction` from `current` among `len`
/// photos: back stops at the first, forward at the last; no direction (or
/// no photos, going forward) stays.
pub open spec fn spec_navigation_step(current: usize, direction: i32, len: usize) -> usize {
    if direction < 0 {
        if current == 0 {
            0
        } else {
            (current - 1) as usize
        }
    } else if direction > 0 && len > 0 {
        if current + 1 <= len - 1 {
            (current + 1) as usize
        } else {
            (len - 1) as usize
        }
    } else {
        current
    }
}

/// One step through the photos (see [`spec_navigation_step`]).
pub fn navigation_step(current: usize, direction: i32, len: usize) -> (next: usize)
    ensures
        next == spec_navigation_step(current, direction, len),
{
    if direction < 0 {
        current.saturating_sub(1)
    } else if direction > 0 && len > 0 {
        if current < len - 1 {
            current + 1
        } else {
            len - 1
        }
    } else {
        current
    }
}

/// Scroll-wheel navigation: steps queued while a photo loads accumulate on
/// the queued target rather than on the shown photo.
#[derive(Debug)]
pub struct WheelNavigationState {
    pub pending_target: Option<usize>,
    pub active_direction: i32,
}

impl Default for WheelNavigationState {
    fn default() -> (state: Self)
        ensures
            state.pending_target is None,
            state.active_direction == 0,
    {
        WheelNavigationState { pending_target: None, active_direction: 0 }
    }
}

impl WheelNavigationState {
    /// A new gesture in `direction`: nothing queued.
    pub fn begin(&mut self, direction: i32)
        ensures
            final(self).pending_target is None,
            final(self).active_direction == direction,
    {
        self.pending_target = None;
        self.active_direction = direction;
    }

    /// Queue one step from the queued target (or from `current` when none is
    /// queued). The new target is queued and returned when it differs from
    /// where the step started; otherwise nothing changes.
    pub fn queue_step(&mut self, current: usize, direction: i32, len: usize) -> (target: Option<usize>)
        ensures
            ({
                let base = match old(self).pending_target {
                    Some(t) => t,
                    None => current,
                };
                let next = spec_navigation_step(base, direction, len);
                &&& final(self).active_direction == old(self).active_direction
                &&& if next != base {
                    target == Some(next) && final(self).pending_target == Some(next)
                } else {
                    target is None && final(self).pending_target == old(self).pending_target
                }
            }),
    {
        let base = match self.pending_target {
            Some(t) => t,
            None => current,
        };
        let target = navigation_step(base, direction, len);
        if target != base {
            self.pending_target = Some(target);
            Some(target)
        } else {
            None
        }
    }

    /// End the gesture: hand out the queued target and clear it.
    pub fn take_pending_target(&mut self) -> (target: Option<usize>)
        ensures
            target == old(self).pending_target,
            final(self).pending_target is None,
            final(self).active_direction == 0,
    {
        self.active_direction = 0;
        let target = self.pending_target;
        self.pending_target = None;
        target
    }

    /// Drop the gesture and its queued target.
    pub fn cancel(&mut self)
        ensures
            final(self).pending_target is None,
            final(self).active_direction == 0,
    {
        self.pending_target = None;
        self.active_direction = 0;
    }
}

/// Whether a decode started for generation `expected` still belongs to the
/// shown photo.
pub fn viewer_generation_current(current: u64, expected: u64) -> (b: bool)
    ensures
        b == (current == expected),
{
    current == expected
}

/// A URI as trace output may show it: the part after the last `@` of what
/// follows `://` (any user information dropped); a URI without `://` as is.
pub open spec fn spec_trace_uri(u: Seq<char>) -> Seq<char> {
    match first_occurrence(u, scheme_separator(), 0) {
        None => u,
        Some(i) => {
            let rest = u.skip(i + 3);
            let safe = match last_char(rest, '@') {
                Some(k) => rest.skip(k + 1),
                None => rest,
            };
            u.take(i) + scheme_separator() + safe
        },
    }
}

/// A URI without user information, for trace output.
pub fn viewer_trace_uri(uri: &str) -> (safe: String)
    ensures
        safe@ == spec_trace_uri(uri@),
{
    let u = chars_of(uri);
    let sep = vec![':', '/', '/'];
    assert(sep@ =~= scheme_separator());
    let i = match find_from(&u, &sep, 0) {
        Some(i) => i,
        None => return string_of(&u),
    };
    assert(u@.len() == u.len());
    let rest = slice_of(&u, i + 3, u.len());
    assert(rest@ =~= u@.skip(i + 3));
    let safe = match rfind_char(&rest, '@') {
        Some(k) => {
            assert(k < rest@.len());
            let s = slice_of(&rest, k + 1, rest.len());
            assert(s@ =~= rest@.skip(k + 1));
            s
        },
        None => rest,
    };
    let mut out = slice_of(&u, 0, i);
    assert(out@ =~= u@.take(i as int));
    extend(&mut out, &sep);
    extend(&mut out, &safe);
    string_of(&out)
}

/// The neighbours warmed after the viewer settles on `current` of `len`
/// photos: the one in the direction of travel first, then the other; those
/// past either end are left out.
pub open spec fn spec_prefetch_targets(current: usize, direction: i32, len: usize) -> Seq<usize> {
    let previous: Seq<usize> = if current >= 1 {
        seq![(current - 1) as usize]
    } else {
        Seq::empty()
    };
    let next: Seq<usize> = if current + 1 < len {
        seq![(current + 1) as usize]
    } else {
        Seq::empty()
    };
    if direction < 0 {
        previous + next
    } else {
        next + previous
    }
}

/// The neighbours to prefetch (see [`spec_prefetch_targets`]).
pub fn prefetch_targets(current: usize, direction: i32, len: usize) -> (targets: Vec<usize>)
    ensures
        targets@ == spec_prefetch_targets(current, direction, len),
{
    let mut previous: Vec<usize> = Vec::new();
    if current >= 1 {
        previous.push(current - 1);
    }
    let mut next: Vec<usize> = Vec::new();
    if current < usize::MAX && current + 1 < len {
        next.push(current + 1);
    }
    let mut targets: Vec<usize> = Vec::new();
    if direction < 0 {
        targets.append(&mut previous);
        targets.append(&mut next);
    } else {
        targets.append(&mut next);
        targets.append(&mut previous);
    }
    targets
}

/// Whether a rotation in degrees is a quarter turn (90 or 270, modulo 360).
pub open spec fn is_quarter_turn(rotation: i32) -> bool {
    rotation % 360 == 90 || rotation % 360 == 270
}

/// Whether a rotation swaps the axes of an image.
pub fn quarter_turn(rotation: i32) -> (b: bool)
    ensures
        b == is_quarter_turn(rotation),
{
    match rotation.checked_rem_euclid(360) {
        Some(r) => r == 90 || r == 270,
        None => false,
    }
}

/// The size a viewer decode asks for and the geometry it was derived from.
#[derive(Debug, Clone, Copy, PartialEq, Eq)]
pub struct DecodeTarget {
    pub target_width: u32,
    pub target_height: u32,
    pub logical_width: i32,
    pub logical_height: i32,
    pub scale_factor: i32,
    pub fallback: bool,
}

/// `a * b` saturated at `u32::MAX`.
pub open spec fn saturating_product(a: u32, b: u32) -> u32 {
    if a * b > u32::MAX {
        u32::MAX
    } else {
        (a * b) as u32
    }
}

/// The decode size for a viewer of `width` x `height` logical pixels (1024
/// x 768 before the first allocation) at `scale_factor` device pixels per
/// logical pixel (at least 1): unbounded at 1:1, swapped for a quarter
/// turn, at least 1 each way.
pub open spec fn spec_decode_target(
    width: i32,
    height: i32,
    scale_factor: i32,
    rotation: i32,
    one_to_one: bool,
) -> DecodeTarget {
    let fallback = width <= 0 || height <= 0;
    let lw: i32 = if fallback { 1024 } else { width };
    let lh: i32 = if fallback { 768 } else { height };
    let scale: i32 = if scale_factor < 1 { 1 } else { scale_factor };
    let w: u32 = if one_to_one { u32::MAX } else { saturating_product(lw as u32, scale as u32) };
    let h: u32 = if one_to_one { u32::MAX } else { saturating_product(lh as u32, scale as u32) };
    let (tw, th) = if is_quarter_turn(rotation) { (h, w) } else { (w, h) };
    DecodeTarget {
        target_width: if tw < 1 { 1 } else { tw },
        target_height: if th < 1 { 1 } else { th },
        logical_width: lw,
        logical_height: lh,
        scale_factor: scale,
        fallback,
    }
}

fn saturating_mul_u32(a: u32, b: u32) -> (p: u32)
    ensures
        p == saturating_product(a, b),
{
    if b != 0 && a > u32::MAX / b {
        assert(a * b > u32::MAX) by (nonlinear_arith)
            requires
                b != 0,
                a > u32::MAX / b,
        ;
        u32::MAX
    } else {
        assert(a * b <= u32::MAX) by (nonlinear_arith)
            requires
                b == 0 || a <= u32::MAX / b,
        ;
        a * b
    }
}

/// The decode size for the viewer (see [`spec_decode_target`]), from the
/// viewer's allocated size and scale factor.
pub fn viewer_decode_target(
    width: i32,
    height: i32,
    scale_factor: i32,
    rotation: i32,
    one_to_one: bool,
) -> (target: DecodeTarget)
    ensures
        target == spec_decode_target(width, height, scale_factor, rotation, one_to_one),
{
    let fallback = width <= 0 || height <= 0;
    let lw: i32 = if fallback { 1024 } else { width };
    let lh: i32 = if fallback { 768 } else { height };
    let scale: i32 = if scale_factor < 1 { 1 } else { scale_factor };
    let w: u32 = if one_to_one { u32::MAX } else { saturating_mul_u32(lw as u32, scale as u32) };
    let h: u32 = if one_to_one { u32::MAX } else { saturating_mul_u32(lh as u32, scale as u32) };
    let (tw, th) = if quarter_turn(rotation) { (h, w) } else { (w, h) };
    DecodeTarget {
        target_width: if tw < 1 { 1 } else { tw },
        target_height: if th < 1 { 1 } else { th },
        logical_width: lw,
        logical_height: lh,
        scale_factor: scale,
        fallback,
    }
}

/// Whether a queued decode may start: someone still wants it, and while a
/// foreground decode is outstanding only a foreground request may run.
pub fn decode_admitted(has_consumers: bool, foreground_generation: u64, foreground: bool) -> (b: bool)
    ensures
        b == (has_consumers && (foreground_generation == 0 || foreground)),
{
    has_consumers && !(foreground_generation != 0 && !foreground)
}

/// Whether a finished decode is stale for the shown photo: the viewer moved
/// on to another generation, or its lease was cancelled.
pub fn decode_stale(current: u64, expected: u64, cancelled: bool) -> (b: bool)
    ensures
        b == (current != expected || cancelled),
{
    !viewer_generation_current(current, expected) || cancelled
}


/// What the viewer does when a foreground decode comes back.
#[derive(Debug, Clone, Copy, PartialEq, Eq, Structural)]
pub struct ForegroundResultStep {
    /// The result is stale and is dropped unseen.
    pub discard: bool,
    /// The decoded texture becomes the shown picture.
    pub show: bool,
    /// The picture is emptied (a failed decode must not leave the previous
    /// photo on screen).
    pub clear: bool,
    /// The texture is kept as the native-size texture (1:1 view).
    pub keep_native: bool,
    /// The texture goes into the display cache (fitted view).
    pub cache: bool,
    /// The picture is fitted to the window again.
    pub fit: bool,
    /// Navigation is marked ready and settled.
    pub settle: bool,
}

/// The step for a foreground decode that finished with `ok` (a texture)
/// or not, while the viewer is at generation `current` and the decode was
/// for `expected`: a stale result (other generation, or cancelled lease) is
/// dropped, and navigation settles only if the generation is still the
/// decode's; a current one is shown (kept as the native texture in 1:1
/// view, else cached and fitted unless the geometry is fixed) or, on
/// failure, clears the picture; navigation then settles.
pub open spec fn spec_foreground_result_step(
    current: u64,
    expected: u64,
    cancelled: bool,
    ok: bool,
    one_to_one: bool,
    geometry_fixed: bool,
) -> ForegroundResultStep {
    if current != expected || cancelled {
        ForegroundResultStep {
            discard: true,
            show: false,
            clear: false,
            keep_native: false,
            cache: false,
            fit: false,
            settle: current == expected,
        }
    } else if ok {
        ForegroundResultStep {
            discard: false,
            show: true,
            clear: false,
            keep_native: one_to_one,
            cache: !one_to_one,
            fit: !one_to_one && !geometry_fixed,
            settle: true,
        }
    } else {
        ForegroundResultStep {
            discard: false,
            show: false,
            clear: true,
            keep_native: false,
            cache: false,
            fit: false,
            settle: true,
        }
    }
}

/// What to do with a finished foreground decode (see
/// [`spec_foreground_result_step`]); its lease is released in every case.
pub fn foreground_result_step(
    current: u64,
    expected: u64,
    cancelled: bool,
    ok: bool,
    one_to_one: bool,
    geometry_fixed: bool,
) -> (step: ForegroundResultStep)
    ensures
        step == spec_foreground_result_step(current, expected, cancelled, ok, one_to_one, geometry_fixed),
{
    if decode_stale(current, expected, cancelled) {
        ForegroundResultStep {
            discard: true,
            show: false,
            clear: false,
            keep_native: false,
            cache: false,
            fit: false,
            settle: viewer_generation_current(current, expected),
        }
    } else if ok {
        ForegroundResultStep {
            discard: false,
            show: true,
            clear: false,
            keep_native: one_to_one,
            cache: !one_to_one,
            fit: !one_to_one && !geometry_fixed,
            settle: true,
        }
    } else {
        ForegroundResultStep {
            discard: false,
            show: false,
            clear: true,
            keep_native: false,
            cache: false,
            fit: false,
            settle: true,
        }
    }
}

/// How many full-resolution decodes the viewer runs at once.
pub const MAX_CONCURRENT_VIEWER_DECODES: usize = 3;

/// What a decode asking for a slot does next.
#[derive(Debug, Clone, Copy, PartialEq, Eq, Structural)]
pub enum PermitStep {
    /// It holds a slot and may decode.
    Granted,
    /// Every slot is taken: wait for one to come back and ask again.
    Wait,
    /// Its request was dropped: stop without a slot.
    GiveUp,
}

/// The slot pool that bounds the viewer's concurrent decodes: how many
/// slots there are and how many are free.
#[derive(Debug)]
pub struct DecodePermits {
    permits: usize,
    available: usize,
}

/// The number of free slots after one request for a slot, and its answer.
pub open spec fn spec_acquire(available: usize, keep_running: bool) -> (PermitStep, usize) {
    if !keep_running {
        (PermitStep::GiveUp, available)
    } else if available == 0 {
        (PermitStep::Wait, available)
    } else {
        (PermitStep::Granted, (available - 1) as usize)
    }
}

/// The number of free slots after a slot comes back.
pub open spec fn spec_release(available: usize) -> usize {
    (available + 1) as usize
}

impl DecodePermits {
    /// The number of slots.
    pub closed spec fn capacity(&self) -> usize {
        self.permits
    }

    /// The number of free slots.
    pub closed spec fn free(&self) -> usize {
        self.available
    }

    /// No more slots are free than exist.
    pub closed spec fn wf(&self) -> bool {
        self.available <= self.permits
    }

    /// A pool of `permits` slots, all free.
    pub fn new(permits: usize) -> (pool: DecodePermits)
        ensures
            pool.wf(),
            pool.capacity() == permits,
            pool.free() == permits,
    {
        DecodePermits { permits, available: permits }
    }

    /// The number of decodes holding a slot.
    pub fn in_flight(&self) -> (n: usize)
        requires
            self.wf(),
        ensures
            n == self.capacity() - self.free(),
            n <= self.capacity(),
    {
        self.permits - self.available
    }

    /// One request for a slot: give up when the request no longer runs,
    /// wait when no slot is free, else take one.
    pub fn try_acquire(&mut self, keep_running: bool) -> (step: PermitStep)
        requires
            old(self).wf(),
        ensures
            final(self).wf(),
            final(self).capacity() == old(self).capacity(),
            (step, final(self).free()) == spec_acquire(old(self).free(), keep_running),
    {
        if !keep_running {
            return PermitStep::GiveUp;
        }
        if self.available == 0 {
            return PermitStep::Wait;
        }
        self.available = self.available - 1;
        PermitStep::Granted
    }

    /// A decode hands its slot back.
    pub fn release(&mut self)
        requires
            old(self).wf(),
            old(self).free() < old(self).capacity(),
        ensures
            final(self).wf(),
            final(self).capacity() == old(self).capacity(),
            final(self).free() == spec_release(old(self).free()),
    {
        self.available = self.available + 1;
    }
}

/// A granted slot handed back restores the free count, and no request is
/// granted while every slot is taken: at most the pool's capacity of
/// decodes run at once.
pub proof fn lemma_permit_round_trip(permits: usize, available: usize, keep_running: bool)
    requires
        available <= permits,
    ensures
        spec_acquire(available, keep_running).0 == PermitStep::Granted ==> spec_release(
            spec_acquire(available, keep_running).1,
        ) == available,
        available == 0 ==> spec_acquire(available, keep_running).0 != PermitStep::Granted,
        spec_acquire(available, keep_running).1 <= permits,
{
}


/// How the viewer scales the shown photo: fitted to the window, or at one
/// photo pixel per screen pixel.
#[derive(Debug, Clone, Copy, PartialEq, Eq, Structural)]
pub enum ZoomMode {
    Fit,
    OneToOne,
}

/// What the viewer's window does after an operation.
#[derive(Debug, Clone, Copy, PartialEq, Eq, Structural)]
pub enum ViewerAction {
    /// Nothing to do.
    Nothing,
    /// Show the photo at `index` and start decoding it, tagged with
    /// `generation`.
    Show { index: usize, generation: u64 },
    /// Put the already decoded full-size picture back at one-to-one.
    ReuseNative,
    /// Scale the current picture again for the zoom mode.
    Refit,
    /// Hand the step to the collection (the previous or next album).
    Collection(i32),
}

/// The photo viewer's state: how many photos it steps through and which
/// one is shown, the zoom, whether it is open, and the generation that
/// tags the decode whose result may still be shown.
#[derive(Debug, Clone, Copy, PartialEq, Eq, Structural)]
pub struct ViewerState {
    pub len: usize,
    pub index: usize,
    pub zoom: ZoomMode,
    pub zoom_before_one_to_one: ZoomMode,
    pub one_to_one: bool,
    pub generation: u64,
    pub visible: bool,
}

/// The next generation: one more, wrapping.
pub open spec fn next_generation(g: u64) -> u64 {
    if g == u64::MAX { 0 } else { (g + 1) as u64 }
}

impl ViewerState {
    /// The shown photo exists when there are photos, and one-to-one mode
    /// is on exactly when the zoom is one-to-one (the zoom it returns to is
    /// always the fitted one).
    pub open spec fn wf(self) -> bool {
        &&& self.len > 0 ==> self.index < self.len
        &&& self.one_to_one == (self.zoom == ZoomMode::OneToOne)
        &&& self.zoom_before_one_to_one == ZoomMode::Fit
    }

    /// A closed viewer with no photos.
    pub fn new() -> (v: ViewerState)
        ensures
            v.wf(),
            v == (ViewerState {
                len: 0,
                index: 0,
                zoom: ZoomMode::Fit,
                zoom_before_one_to_one: ZoomMode::Fit,
                one_to_one: false,
                generation: 0,
                visible: false,
            }),
    {
        ViewerState {
            len: 0,
            index: 0,
            zoom: ZoomMode::Fit,
            zoom_before_one_to_one: ZoomMode::Fit,
            one_to_one: false,
            generation: 0,
            visible: false,
        }
    }

    /// Opens `len` photos at `selected` (the last one when past the end),
    /// fitted, with a new generation; with no photos only the list is
    /// taken.
    pub fn open(&mut self, len: usize, selected: usize) -> (action: ViewerAction)
        requires
            old(self).wf(),
        ensures
            final(self).wf(),
            len == 0 ==> *final(self) == (ViewerState { len: 0, ..*old(self) }) && action
                == ViewerAction::Nothing,
            len > 0 ==> {
                &&& final(self).len == len
                &&& final(self).index == if selected < len { selected as int } else { len - 1 }
                &&& final(self).zoom == ZoomMode::Fit
                &&& !final(self).one_to_one
                &&& final(self).visible
                &&& final(self).generation == next_generation(old(self).generation)
                &&& action == (ViewerAction::Show { index: final(self).index, generation: final(self).generation })
            },
    {
        self.len = len;
        if len == 0 {
            return ViewerAction::Nothing;
        }
        self.index = if selected < len { selected } else { len - 1 };
        self.zoom = ZoomMode::Fit;
        self.zoom_before_one_to_one = ZoomMode::Fit;
        self.one_to_one = false;
        self.generation = self.generation.wrapping_add(1);
        self.visible = true;
        ViewerAction::Show { index: self.index, generation: self.generation }
    }

    /// Steps to the previous (negative) or next (positive) photo of an open
    /// viewer; at either end, or with no direction, nothing happens.
    pub fn navigate_photo(&mut self, direction: i32) -> (action: ViewerAction)
        requires
            old(self).wf(),
        ensures
            final(self).wf(),
            ({
                let next = spec_navigation_step(old(self).index, direction, old(self).len);
                if !old(self).visible || old(self).len == 0 || next == old(self).index {
                    *final(self) == *old(self) && action == ViewerAction::Nothing
                } else {
                    &&& *final(self) == (ViewerState {
                        index: next,
                        zoom: ZoomMode::Fit,
                        one_to_one: false,
                        generation: next_generation(old(self).generation),
                        ..*old(self)
                    })
                    &&& action == (ViewerAction::Show { index: next, generation: final(self).generation })
                }
            }),
    {
        if !self.visible || self.len == 0 {
            return ViewerAction::Nothing;
        }
        let next = navigation_step(self.index, direction, self.len);
        if next == self.index {
            return ViewerAction::Nothing;
        }
        self.index = next;
        self.zoom = ZoomMode::Fit;
        self.one_to_one = false;
        self.generation = self.generation.wrapping_add(1);
        ViewerAction::Show { index: next, generation: self.generation }
    }

    /// Hands a step to the collection when the viewer is open and there is
    /// a direction.
    pub fn navigate_collection(&self, direction: i32) -> (action: ViewerAction)
        ensures
            action == if self.visible && direction != 0 {
                ViewerAction::Collection(direction)
            } else {
                ViewerAction::Nothing
            },
    {
        if self.visible && direction != 0 {
            ViewerAction::Collection(direction)
        } else {
            ViewerAction::Nothing
        }
    }

    /// Decodes the shown photo again (after its rotation or edits change),
    /// with a new generation, when the viewer is open with photos.
    pub fn refresh_current(&mut self) -> (action: ViewerAction)
        requires
            old(self).wf(),
        ensures
            final(self).wf(),
            if !old(self).visible || old(self).len == 0 {
                *final(self) == *old(self) && action == ViewerAction::Nothing
            } else {
                &&& *final(self) == (ViewerState { generation: next_generation(old(self).generation), ..*old(self) })
                &&& action == (ViewerAction::Show { index: old(self).index, generation: final(self).generation })
            },
    {
        if !self.visible || self.len == 0 {
            return ViewerAction::Nothing;
        }
        self.generation = self.generation.wrapping_add(1);
        ViewerAction::Show { index: self.index, generation: self.generation }
    }

    /// Turns one-to-one mode on or off. On, the full-size picture already
    /// decoded for this photo is reused when `native_matches`, else the
    /// photo is decoded again; off, the fitted zoom returns.
    pub fn set_one_to_one(&mut self, enabled: bool, native_matches: bool) -> (action: ViewerAction)
        requires
            old(self).wf(),
        ensures
            final(self).wf(),
            old(self).one_to_one == enabled ==> *final(self) == *old(self) && action == ViewerAction::Nothing,
            old(self).one_to_one != enabled && !enabled ==> *final(self) == (ViewerState {
                one_to_one: false,
                zoom: ZoomMode::Fit,
                ..*old(self)
            }) && action == ViewerAction::Refit,
            old(self).one_to_one != enabled && enabled && native_matches ==> *final(self) == (ViewerState {
                one_to_one: true,
                zoom: ZoomMode::OneToOne,
                ..*old(self)
            }) && action == ViewerAction::ReuseNative,
            old(self).one_to_one != enabled && enabled && !native_matches ==> {
                let on = ViewerState { one_to_one: true, zoom: ZoomMode::OneToOne, ..*old(self) };
                if !on.visible || on.len == 0 {
                    *final(self) == on && action == ViewerAction::Nothing
                } else {
                    &&& *final(self) == (ViewerState { generation: next_generation(on.generation), ..on })
                    &&& action == (ViewerAction::Show { index: on.index, generation: final(self).generation })
                }
            },
    {
        if self.one_to_one == enabled {
            return ViewerAction::Nothing;
        }
        self.one_to_one = enabled;
        if enabled {
            if self.zoom != ZoomMode::OneToOne {
                self.zoom_before_one_to_one = self.zoom;
                self.zoom = ZoomMode::OneToOne;
            }
            if native_matches {
                return ViewerAction::ReuseNative;
            }
            self.refresh_current()
        } else {
            if self.zoom == ZoomMode::OneToOne {
                self.zoom = self.zoom_before_one_to_one;
            }
            ViewerAction::Refit
        }
    }

    /// Closes the viewer: fitted zoom, and a new generation, so that no
    /// decode started before closing is shown afterwards.
    pub fn close(&mut self)
        requires
            old(self).wf(),
        ensures
            final(self).wf(),
            *final(self) == (ViewerState {
                visible: false,
                one_to_one: false,
                zoom: ZoomMode::Fit,
                generation: next_generation(old(self).generation),
                ..*old(self)
            }),
            final(self).generation != old(self).generation,
    {
        self.generation = self.generation.wrapping_add(1);
        self.one_to_one = false;
        self.zoom = ZoomMode::Fit;
        self.visible = false;
    }

    /// Whether a decode tagged `generation` may still be shown.
    pub fn decode_current(&self, generation: u64) -> (b: bool)
        ensures
            b == (generation == self.generation),
    {
        viewer_generation_current(self.generation, generation)
    }
}

/// Every operation that changes the shown photo or closes the viewer
/// starts a new generation, so a decode begun before it is no longer
/// current afterwards.
pub proof fn lemma_new_generation_retires_old_decodes(g: u64)
    ensures
        next_generation(g) != g,
{
}

} // verus!
