//! The viewer's registry of in-flight decode requests. Requests for the same
//! key share one decode: a later claim joins it (a foreground claim promotes
//! a prefetch), every claim holds a lease, and a request leaves the registry
//! once it has finished and its last lease is gone.
use vstd::prelude::*;

use crate::text::{chars_of, same_chars};

verus! {

/// What a viewer decode is for: the photo (path, size, modification time),
/// its presentation (rotation, edits) and the decoded size.
#[derive(Debug, Clone)]
pub struct ViewerRequestKey {
    pub path: String,
    pub mtime: i64,
    pub size_bytes: i64,
    pub rotation: i32,
    pub edit_recipe: String,
    pub target_width: u32,
    pub target_height: u32,
}

/// Plain-value view of a [`ViewerRequestKey`].
pub struct KeyView {
    pub path: Seq<char>,
    pub mtime: i64,
    pub size_bytes: i64,
    pub rotation: i32,
    pub edit_recipe: Seq<char>,
    pub target_width: u32,
    pub target_height: u32,
}

impl ViewerRequestKey {
    pub open spec fn view(&self) -> KeyView {
        KeyView {
            path: self.path@,
            mtime: self.mtime,
            size_bytes: self.size_bytes,
            rotation: self.rotation,
            edit_recipe: self.edit_recipe@,
            target_width: self.target_width,
            target_height: self.target_height,
        }
    }
}

/// A copy of a key.
pub fn copy_key(key: &ViewerRequestKey) -> (c: ViewerRequestKey)
    ensures
        c == *key,
{
    ViewerRequestKey {
        path: key.path.clone(),
        mtime: key.mtime,
        size_bytes: key.size_bytes,
        rotation: key.rotation,
        edit_recipe: key.edit_recipe.clone(),
        target_width: key.target_width,
        target_height: key.target_height,
    }
}

/// Whether two keys are equal.
pub fn same_key(a: &ViewerRequestKey, b: &ViewerRequestKey) -> (same: bool)
    ensures
        same == (a.view() == b.view()),
{
    a.mtime == b.mtime && a.size_bytes == b.size_bytes && a.rotation == b.rotation && a.target_width
        == b.target_width && a.target_height == b.target_height && same_chars(
        &chars_of(a.path.as_str()),
        &chars_of(b.path.as_str()),
    ) && same_chars(&chars_of(a.edit_recipe.as_str()), &chars_of(b.edit_recipe.as_str()))
}

/// One in-flight request: its identity, key, the number of unreleased
/// leases, whether a foreground claim holds it, and whether its decode has
/// finished.
#[derive(Debug)]
pub struct RequestRecord {
    pub id: u64,
    pub key: ViewerRequestKey,
    pub consumers: usize,
    pub foreground: bool,
    pub finished: bool,
}

/// Plain-value view of a [`RequestRecord`].
pub struct RecordView {
    pub id: u64,
    pub key: KeyView,
    pub consumers: usize,
    pub foreground: bool,
    pub finished: bool,
}

impl RequestRecord {
    pub open spec fn view(&self) -> RecordView {
        RecordView {
            id: self.id,
            key: self.key.view(),
            consumers: self.consumers,
            foreground: self.foreground,
            finished: self.finished,
        }
    }
}

/// How a claim got its request.
#[derive(Debug, Clone, Copy, PartialEq, Eq, Structural)]
pub enum ViewerRequestClaim {
    /// No request had the key: a new one was made and must be started.
    New,
    /// The request was already in flight for the foreground, or the claim
    /// is a prefetch.
    JoinedForeground,
    /// A foreground claim took over a request that only prefetches held.
    PromotedPrefetch,
}

/// A claim's hold on a request.
#[derive(Debug)]
pub struct ViewerRequestLease {
    pub key: ViewerRequestKey,
    pub request: u64,
    pub cancelled: bool,
    pub released: bool,
}

/// Plain-value view of the registry: the live requests and the next id.
pub struct RegistryView {
    pub records: Seq<RecordView>,
    pub next_id: u64,
}

/// The registry of in-flight viewer requests.
pub struct ViewerRequests {
    records: Vec<RequestRecord>,
    next_id: u64,
}

/// Records of the registry view.
pub open spec fn records_view(records: Seq<RequestRecord>) -> Seq<RecordView> {
    records.map_values(|r: RequestRecord| r.view())
}

/// A registry in order: ids distinct and below the next id, keys distinct,
/// and no finished request without leases left behind.
pub open spec fn registry_wf(r: RegistryView) -> bool {
    &&& forall|i: int| 0 <= i < r.records.len() ==> #[trigger] r.records[i].id < r.next_id
    &&& forall|i: int, j: int|
        0 <= i < j < r.records.len() ==> #[trigger] r.records[i].id != #[trigger] r.records[j].id
    &&& forall|i: int, j: int|
        0 <= i < j < r.records.len() ==> #[trigger] r.records[i].key != #[trigger] r.records[j].key
    &&& forall|i: int|
        0 <= i < r.records.len() ==> !(#[trigger] r.records[i].consumers == 0 && r.records[i].finished)
}

/// Position of the request with `key`.
pub open spec fn key_index(records: Seq<RecordView>, key: KeyView) -> Option<int> {
    if exists|i: int| 0 <= i < records.len() && #[trigger] records[i].key == key {
        Some(choose|i: int| 0 <= i < records.len() && #[trigger] records[i].key == key)
    } else {
        None
    }
}

/// Position of the request with identity `id`.
pub open spec fn id_index(records: Seq<RecordView>, id: u64) -> Option<int> {
    if exists|i: int| 0 <= i < records.len() && #[trigger] records[i].id == id {
        Some(choose|i: int| 0 <= i < records.len() && #[trigger] records[i].id == id)
    } else {
        None
    }
}

/// A claim for `key`: join the request in flight for it (counting one more
/// lease, foreground if either is), or make a new one with one lease.
pub open spec fn spec_claim(r: RegistryView, key: KeyView, foreground: bool) -> (
    RegistryView,
    u64,
    ViewerRequestClaim,
) {
    match key_index(r.records, key) {
        Some(i) => {
            let rec = r.records[i];
            let joined = RecordView {
                consumers: (rec.consumers + 1) as usize,
                foreground: rec.foreground || foreground,
                ..rec
            };
            (
                RegistryView { records: r.records.update(i, joined), next_id: r.next_id },
                rec.id,
                if foreground && !rec.foreground {
                    ViewerRequestClaim::PromotedPrefetch
                } else {
                    ViewerRequestClaim::JoinedForeground
                },
            )
        },
        None => (
            RegistryView {
                records: r.records.push(
                    RecordView { id: r.next_id, key, consumers: 1, foreground, finished: false },
                ),
                next_id: (r.next_id + 1) as u64,
            },
            r.next_id,
            ViewerRequestClaim::New,
        ),
    }
}

/// One lease of request `id` released: one consumer less; a finished
/// request whose last lease goes leaves the registry.
pub open spec fn spec_release(r: RegistryView, id: u64) -> RegistryView {
    match id_index(r.records, id) {
        None => r,
        Some(i) => {
            let rec = r.records[i];
            if rec.consumers == 0 {
                r
            } else if rec.consumers == 1 && rec.finished {
                RegistryView { records: r.records.remove(i), next_id: r.next_id }
            } else {
                RegistryView {
                    records: r.records.update(i, RecordView { consumers: (rec.consumers - 1) as usize, ..rec }),
                    next_id: r.next_id,
                }
            }
        },
    }
}

/// The decode of request `id` finished: with no lease left it leaves the
/// registry, else it is marked finished.
pub open spec fn spec_finish(r: RegistryView, id: u64) -> RegistryView {
    match id_index(r.records, id) {
        None => r,
        Some(i) => {
            let rec = r.records[i];
            if rec.consumers == 0 {
                RegistryView { records: r.records.remove(i), next_id: r.next_id }
            } else {
                RegistryView { records: r.records.update(i, RecordView { finished: true, ..rec }), next_id: r.next_id }
            }
        },
    }
}

/// Whether request `id` is in the registry with at least one lease.
pub open spec fn spec_has_consumers(r: RegistryView, id: u64) -> bool {
    match id_index(r.records, id) {
        Some(i) => r.records[i].consumers > 0,
        None => false,
    }
}

/// Whether a claim can be counted without overflow.
pub open spec fn claim_fits(r: RegistryView) -> bool {
    &&& r.next_id < u64::MAX
    &&& forall|i: int| 0 <= i < r.records.len() ==> #[trigger] r.records[i].consumers < usize::MAX
}

proof fn lemma_id_index(records: Seq<RecordView>, i: int)
    requires
        0 <= i < records.len(),
        forall|a: int, b: int| 0 <= a < b < records.len() ==> #[trigger] records[a].id != #[trigger] records[b].id,
    ensures
        id_index(records, records[i].id) == Some(i),
{
    let k = choose|k: int| 0 <= k < records.len() && #[trigger] records[k].id == records[i].id;
    if k < i {
        assert(records[k].id != records[i].id);
    } else if k > i {
        assert(records[i].id != records[k].id);
    }
}

proof fn lemma_key_index(records: Seq<RecordView>, i: int)
    requires
        0 <= i < records.len(),
        forall|a: int, b: int| 0 <= a < b < records.len() ==> #[trigger] records[a].key != #[trigger] records[b].key,
    ensures
        key_index(records, records[i].key) == Some(i),
{
    let k = choose|k: int| 0 <= k < records.len() && #[trigger] records[k].key == records[i].key;
    if k < i {
        assert(records[k].key != records[i].key);
    } else if k > i {
        assert(records[i].key != records[k].key);
    }
}

impl ViewerRequestLease {
    /// Whether the lease was cancelled.
    pub fn cancelled(&self) -> (b: bool)
        ensures
            b == self.cancelled,
    {
        self.cancelled
    }
}

impl ViewerRequests {
    pub closed spec fn view(&self) -> RegistryView {
        RegistryView { records: records_view(self.records@), next_id: self.next_id }
    }

    /// An empty registry.
    pub fn new() -> (r: Self)
        ensures
            r.view().records.len() == 0,
            r.view().next_id == 0,
            registry_wf(r.view()),
    {
        ViewerRequests { records: Vec::new(), next_id: 0 }
    }

    fn find_key(&self, key: &ViewerRequestKey) -> (found: Option<usize>)
        requires
            registry_wf(self.view()),
        ensures
            match found {
                Some(i) => key_index(self.view().records, key.view()) == Some(i as int),
                None => key_index(self.view().records, key.view()) is None,
            },
    {
        let ghost rv = self.view().records;
        let mut i: usize = 0;
        while i < self.records.len()
            invariant
                0 <= i <= self.records@.len(),
                rv == self.view().records,
                registry_wf(self.view()),
                forall|j: int| 0 <= j < i ==> #[trigger] rv[j].key != key.view(),
            decreases self.records@.len() - i,
        {
            assert(rv[i as int] == self.records@[i as int].view());
            if same_key(&self.records[i].key, key) {
                proof {
                    lemma_key_index(rv, i as int);
                }
                return Some(i);
            }
            i += 1;
        }
        None
    }

    fn find_id(&self, id: u64) -> (found: Option<usize>)
        requires
            registry_wf(self.view()),
        ensures
            match found {
                Some(i) => id_index(self.view().records, id) == Some(i as int),
                None => id_index(self.view().records, id) is None,
            },
    {
        let ghost rv = self.view().records;
        let mut i: usize = 0;
        while i < self.records.len()
            invariant
                0 <= i <= self.records@.len(),
                rv == self.view().records,
                registry_wf(self.view()),
                forall|j: int| 0 <= j < i ==> #[trigger] rv[j].id != id,
            decreases self.records@.len() - i,
        {
            assert(rv[i as int] == self.records@[i as int].view());
            if self.records[i].id == id {
                proof {
                    lemma_id_index(rv, i as int);
                }
                return Some(i);
            }
            i += 1;
        }
        None
    }

    /// Claim the request for `key` (see [`spec_claim`]) and a lease on it.
    pub fn claim(&mut self, key: &ViewerRequestKey, foreground: bool) -> (result: (
        u64,
        ViewerRequestLease,
        ViewerRequestClaim,
    ))
        requires
            registry_wf(old(self).view()),
            claim_fits(old(self).view()),
        ensures
            registry_wf(final(self).view()),
            (final(self).view(), result.0, result.2) == spec_claim(old(self).view(), key.view(), foreground),
            result.1.key == *key,
            result.1.request == result.0,
            !result.1.cancelled,
            !result.1.released,
    {
        let ghost before = self.view();
        match self.find_key(key) {
            Some(i) => {
                let rec = self.records.remove(i);
                let id = rec.id;
                let was_foreground = rec.foreground;
                let joined = RequestRecord {
                    id: rec.id,
                    key: rec.key,
                    consumers: rec.consumers + 1,
                    foreground: rec.foreground || foreground,
                    finished: rec.finished,
                };
                self.records.insert(i, joined);
                proof {
                    assert(records_view(self.records@) =~= before.records.update(
                        i as int,
                        RecordView {
                            consumers: (before.records[i as int].consumers + 1) as usize,
                            foreground: before.records[i as int].foreground || foreground,
                            ..before.records[i as int]
                        },
                    ));
                }
                let claim = if foreground && !was_foreground {
                    ViewerRequestClaim::PromotedPrefetch
                } else {
                    ViewerRequestClaim::JoinedForeground
                };
                (id, ViewerRequestLease { key: copy_key(key), request: id, cancelled: false, released: false }, claim)
            },
            None => {
                let id = self.next_id;
                let rec = RequestRecord { id, key: copy_key(key), consumers: 1, foreground, finished: false };
                self.records.push(rec);
                self.next_id = self.next_id + 1;
                proof {
                    let nv = self.view().records;
                    assert(nv =~= before.records.push(
                        RecordView { id, key: key.view(), consumers: 1, foreground, finished: false },
                    ));
                    assert forall|a: int, b: int| 0 <= a < b < nv.len() implies #[trigger] nv[a].key
                        != #[trigger] nv[b].key by {
                        if b == nv.len() - 1 {
                            assert(nv[a] == before.records[a]);
                        }
                    }
                }
                (id, ViewerRequestLease { key: copy_key(key), request: id, cancelled: false, released: false }, ViewerRequestClaim::New)
            },
        }
    }

    fn release_request(&mut self, id: u64)
        requires
            registry_wf(old(self).view()),
        ensures
            registry_wf(final(self).view()),
            final(self).view() == spec_release(old(self).view(), id),
    {
        let ghost before = self.view();
        match self.find_id(id) {
            None => {},
            Some(i) => {
                if self.records[i].consumers == 0 {
                } else if self.records[i].consumers == 1 && self.records[i].finished {
                    self.records.remove(i);
                    proof {
                        assert(records_view(self.records@) =~= before.records.remove(i as int));
                    }
                } else {
                    let rec = self.records.remove(i);
                    let fewer = RequestRecord {
                        id: rec.id,
                        key: rec.key,
                        consumers: rec.consumers - 1,
                        foreground: rec.foreground,
                        finished: rec.finished,
                    };
                    self.records.insert(i, fewer);
                    proof {
                        assert(records_view(self.records@) =~= before.records.update(
                            i as int,
                            RecordView {
                                consumers: (before.records[i as int].consumers - 1) as usize,
                                ..before.records[i as int]
                            },
                        ));
                    }
                }
            },
        }
    }

    /// Release a lease (once): its request counts one consumer less and
    /// leaves the registry when it has finished and this was its last lease.
    pub fn release(&mut self, lease: &mut ViewerRequestLease)
        requires
            registry_wf(old(self).view()),
        ensures
            registry_wf(final(self).view()),
            final(lease).released,
            final(lease).cancelled == old(lease).cancelled,
            final(lease).request == old(lease).request,
            final(lease).key == old(lease).key,
            final(self).view() == if old(lease).released {
                old(self).view()
            } else {
                spec_release(old(self).view(), old(lease).request)
            },
    {
        if !lease.released {
            lease.released = true;
            self.release_request(lease.request);
        }
    }

    /// Cancel a lease: mark it cancelled and release it.
    pub fn cancel(&mut self, lease: &mut ViewerRequestLease)
        requires
            registry_wf(old(self).view()),
        ensures
            registry_wf(final(self).view()),
            final(lease).released,
            final(lease).cancelled,
            final(lease).request == old(lease).request,
            final(lease).key == old(lease).key,
            final(self).view() == if old(lease).released {
                old(self).view()
            } else {
                spec_release(old(self).view(), old(lease).request)
            },
    {
        lease.cancelled = true;
        self.release(lease);
    }

    /// The decode of request `id` finished (see [`spec_finish`]).
    pub fn finish(&mut self, id: u64)
        requires
            registry_wf(old(self).view()),
        ensures
            registry_wf(final(self).view()),
            final(self).view() == spec_finish(old(self).view(), id),
    {
        let ghost before = self.view();
        match self.find_id(id) {
            None => {},
            Some(i) => {
                if self.records[i].consumers == 0 {
                    self.records.remove(i);
                    proof {
                        assert(records_view(self.records@) =~= before.records.remove(i as int));
                    }
                } else {
                    let rec = self.records.remove(i);
                    let done = RequestRecord {
                        id: rec.id,
                        key: rec.key,
                        consumers: rec.consumers,
                        foreground: rec.foreground,
                        finished: true,
                    };
                    self.records.insert(i, done);
                    proof {
                        assert(records_view(self.records@) =~= before.records.update(
                            i as int,
                            RecordView { finished: true, ..before.records[i as int] },
                        ));
                    }
                }
            },
        }
    }

    /// Whether request `id` still has a lease.
    pub fn has_consumers(&self, id: u64) -> (b: bool)
        requires
            registry_wf(self.view()),
        ensures
            b == spec_has_consumers(self.view(), id),
    {
        match self.find_id(id) {
            Some(i) => self.records[i].consumers > 0,
            None => false,
        }
    }

    /// The number of leases request `id` holds (0 when it is not in flight).
    pub fn consumers(&self, id: u64) -> (n: usize)
        requires
            registry_wf(self.view()),
        ensures
            n == match id_index(self.view().records, id) {
                Some(i) => self.view().records[i].consumers,
                None => 0,
            },
    {
        match self.find_id(id) {
            Some(i) => self.records[i].consumers,
            None => 0,
        }
    }

    /// Whether request `id` is in flight for the foreground.
    pub fn is_foreground(&self, id: u64) -> (b: bool)
        requires
            registry_wf(self.view()),
        ensures
            b == match id_index(self.view().records, id) {
                Some(i) => self.view().records[i].foreground,
                None => false,
            },
    {
        match self.find_id(id) {
            Some(i) => self.records[i].foreground,
            None => false,
        }
    }

    /// The request in flight for `key`, if any.
    pub fn request_for(&self, key: &ViewerRequestKey) -> (id: Option<u64>)
        requires
            registry_wf(self.view()),
        ensures
            id == match key_index(self.view().records, key.view()) {
                Some(i) => Some(self.view().records[i].id),
                None => None::<u64>,
            },
    {
        match self.find_key(key) {
            Some(i) => Some(self.records[i].id),
            None => None,
        }
    }
}

/// A foreground claim of a key that a prefetch holds joins the prefetch's
/// request and promotes it; cancelling the prefetch's lease afterwards
/// leaves the request in flight, held by the foreground, not lost.
pub proof fn lemma_foreground_promotes_prefetch(r: RegistryView, key: KeyView)
    requires
        registry_wf(r),
        claim_fits(r),
        key_index(r.records, key) is None,
    ensures
        ({
            let (r1, prefetch, first) = spec_claim(r, key, false);
            let (r2, foreground, second) = spec_claim(r1, key, true);
            let r3 = spec_release(r2, prefetch);
            &&& first == ViewerRequestClaim::New
            &&& foreground == prefetch
            &&& second == ViewerRequestClaim::PromotedPrefetch
            &&& spec_has_consumers(r3, foreground)
            &&& id_index(r3.records, foreground) matches Some(i) && r3.records[i].foreground
        }),
{
    let (r1, prefetch, first) = spec_claim(r, key, false);
    let n = r.records.len() as int;
    assert(r1.records[n].key == key);
    assert forall|a: int, b: int| 0 <= a < b < r1.records.len() implies #[trigger] r1.records[a].key
        != #[trigger] r1.records[b].key by {
        if b == n {
            assert(r1.records[a] == r.records[a]);
        }
    }
    lemma_key_index(r1.records, n);
    let (r2, foreground, second) = spec_claim(r1, key, true);
    assert forall|a: int, b: int| 0 <= a < b < r2.records.len() implies #[trigger] r2.records[a].id
        != #[trigger] r2.records[b].id by {
        if b == n {
            assert(r2.records[a] == r.records[a]);
        }
    }
    lemma_id_index(r2.records, n);
    let r3 = spec_release(r2, prefetch);
    assert forall|a: int, b: int| 0 <= a < b < r3.records.len() implies #[trigger] r3.records[a].id
        != #[trigger] r3.records[b].id by {
        if b == n {
            assert(r3.records[a] == r.records[a]);
        }
    }
    lemma_id_index(r3.records, n);
}

/// Two foreground claims of one key share one request: the second joins
/// it with a second lease, and cancelling the first leaves it held.
pub proof fn lemma_foregrounds_join(r: RegistryView, key: KeyView)
    requires
        registry_wf(r),
        claim_fits(r),
        key_index(r.records, key) is None,
    ensures
        ({
            let (r1, first_id, first) = spec_claim(r, key, true);
            let (r2, second_id, second) = spec_claim(r1, key, true);
            let r3 = spec_release(r2, first_id);
            &&& first == ViewerRequestClaim::New
            &&& second_id == first_id
            &&& second == ViewerRequestClaim::JoinedForeground
            &&& id_index(r2.records, first_id) matches Some(i) && r2.records[i].consumers == 2
            &&& spec_has_consumers(r3, second_id)
        }),
{
    let (r1, first_id, first) = spec_claim(r, key, true);
    let n = r.records.len() as int;
    assert forall|a: int, b: int| 0 <= a < b < r1.records.len() implies #[trigger] r1.records[a].key
        != #[trigger] r1.records[b].key by {
        if b == n {
            assert(r1.records[a] == r.records[a]);
        }
    }
    lemma_key_index(r1.records, n);
    let (r2, second_id, second) = spec_claim(r1, key, true);
    assert forall|a: int, b: int| 0 <= a < b < r2.records.len() implies #[trigger] r2.records[a].id
        != #[trigger] r2.records[b].id by {
        if b == n {
            assert(r2.records[a] == r.records[a]);
        }
    }
    lemma_id_index(r2.records, n);
    let r3 = spec_release(r2, first_id);
    assert forall|a: int, b: int| 0 <= a < b < r3.records.len() implies #[trigger] r3.records[a].id
        != #[trigger] r3.records[b].id by {
        if b == n {
            assert(r3.records[a] == r.records[a]);
        }
    }
    lemma_id_index(r3.records, n);
}

/// A finished request leaves the registry with its last lease: afterwards
/// its key is free, and a claim of it makes a new request.
pub proof fn lemma_last_lease_removes_finished(r: RegistryView, id: u64)
    requires
        registry_wf(r),
        id_index(r.records, id) matches Some(i) && r.records[i].consumers == 1 && r.records[i].finished,
    ensures
        ({
            let key = r.records[id_index(r.records, id)->0].key;
            let r1 = spec_release(r, id);
            &&& id_index(r1.records, id) is None
            &&& key_index(r1.records, key) is None
        }),
{
    let i = id_index(r.records, id)->0;
    let key = r.records[i].key;
    let r1 = spec_release(r, id);
    assert(r1.records =~= r.records.remove(i));
    if exists|k: int| 0 <= k < r1.records.len() && #[trigger] r1.records[k].id == id {
        let k = choose|k: int| 0 <= k < r1.records.len() && #[trigger] r1.records[k].id == id;
        if k < i {
            assert(r.records[k].id == id);
        } else {
            assert(r.records[k + 1].id == id);
        }
    }
    if exists|k: int| 0 <= k < r1.records.len() && #[trigger] r1.records[k].key == key {
        let k = choose|k: int| 0 <= k < r1.records.len() && #[trigger] r1.records[k].key == key;
        if k < i {
            assert(r.records[k].key == key);
        } else {
            assert(r.records[k + 1].key == key);
        }
    }
}

/// A request whose leases are all gone leaves the registry when its decode
/// finishes.
pub proof fn lemma_finish_without_leases_removes(r: RegistryView, id: u64)
    requires
        registry_wf(r),
        id_index(r.records, id) matches Some(i) && r.records[i].consumers == 0,
    ensures
        id_index(spec_finish(r, id).records, id) is None,
{
    let i = id_index(r.records, id)->0;
    let r1 = spec_finish(r, id);
    assert(r1.records =~= r.records.remove(i));
    if exists|k: int| 0 <= k < r1.records.len() && #[trigger] r1.records[k].id == id {
        let k = choose|k: int| 0 <= k < r1.records.len() && #[trigger] r1.records[k].id == id;
        if k < i {
            assert(r.records[k].id == id);
        } else {
            assert(r.records[k + 1].id == id);
        }
    }
}

/// The registry after cancelling every lease of `leases` except those on
/// request `kept`, in order; leases already released change nothing.
pub open spec fn spec_cancel_others(r: RegistryView, leases: Seq<ViewerRequestLease>, kept: Option<u64>) -> RegistryView
    decreases leases.len(),
{
    if leases.len() == 0 {
        r
    } else {
        let r1 = spec_cancel_others(r, leases.drop_last(), kept);
        let l = leases.last();
        if kept == Some(l.request) || l.released {
            r1
        } else {
            spec_release(r1, l.request)
        }
    }
}

/// A copy of a lease.
fn copy_lease(l: &ViewerRequestLease) -> (c: ViewerRequestLease)
    ensures
        c == *l,
{
    ViewerRequestLease { key: copy_key(&l.key), request: l.request, cancelled: l.cancelled, released: l.released }
}

/// The entries of `entries` whose lease is on request `kept`, in order.
pub open spec fn entries_on(entries: Seq<(u64, ViewerRequestLease)>, kept: Option<u64>) -> Seq<
    (u64, ViewerRequestLease),
>
    decreases entries.len(),
{
    if entries.len() == 0 {
        entries
    } else {
        let rest = entries_on(entries.drop_last(), kept);
        if kept == Some(entries.last().1.request) {
            rest.push(entries.last())
        } else {
            rest
        }
    }
}

/// The leases of a list of entries.
pub open spec fn entry_leases(entries: Seq<(u64, ViewerRequestLease)>) -> Seq<ViewerRequestLease> {
    entries.map_values(|e: (u64, ViewerRequestLease)| e.1)
}

/// Whether serial `serial` names one of `entries`.
pub open spec fn has_serial(entries: Seq<(u64, ViewerRequestLease)>, serial: u64) -> bool {
    exists|k: int| 0 <= k < entries.len() && #[trigger] entries[k].0 == serial
}

/// The lightbox's speculative leases, each under the serial number that
/// the decode holding it keeps: a lease stays listed until it is cancelled,
/// so a decode learns from [`PrefetchLeases::is_cancelled`] whether its
/// lease was cancelled.
pub struct PrefetchLeases {
    entries: Vec<(u64, ViewerRequestLease)>,
    next_serial: u64,
}

/// Plain view of the speculative leases: the listed entries and the next
/// serial number.
pub struct PrefetchView {
    pub entries: Seq<(u64, ViewerRequestLease)>,
    pub next_serial: u64,
}

/// Serials below `next` and increasing along the list.
pub open spec fn prefetch_wf(p: PrefetchView) -> bool {
    &&& forall|k: int| 0 <= k < p.entries.len() ==> #[trigger] p.entries[k].0 < p.next_serial
    &&& forall|i: int, j: int| 0 <= i < j < p.entries.len() ==> #[trigger] p.entries[i].0 < #[trigger] p.entries[j].0
}

/// Whether the lease under `serial` was listed and is no more: cancelled.
pub open spec fn spec_is_cancelled(p: PrefetchView, serial: u64) -> bool {
    serial < p.next_serial && !has_serial(p.entries, serial)
}

proof fn lemma_entries_on(entries: Seq<(u64, ViewerRequestLease)>, kept: Option<u64>, bound: u64)
    requires
        forall|k: int| 0 <= k < entries.len() ==> #[trigger] entries[k].0 < bound,
        forall|i: int, j: int| 0 <= i < j < entries.len() ==> #[trigger] entries[i].0 < #[trigger] entries[j].0,
    ensures
        forall|k: int| 0 <= k < entries_on(entries, kept).len() ==> #[trigger] entries_on(entries, kept)[k].0 < bound,
        forall|i: int, j: int|
            0 <= i < j < entries_on(entries, kept).len() ==> #[trigger] entries_on(entries, kept)[i].0
                < #[trigger] entries_on(entries, kept)[j].0,
        forall|s: u64|
            #[trigger] has_serial(entries_on(entries, kept), s) <==> exists|k: int|
                0 <= k < entries.len() && #[trigger] entries[k].0 == s && kept == Some(entries[k].1.request),
    decreases entries.len(),
{
    if entries.len() > 0 {
        let init = entries.drop_last();
        assert forall|k: int| 0 <= k < init.len() implies #[trigger] init[k].0 < bound by {
            assert(init[k] == entries[k]);
        }
        assert forall|i: int, j: int| 0 <= i < j < init.len() implies #[trigger] init[i].0 < #[trigger] init[j].0 by {
            assert(init[i] == entries[i] && init[j] == entries[j]);
        }
        lemma_entries_on(init, kept, entries.last().0);
        lemma_entries_on(init, kept, bound);
        let rest = entries_on(init, kept);
        let last = entries.last();
        assert forall|s: u64| #[trigger] has_serial(entries_on(entries, kept), s) <==> exists|k: int|
            0 <= k < entries.len() && #[trigger] entries[k].0 == s && kept == Some(entries[k].1.request) by {
            if has_serial(entries_on(entries, kept), s) {
                let m = choose|m: int| 0 <= m < entries_on(entries, kept).len() && #[trigger] entries_on(entries, kept)[m].0 == s;
                if kept == Some(last.1.request) && m == rest.len() {
                    assert(entries[entries.len() - 1].0 == s);
                } else {
                    assert(entries_on(entries, kept)[m] == rest[m]);
                    assert(has_serial(rest, s));
                    let k = choose|k: int| 0 <= k < init.len() && #[trigger] init[k].0 == s && kept == Some(init[k].1.request);
                    assert(entries[k] == init[k]);
                }
            }
            if exists|k: int| 0 <= k < entries.len() && #[trigger] entries[k].0 == s && kept == Some(entries[k].1.request) {
                let k = choose|k: int| 0 <= k < entries.len() && #[trigger] entries[k].0 == s && kept == Some(entries[k].1.request);
                if k == entries.len() - 1 {
                    assert(entries_on(entries, kept)[rest.len() as int] == last);
                } else {
                    assert(init[k] == entries[k]);
                    assert(has_serial(rest, s));
                    let m = choose|m: int| 0 <= m < rest.len() && #[trigger] rest[m].0 == s;
                    assert(entries_on(entries, kept)[m] == rest[m]);
                }
            }
        }
        if kept == Some(last.1.request) {
            let out = rest.push(last);
            assert forall|i: int, j: int| 0 <= i < j < out.len() implies #[trigger] out[i].0 < #[trigger] out[j].0 by {
                if j == rest.len() {
                    assert(out[i] == rest[i]);
                    assert(rest[i].0 < last.0);
                }
            }
        }
    }
}

impl PrefetchLeases {
    pub closed spec fn view(&self) -> PrefetchView {
        PrefetchView { entries: self.entries@, next_serial: self.next_serial }
    }

    /// No lease listed yet.
    pub fn new() -> (p: Self)
        ensures
            p.view().entries.len() == 0,
            p.view().next_serial == 0,
            prefetch_wf(p.view()),
    {
        PrefetchLeases { entries: Vec::new(), next_serial: 0 }
    }

    /// List the lease of a new prefetch under the next serial number, which
    /// is returned for its decode to keep.
    pub fn add(&mut self, lease: ViewerRequestLease) -> (serial: u64)
        requires
            prefetch_wf(old(self).view()),
            old(self).view().next_serial < u64::MAX,
        ensures
            prefetch_wf(final(self).view()),
            serial == old(self).view().next_serial,
            final(self).view().next_serial == serial + 1,
            final(self).view().entries == old(self).view().entries.push((serial, lease)),
    {
        let ghost before = self.view();
        let serial = self.next_serial;
        self.entries.push((serial, lease));
        self.next_serial = serial + 1;
        proof {
            let now = self.view().entries;
            assert forall|i: int, j: int| 0 <= i < j < now.len() implies #[trigger] now[i].0 < #[trigger] now[j].0 by {
                assert(now[i] == before.entries[i]);
                if j < before.entries.len() {
                    assert(now[j] == before.entries[j]);
                }
            }
            assert forall|k: int| 0 <= k < now.len() implies #[trigger] now[k].0 < self.next_serial by {
                if k < before.entries.len() {
                    assert(now[k] == before.entries[k]);
                }
            }
        }
        serial
    }

    /// Whether the lease listed under `serial` was cancelled.
    pub fn is_cancelled(&self, serial: u64) -> (b: bool)
        ensures
            b == spec_is_cancelled(self.view(), serial),
    {
        if serial >= self.next_serial {
            return false;
        }
        let mut k: usize = 0;
        while k < self.entries.len()
            invariant
                0 <= k <= self.entries@.len(),
                forall|j: int| 0 <= j < k ==> self.entries@[j].0 != serial,
            decreases self.entries@.len() - k,
        {
            if self.entries[k].0 == serial {
                return false;
            }
            k += 1;
        }
        true
    }

    /// Release the lease listed under `serial` (a prefetch that finished with
    /// it); it stays listed, so it is not taken for cancelled.
    pub fn release(&mut self, requests: &mut ViewerRequests, serial: u64)
        requires
            registry_wf(old(requests).view()),
            prefetch_wf(old(self).view()),
        ensures
            registry_wf(final(requests).view()),
            prefetch_wf(final(self).view()),
            final(self).view().next_serial == old(self).view().next_serial,
            final(self).view().entries.len() == old(self).view().entries.len(),
            forall|k: int|
                0 <= k < old(self).view().entries.len() ==> (#[trigger] final(self).view().entries[k]).0 == old(
                    self,
                ).view().entries[k].0 && final(self).view().entries[k].1.request == old(self).view().entries[k].1.request,
            forall|s: u64| spec_is_cancelled(final(self).view(), s) == spec_is_cancelled(old(self).view(), s),
    {
        let ghost before = self.view();
        let mut k: usize = 0;
        while k < self.entries.len()
            invariant
                0 <= k <= self.entries@.len(),
                self.entries@ == before.entries,
                self.next_serial == before.next_serial,
                prefetch_wf(before),
                before == old(self).view(),
                registry_wf(requests.view()),
            decreases self.entries@.len() - k,
        {
            if self.entries[k].0 == serial {
                let (s, mut lease) = self.entries.remove(k);
                requests.release(&mut lease);
                self.entries.insert(k, (s, lease));
                proof {
                    let now = self.entries@;
                    assert(now.len() == before.entries.len());
                    assert forall|j: int| 0 <= j < now.len() implies #[trigger] now[j].0 == before.entries[j].0
                        && now[j].1.request == before.entries[j].1.request by {
                        if j != k {
                            assert(now[j] == before.entries[j]);
                        }
                    }
                    assert(self.next_serial == before.next_serial);
                    assert forall|a: int, b: int| 0 <= a < b < now.len() implies #[trigger] now[a].0 < #[trigger] now[b].0 by {
                        assert(now[a].0 == before.entries[a].0 && now[b].0 == before.entries[b].0);
                    }
                    assert forall|j: int| 0 <= j < now.len() implies #[trigger] now[j].0 < self.next_serial by {
                        assert(now[j].0 == before.entries[j].0);
                    }
                    assert forall|t: u64| spec_is_cancelled(self.view(), t) == spec_is_cancelled(before, t) by {
                        if has_serial(now, t) {
                            let m = choose|m: int| 0 <= m < now.len() && #[trigger] now[m].0 == t;
                            assert(before.entries[m].0 == t);
                        }
                        if has_serial(before.entries, t) {
                            let m = choose|m: int| 0 <= m < before.entries.len() && #[trigger] before.entries[m].0 == t;
                            assert(now[m].0 == t);
                        }
                    }
                }
                return;
            }
            k += 1;
        }
    }

    /// Cancel the listed leases except those on the request now in flight
    /// for `keep` (all of them without `keep`): each is cancelled and
    /// released and leaves the list, so its decode sees it cancelled.
    pub fn cancel_lightbox_prefetch_except(&mut self, requests: &mut ViewerRequests, keep: Option<&ViewerRequestKey>)
        requires
            registry_wf(old(requests).view()),
            prefetch_wf(old(self).view()),
        ensures
            registry_wf(final(requests).view()),
            prefetch_wf(final(self).view()),
            final(self).view().next_serial == old(self).view().next_serial,
            ({
                let kept = match keep {
                    Some(k) => match key_index(old(requests).view().records, k.view()) {
                        Some(i) => Some(old(requests).view().records[i].id),
                        None => None::<u64>,
                    },
                    None => None::<u64>,
                };
                &&& final(requests).view() == spec_cancel_others(
                    old(requests).view(),
                    entry_leases(old(self).view().entries),
                    kept,
                )
                &&& final(self).view().entries == entries_on(old(self).view().entries, kept)
                &&& forall|k: int|
                    0 <= k < old(self).view().entries.len() ==> (spec_is_cancelled(
                        final(self).view(),
                        #[trigger] old(self).view().entries[k].0,
                    ) <==> kept != Some(old(self).view().entries[k].1.request))
            }),
    {
        let kept = match keep {
            Some(k) => requests.request_for(k),
            None => None,
        };
        let ghost start = requests.view();
        let ghost before = self.view();
        let mut pending: Vec<(u64, ViewerRequestLease)> = Vec::new();
        std::mem::swap(&mut self.entries, &mut pending);
        let mut i: usize = 0;
        assert(pending@.take(0) =~= Seq::<(u64, ViewerRequestLease)>::empty());
        assert(entry_leases(pending@.take(0)) =~= Seq::<ViewerRequestLease>::empty());
        while i < pending.len()
            invariant
                0 <= i <= pending@.len(),
                pending@ == before.entries,
                self.next_serial == before.next_serial,
                registry_wf(requests.view()),
                requests.view() == spec_cancel_others(start, entry_leases(pending@.take(i as int)), kept),
                self.entries@ == entries_on(pending@.take(i as int), kept),
            decreases pending@.len() - i,
        {
            assert(pending@.take(i + 1).drop_last() =~= pending@.take(i as int));
            assert(pending@.take(i + 1).last() == pending@[i as int]);
            assert(entry_leases(pending@.take(i + 1)).drop_last() =~= entry_leases(pending@.take(i as int)));
            assert(entry_leases(pending@.take(i + 1)).last() == pending@[i as int].1);
            let retain = match kept {
                Some(id) => pending[i].1.request == id,
                None => false,
            };
            if retain {
                self.entries.push((pending[i].0, copy_lease(&pending[i].1)));
            } else {
                let mut lease = copy_lease(&pending[i].1);
                requests.cancel(&mut lease);
            }
            i += 1;
        }
        assert(pending@.take(pending@.len() as int) =~= pending@);
        proof {
            lemma_entries_on(before.entries, kept, before.next_serial);
            assert forall|k: int| 0 <= k < before.entries.len() implies (spec_is_cancelled(
                self.view(),
                #[trigger] before.entries[k].0,
            ) <==> kept != Some(before.entries[k].1.request)) by {
                let s = before.entries[k].0;
                if exists|m: int| 0 <= m < before.entries.len() && #[trigger] before.entries[m].0 == s && kept == Some(
                    before.entries[m].1.request,
                ) {
                    let m = choose|m: int| 0 <= m < before.entries.len() && #[trigger] before.entries[m].0 == s && kept == Some(
                        before.entries[m].1.request,
                    );
                    if m < k {
                        assert(before.entries[m].0 < before.entries[k].0);
                    } else if m > k {
                        assert(before.entries[k].0 < before.entries[m].0);
                    }
                }
            }
        }
    }

    /// Cancel every listed lease (see [`PrefetchLeases::cancel_lightbox_prefetch_except`]):
    /// afterwards every lease ever listed counts as cancelled.
    pub fn cancel_lightbox_prefetch(&mut self, requests: &mut ViewerRequests)
        requires
            registry_wf(old(requests).view()),
            prefetch_wf(old(self).view()),
        ensures
            registry_wf(final(requests).view()),
            prefetch_wf(final(self).view()),
            final(requests).view() == spec_cancel_others(old(requests).view(), entry_leases(old(self).view().entries), None),
            final(self).view().entries.len() == 0,
            final(self).view().next_serial == old(self).view().next_serial,
            forall|s: u64| s < final(self).view().next_serial ==> #[trigger] spec_is_cancelled(final(self).view(), s),
    {
        self.cancel_lightbox_prefetch_except(requests, None);
        proof {
            lemma_entries_none(old(self).view().entries);
        }
    }
}

proof fn lemma_entries_none(entries: Seq<(u64, ViewerRequestLease)>)
    ensures
        entries_on(entries, None).len() == 0,
    decreases entries.len(),
{
    if entries.len() > 0 {
        lemma_entries_none(entries.drop_last());
    }
}

} // verus!
