//! Recently used textures, most recent first, bounded by a number of
//! entries and a byte budget: the viewer's display-texture cache and the
//! grid's cache of edited thumbnails.
use vstd::prelude::*;

use crate::text::{chars_of, same_chars};

verus! {

/// What a cached texture shows: the photo, its presentation and its size.
#[derive(Debug, Clone)]
pub struct TextureKey {
    pub path: String,
    pub rotation: i32,
    pub edit_recipe: String,
    pub target_width: u32,
    pub target_height: u32,
}

/// Plain-value view of a [`TextureKey`].
pub struct TextureKeyView {
    pub path: Seq<char>,
    pub rotation: i32,
    pub edit_recipe: Seq<char>,
    pub target_width: u32,
    pub target_height: u32,
}

impl TextureKey {
    pub open spec fn view(&self) -> TextureKeyView {
        TextureKeyView {
            path: self.path@,
            rotation: self.rotation,
            edit_recipe: self.edit_recipe@,
            target_width: self.target_width,
            target_height: self.target_height,
        }
    }
}

fn same_texture_key(a: &TextureKey, b: &TextureKey) -> (same: bool)
    ensures
        same == (a.view() == b.view()),
{
    a.rotation == b.rotation && a.target_width == b.target_width && a.target_height == b.target_height
        && same_chars(&chars_of(a.path.as_str()), &chars_of(b.path.as_str())) && same_chars(
        &chars_of(a.edit_recipe.as_str()),
        &chars_of(b.edit_recipe.as_str()),
    )
}

/// One cached texture with its approximate size in bytes.
pub struct CachedTexture<T> {
    pub key: TextureKey,
    pub bytes: usize,
    pub texture: T,
}

/// Plain-value view of a cached texture.
pub struct CachedView<T> {
    pub key: TextureKeyView,
    pub bytes: usize,
    pub texture: T,
}

impl<T> CachedTexture<T> {
    pub open spec fn view(&self) -> CachedView<T> {
        CachedView { key: self.key.view(), bytes: self.bytes, texture: self.texture }
    }
}

/// Recently used textures, most recent first.
pub struct RecentTextures<T> {
    entries: Vec<CachedTexture<T>>,
    capacity: usize,
    byte_budget: usize,
}

/// The sum of the entries' bytes.
pub open spec fn total_bytes<T>(s: Seq<CachedView<T>>) -> int
    decreases s.len(),
{
    if s.len() == 0 {
        0
    } else {
        total_bytes(s.drop_last()) + s.last().bytes
    }
}

/// The entries whose key is not `key`, in order.
pub open spec fn without_key<T>(s: Seq<CachedView<T>>, key: TextureKeyView) -> Seq<CachedView<T>>
    decreases s.len(),
{
    if s.len() == 0 {
        s
    } else if s.last().key == key {
        without_key(s.drop_last(), key)
    } else {
        without_key(s.drop_last(), key).push(s.last())
    }
}

/// Least recently used entries dropped while there are more than
/// `capacity`, or while the bytes exceed `budget` and more than one entry
/// is left.
pub open spec fn evicted<T>(s: Seq<CachedView<T>>, capacity: usize, budget: usize) -> Seq<CachedView<T>>
    decreases s.len(),
{
    if s.len() > capacity || (total_bytes(s) > budget && s.len() > 1) {
        evicted(s.drop_last(), capacity, budget)
    } else {
        s
    }
}

/// Position of the entry with `key`.
pub open spec fn key_position<T>(s: Seq<CachedView<T>>, key: TextureKeyView) -> Option<int> {
    if exists|i: int| 0 <= i < s.len() && #[trigger] s[i].key == key {
        Some(choose|i: int| 0 <= i < s.len() && #[trigger] s[i].key == key)
    } else {
        None
    }
}

/// Keys appear at most once.
pub open spec fn keys_distinct<T>(s: Seq<CachedView<T>>) -> bool {
    forall|i: int, j: int| 0 <= i < j < s.len() ==> #[trigger] s[i].key != #[trigger] s[j].key
}

/// The entries with the one at `i` moved to the front.
pub open spec fn moved_to_front<T>(s: Seq<CachedView<T>>, i: int) -> Seq<CachedView<T>> {
    seq![s[i]] + s.remove(i)
}

/// An entry's approximate size: width times height times four bytes
/// (negative sides count as 0), saturated at `usize::MAX`.
pub open spec fn spec_texture_bytes(width: i32, height: i32) -> usize {
    let w: int = if width < 0 { 0 } else { width as int };
    let h: int = if height < 0 { 0 } else { height as int };
    if w * h * 4 > usize::MAX {
        usize::MAX
    } else {
        (w * h * 4) as usize
    }
}

proof fn lemma_total_nonneg<T>(s: Seq<CachedView<T>>)
    ensures
        total_bytes(s) >= 0,
    decreases s.len(),
{
    if s.len() > 0 {
        lemma_total_nonneg(s.drop_last());
    }
}

proof fn lemma_total_push<T>(s: Seq<CachedView<T>>, e: CachedView<T>)
    ensures
        total_bytes(seq![e] + s) == e.bytes + total_bytes(s),
    decreases s.len(),
{
    let t = seq![e] + s;
    if s.len() == 0 {
        assert(t.drop_last() =~= Seq::<CachedView<T>>::empty());
        assert(total_bytes(Seq::<CachedView<T>>::empty()) == 0);
        assert(total_bytes(s) == 0);
        assert(t.last() == e);
    } else {
        lemma_total_push(s.drop_last(), e);
        assert(t.drop_last() =~= seq![e] + s.drop_last());
        assert(t.last() == s.last());
    }
}

proof fn lemma_without_total<T>(s: Seq<CachedView<T>>, key: TextureKeyView)
    ensures
        0 <= total_bytes(without_key(s, key)) <= total_bytes(s),
        without_key(s, key).len() <= s.len(),
        keys_distinct(s) ==> keys_distinct(without_key(s, key)),
        forall|i: int| 0 <= i < without_key(s, key).len() ==> (#[trigger] without_key(s, key)[i]).key != key,
    decreases s.len(),
{
    lemma_total_nonneg(without_key(s, key));
    if s.len() > 0 {
        lemma_without_total(s.drop_last(), key);
        lemma_without_subset(s.drop_last(), key);
        let w = without_key(s.drop_last(), key);
        lemma_total_nonneg(w);
        assert(w.push(s.last()).drop_last() =~= w);
        assert(w.push(s.last()).last() == s.last());
        if s.last().key != key {
            if keys_distinct(s) {
                assert forall|i: int, j: int| 0 <= i < j < w.push(s.last()).len() implies #[trigger] w.push(
                    s.last(),
                )[i].key != #[trigger] w.push(s.last())[j].key by {
                    if j == w.len() {
                        let k = choose|k: int| 0 <= k < s.drop_last().len() && s.drop_last()[k] == w[i];
                        assert(s[k] == w[i]);
                    }
                }
            }
        }
    }
}

proof fn lemma_without_subset<T>(s: Seq<CachedView<T>>, key: TextureKeyView)
    ensures
        forall|i: int|
            0 <= i < without_key(s, key).len() ==> exists|k: int|
                0 <= k < s.len() && s[k] == #[trigger] without_key(s, key)[i],
    decreases s.len(),
{
    if s.len() > 0 {
        lemma_without_subset(s.drop_last(), key);
        let w = without_key(s.drop_last(), key);
        assert forall|i: int| 0 <= i < without_key(s, key).len() implies exists|k: int|
            0 <= k < s.len() && s[k] == #[trigger] without_key(s, key)[i] by {
            if i < w.len() {
                let k = choose|k: int| 0 <= k < s.drop_last().len() && s.drop_last()[k] == w[i];
                assert(s[k] == without_key(s, key)[i]);
            } else {
                assert(s[s.len() - 1] == without_key(s, key)[i]);
            }
        }
    }
}

proof fn lemma_evicted<T>(s: Seq<CachedView<T>>, capacity: usize, budget: usize)
    ensures
        evicted(s, capacity, budget).len() <= s.len(),
        evicted(s, capacity, budget) =~= s.take(evicted(s, capacity, budget).len() as int),
        0 <= total_bytes(evicted(s, capacity, budget)) <= total_bytes(s),
    decreases s.len(),
{
    lemma_total_nonneg(s);
    if s.len() > capacity || (total_bytes(s) > budget && s.len() > 1) {
        lemma_evicted(s.drop_last(), capacity, budget);
        lemma_total_nonneg(s.drop_last());
        let e = evicted(s.drop_last(), capacity, budget);
        assert(s.drop_last().take(e.len() as int) =~= s.take(e.len() as int));
    } else {
        assert(s.take(s.len() as int) =~= s);
    }
}

proof fn lemma_take_distinct<T>(s: Seq<CachedView<T>>, n: int)
    requires
        keys_distinct(s),
        0 <= n <= s.len(),
    ensures
        keys_distinct(s.take(n)),
{
    assert forall|i: int, j: int| 0 <= i < j < s.take(n).len() implies #[trigger] s.take(n)[i].key
        != #[trigger] s.take(n)[j].key by {
        assert(s.take(n)[i] == s[i] && s.take(n)[j] == s[j]);
    }
}

proof fn lemma_take_total<T>(s: Seq<CachedView<T>>, n: int)
    requires
        0 <= n <= s.len(),
    ensures
        total_bytes(s.take(n)) + total_bytes(s.skip(n)) == total_bytes(s),
    decreases s.len(),
{
    if n < s.len() {
        lemma_take_total(s.drop_last(), n);
        assert(s.drop_last().take(n) =~= s.take(n));
        assert(s.skip(n).drop_last() =~= s.drop_last().skip(n));
        assert(s.skip(n).last() == s.last());
    } else {
        assert(s.take(n) =~= s);
        assert(s.skip(n) =~= Seq::<CachedView<T>>::empty());
    }
}

fn saturating_mul_usize(a: usize, b: usize) -> (p: usize)
    ensures
        p as int == if a * b > usize::MAX { usize::MAX as int } else { a * b },
{
    if b != 0 && a > usize::MAX / b {
        assert(a * b > usize::MAX) by (nonlinear_arith)
            requires
                b != 0,
                a > usize::MAX / b,
        ;
        usize::MAX
    } else {
        assert(a * b <= usize::MAX) by (nonlinear_arith)
            requires
                b == 0 || a <= usize::MAX / b,
        ;
        a * b
    }
}

/// The approximate size of a `width` x `height` RGBA texture.
pub fn texture_bytes(width: i32, height: i32) -> (bytes: usize)
    ensures
        bytes == spec_texture_bytes(width, height),
{
    let w: usize = if width < 0 { 0 } else { width as usize };
    let h: usize = if height < 0 { 0 } else { height as usize };
    let wh = saturating_mul_usize(w, h);
    let b = saturating_mul_usize(wh, 4);
    proof {
        let wi: int = w as int;
        let hi: int = h as int;
        assert(wi * hi >= 0) by (nonlinear_arith)
            requires
                wi >= 0,
                hi >= 0,
        ;
        if wi * hi > usize::MAX {
            assert(wi * hi * 4 > usize::MAX) by (nonlinear_arith)
                requires
                    wi * hi > usize::MAX,
            ;
        }
    }
    b
}

proof fn lemma_moved_to_front<T>(v: Seq<CachedView<T>>, i: int)
    requires
        0 <= i < v.len(),
        keys_distinct(v),
    ensures
        keys_distinct(moved_to_front(v, i)),
        total_bytes(moved_to_front(v, i)) == total_bytes(v),
{
    let nv = moved_to_front(v, i);
    assert(v.remove(i) =~= v.take(i) + v.skip(i + 1));
    lemma_take_total(v, i);
    lemma_take_total(v.skip(i), 1);
    assert(v.skip(i).take(1) =~= seq![v[i]]);
    assert(seq![v[i]].drop_last() =~= Seq::<CachedView<T>>::empty());
    assert(seq![v[i]].last() == v[i]);
    assert(total_bytes(Seq::<CachedView<T>>::empty()) == 0);
    assert(total_bytes(seq![v[i]]) == v[i].bytes);
    assert(v.skip(i).skip(1) =~= v.skip(i + 1));
    lemma_take_total(v.remove(i), i);
    assert(v.remove(i).take(i) =~= v.take(i));
    assert(v.remove(i).skip(i) =~= v.skip(i + 1));
    lemma_total_push(v.remove(i), v[i]);
    assert forall|a: int, b: int| 0 <= a < b < nv.len() implies #[trigger] nv[a].key != #[trigger] nv[b].key by {
        let ia = if a == 0 { i } else if a - 1 < i { a - 1 } else { a };
        let ib = if b - 1 < i { b - 1 } else { b };
        assert(nv[a] == v[ia]);
        assert(nv[b] == v[ib]);
    }
}

fn copy_texture_key(k: &TextureKey) -> (c: TextureKey)
    ensures
        c == *k,
{
    TextureKey {
        path: k.path.clone(),
        rotation: k.rotation,
        edit_recipe: k.edit_recipe.clone(),
        target_width: k.target_width,
        target_height: k.target_height,
    }
}

impl<T> RecentTextures<T> {
    /// The cached entries, most recent first.
    pub closed spec fn view(&self) -> Seq<CachedView<T>> {
        self.entries@.map_values(|e: CachedTexture<T>| e.view())
    }

    /// The most entries kept.
    pub closed spec fn capacity(&self) -> usize {
        self.capacity
    }

    /// The byte budget past which older entries are dropped.
    pub closed spec fn byte_budget(&self) -> usize {
        self.byte_budget
    }

    /// Keys distinct and the bytes countable.
    pub open spec fn wf(&self) -> bool {
        &&& keys_distinct(self.view())
        &&& total_bytes(self.view()) <= usize::MAX
    }

    /// An empty cache with these limits.
    pub fn new(capacity: usize, byte_budget: usize) -> (cache: Self)
        ensures
            cache.view().len() == 0,
            cache.capacity() == capacity,
            cache.byte_budget() == byte_budget,
            cache.wf(),
    {
        RecentTextures { entries: Vec::new(), capacity, byte_budget }
    }

    /// The number of cached entries.
    pub fn len(&self) -> (n: usize)
        ensures
            n == self.view().len(),
    {
        self.entries.len()
    }

    /// The bytes of all entries.
    pub fn total(&self) -> (total: usize)
        requires
            self.wf(),
        ensures
            total == total_bytes(self.view()),
    {
        let ghost v = self.view();
        let mut total: usize = 0;
        let mut i: usize = 0;
        while i < self.entries.len()
            invariant
                0 <= i <= self.entries@.len(),
                v == self.view(),
                total_bytes(v) <= usize::MAX,
                total == total_bytes(v.take(i as int)),
            decreases self.entries@.len() - i,
        {
            proof {
                assert(v.take(i + 1).drop_last() =~= v.take(i as int));
                lemma_take_total(v, i + 1);
                lemma_total_nonneg(v.skip(i + 1));
                lemma_total_nonneg(v.take(i as int));
            }
            total = total + self.entries[i].bytes;
            i += 1;
        }
        assert(v.take(i as int) =~= v);
        total
    }

    fn position(&self, key: &TextureKey) -> (found: Option<usize>)
        requires
            self.wf(),
        ensures
            match found {
                Some(i) => key_position(self.view(), key.view()) == Some(i as int),
                None => key_position(self.view(), key.view()) is None,
            },
    {
        let ghost v = self.view();
        let mut i: usize = 0;
        while i < self.entries.len()
            invariant
                0 <= i <= self.entries@.len(),
                v == self.view(),
                keys_distinct(v),
                forall|j: int| 0 <= j < i ==> #[trigger] v[j].key != key.view(),
            decreases self.entries@.len() - i,
        {
            assert(v[i as int] == self.entries@[i as int].view());
            if same_texture_key(&self.entries[i].key, key) {
                proof {
                    assert(v[i as int].key == key.view());
                    let k = choose|k: int| 0 <= k < v.len() && #[trigger] v[k].key == key.view();
                    if k < i {
                        assert(v[k].key != key.view());
                    } else if k > i {
                        assert(v[i as int].key != v[k].key);
                    }
                }
                return Some(i);
            }
            i += 1;
        }
        None
    }

    /// Look up `key`: a hit becomes the most recent entry.
    pub fn touch(&mut self, key: &TextureKey) -> (hit: bool)
        requires
            old(self).wf(),
        ensures
            final(self).wf(),
            final(self).capacity() == old(self).capacity(),
            final(self).byte_budget() == old(self).byte_budget(),
            hit == key_position(old(self).view(), key.view()) is Some,
            final(self).view() == match key_position(old(self).view(), key.view()) {
                Some(i) => moved_to_front(old(self).view(), i),
                None => old(self).view(),
            },
    {
        let ghost v = self.view();
        match self.position(key) {
            None => false,
            Some(i) => {
                let entry = self.entries.remove(i);
                self.entries.insert(0, entry);
                proof {
                    assert(self.view() =~= moved_to_front(v, i as int));
                    lemma_moved_to_front(v, i as int);
                }
                true
            },
        }
    }

    /// The most recent entry's texture.
    pub fn front(&self) -> (texture: Option<&T>)
        ensures
            match texture {
                Some(t) => self.view().len() > 0 && *t == self.view()[0].texture,
                None => self.view().len() == 0,
            },
    {
        if self.entries.len() == 0 {
            None
        } else {
            Some(&self.entries[0].texture)
        }
    }

    /// Whether an entry of `bytes` can be added with the sum of bytes still
    /// countable.
    pub fn can_insert(&self, bytes: usize) -> (ok: bool)
        requires
            self.wf(),
        ensures
            ok == (total_bytes(self.view()) + bytes <= usize::MAX),
    {
        let total = self.total();
        bytes <= usize::MAX - total
    }

    /// Add a texture as the most recent entry, replacing any entry with
    /// its key; then drop least recently used entries past the limits.
    pub fn insert(&mut self, key: TextureKey, bytes: usize, texture: T)
        requires
            old(self).wf(),
            total_bytes(old(self).view()) + bytes <= usize::MAX,
        ensures
            final(self).wf(),
            final(self).capacity() == old(self).capacity(),
            final(self).byte_budget() == old(self).byte_budget(),
            final(self).view() == evicted(
                seq![CachedView { key: key.view(), bytes, texture }] + without_key(old(self).view(), key.view()),
                old(self).capacity(),
                old(self).byte_budget(),
            ),
    {
        let ghost v = self.view();
        let ghost kv = key.view();
        let ghost fresh = CachedView { key: kv, bytes, texture };
        let mut pending: Vec<CachedTexture<T>> = Vec::new();
        std::mem::swap(&mut pending, &mut self.entries);
        let probe = copy_texture_key(&key);
        let mut next: Vec<CachedTexture<T>> = Vec::new();
        next.push(CachedTexture { key, bytes, texture });
        let ghost mut consumed: int = 0;
        proof {
            assert(v.take(0) =~= Seq::<CachedView<T>>::empty());
            assert(pending@.map_values(|e: CachedTexture<T>| e.view()) =~= v.skip(0));
            assert(next@.map_values(|e: CachedTexture<T>| e.view()) =~= seq![fresh] + without_key(v.take(0), kv));
        }
        while pending.len() > 0
            invariant
                0 <= consumed <= v.len(),
                probe.view() == kv,
                pending@.len() == v.len() - consumed,
                pending@.map_values(|e: CachedTexture<T>| e.view()) == v.skip(consumed),
                next@.map_values(|e: CachedTexture<T>| e.view()) == seq![fresh] + without_key(v.take(consumed), kv),
            decreases pending@.len(),
        {
            let ghost pv = pending@;
            let e = pending.remove(0);
            proof {
                assert(pv.map_values(|e: CachedTexture<T>| e.view())[0] == e.view());
                assert(v.skip(consumed)[0] == e.view());
                assert(v[consumed] == e.view());
                assert(v.take(consumed + 1).drop_last() =~= v.take(consumed));
                assert(v.take(consumed + 1).last() == v[consumed]);
                assert(pending@ =~= pv.subrange(1, pv.len() as int));
                assert forall|k: int| 0 <= k < pending@.len() implies #[trigger] pending@[k].view() == v.skip(
                    consumed + 1,
                )[k] by {
                    assert(pending@[k] == pv[k + 1]);
                    assert(pv.map_values(|e: CachedTexture<T>| e.view())[k + 1] == pv[k + 1].view());
                }
                assert(pending@.map_values(|e: CachedTexture<T>| e.view()) =~= v.skip(consumed + 1));
            }
            if !same_texture_key(&e.key, &probe) {
                let ghost before = next@.map_values(|e: CachedTexture<T>| e.view());
                next.push(e);
                proof {
                    assert(next@.map_values(|e: CachedTexture<T>| e.view()) =~= before.push(v[consumed]));
                }
            }
            proof {
                consumed = consumed + 1;
            }
        }
        proof {
            assert(v.take(consumed) =~= v);
            lemma_without_total(v, kv);
            lemma_total_push(without_key(v, kv), fresh);
            let s0 = seq![fresh] + without_key(v, kv);
            assert forall|i: int, j: int| 0 <= i < j < s0.len() implies #[trigger] s0[i].key != #[trigger] s0[j].key by {
                if i == 0 {
                    assert(s0[j] == without_key(v, kv)[j - 1]);
                } else {
                    assert(s0[i] == without_key(v, kv)[i - 1]);
                    assert(s0[j] == without_key(v, kv)[j - 1]);
                }
            }
        }
        let ghost s0 = seq![fresh] + without_key(v, kv);
        let mut total: usize = 0;
        let mut i: usize = 0;
        while i < next.len()
            invariant
                0 <= i <= next@.len(),
                next@.map_values(|e: CachedTexture<T>| e.view()) == s0,
                total_bytes(s0) <= usize::MAX,
                total == total_bytes(s0.take(i as int)),
            decreases next@.len() - i,
        {
            proof {
                assert(s0.take(i + 1).drop_last() =~= s0.take(i as int));
                lemma_take_total(s0, i + 1);
                lemma_total_nonneg(s0.skip(i + 1));
                assert(s0[i as int] == next@[i as int].view());
            }
            total = total + next[i].bytes;
            i += 1;
        }
        assert(s0.take(i as int) =~= s0);
        proof {
            lemma_evicted(s0, self.capacity, self.byte_budget);
        }
        while next.len() > self.capacity || (total > self.byte_budget && next.len() > 1)
            invariant
                evicted(next@.map_values(|e: CachedTexture<T>| e.view()), self.capacity, self.byte_budget)
                    == evicted(s0, self.capacity, self.byte_budget),
                total == total_bytes(next@.map_values(|e: CachedTexture<T>| e.view())),
            decreases next@.len(),
        {
            let ghost nv = next@.map_values(|e: CachedTexture<T>| e.view());
            let removed = next.pop().unwrap();
            proof {
                assert(next@.map_values(|e: CachedTexture<T>| e.view()) =~= nv.drop_last());
                lemma_total_nonneg(nv.drop_last());
            }
            total = total - removed.bytes;
        }
        self.entries = next;
        proof {
            let fv = self.view();
            assert(fv == evicted(s0, self.capacity, self.byte_budget));
            lemma_take_distinct(s0, fv.len() as int);
            lemma_take_total(s0, fv.len() as int);
            lemma_total_nonneg(s0.skip(fv.len() as int));
        }
    }
}

/// After eviction the cache is within its limits: no more entries than the
/// capacity, and within the byte budget unless a single entry is left.
pub proof fn lemma_evicted_within_limits<T>(s: Seq<CachedView<T>>, capacity: usize, budget: usize)
    ensures
        evicted(s, capacity, budget).len() <= capacity,
        total_bytes(evicted(s, capacity, budget)) <= budget || evicted(s, capacity, budget).len() <= 1,
    decreases s.len(),
{
    if s.len() > capacity || (total_bytes(s) > budget && s.len() > 1) {
        lemma_evicted_within_limits(s.drop_last(), capacity, budget);
    }
}

/// Whether entries fit a cache's limits: no more than `capacity` of them,
/// and within `budget` bytes unless at most one is left.
pub open spec fn within_limits<T>(s: Seq<CachedView<T>>, capacity: usize, budget: usize) -> bool {
    s.len() <= capacity && (total_bytes(s) <= budget || s.len() <= 1)
}

/// Eviction keeps the longest prefix of the entries, most recently used
/// first, that fits the limits: what is dropped comes off the back, and
/// keeping one more entry would break a limit.
pub proof fn lemma_evicted_is_longest_fitting_prefix<T>(s: Seq<CachedView<T>>, capacity: usize, budget: usize)
    ensures
        evicted(s, capacity, budget) == s.take(evicted(s, capacity, budget).len() as int),
        within_limits(evicted(s, capacity, budget), capacity, budget),
        forall|n: int|
            evicted(s, capacity, budget).len() < n <= s.len() ==> !within_limits(
                #[trigger] s.take(n),
                capacity,
                budget,
            ),
    decreases s.len(),
{
    lemma_evicted(s, capacity, budget);
    lemma_evicted_within_limits(s, capacity, budget);
    if s.len() > capacity || (total_bytes(s) > budget && s.len() > 1) {
        lemma_evicted_is_longest_fitting_prefix(s.drop_last(), capacity, budget);
        let e = evicted(s, capacity, budget);
        assert forall|n: int| e.len() < n <= s.len() implies !within_limits(
            #[trigger] s.take(n),
            capacity,
            budget,
        ) by {
            if n == s.len() {
                assert(s.take(n) =~= s);
            } else {
                assert(s.drop_last().take(n) =~= s.take(n));
            }
        }
    }
}

/// What an insert leaves, for a cache whose keys are distinct: the longest
/// prefix of the new entry followed by the old entries without its key (in
/// their order) that fits the limits. The new entry is first, keys stay
/// distinct, and only least recently used entries are dropped, from the
/// back.
pub proof fn lemma_insert_keeps_longest_fitting_prefix<T>(
    v: Seq<CachedView<T>>,
    entry: CachedView<T>,
    capacity: usize,
    budget: usize,
)
    requires
        keys_distinct(v),
        capacity >= 1,
    ensures
        ({
            let s = seq![entry] + without_key(v, entry.key);
            let after = evicted(s, capacity, budget);
            &&& after == s.take(after.len() as int)
            &&& within_limits(after, capacity, budget)
            &&& forall|n: int| after.len() < n <= s.len() ==> !within_limits(#[trigger] s.take(n), capacity, budget)
            &&& after.len() >= 1 && after[0] == entry
            &&& keys_distinct(after)
        }),
{
    let s = seq![entry] + without_key(v, entry.key);
    lemma_evicted_is_longest_fitting_prefix(s, capacity, budget);
    lemma_inserted_is_most_recent(v, entry, capacity, budget);
    lemma_without_total(v, entry.key);
    let w = without_key(v, entry.key);
    assert forall|i: int, j: int| 0 <= i < j < s.len() implies #[trigger] s[i].key != #[trigger] s[j].key by {
        assert(s[j] == w[j - 1]);
        if i > 0 {
            assert(s[i] == w[i - 1]);
        }
    }
    let after = evicted(s, capacity, budget);
    lemma_evicted(s, capacity, budget);
    lemma_take_distinct(s, after.len() as int);
}

/// A texture just inserted into a cache that holds at least one entry is
/// its most recent entry: a lookup of its key hits it.
pub proof fn lemma_inserted_is_most_recent<T>(
    v: Seq<CachedView<T>>,
    entry: CachedView<T>,
    capacity: usize,
    budget: usize,
)
    requires
        capacity >= 1,
    ensures
        ({
            let after = evicted(seq![entry] + without_key(v, entry.key), capacity, budget);
            &&& after.len() >= 1
            &&& after[0] == entry
            &&& key_position(after, entry.key) == Some(0int)
        }),
{
    let s = seq![entry] + without_key(v, entry.key);
    lemma_evicted(s, capacity, budget);
    lemma_evicted_at_least_one(s, capacity, budget);
    lemma_without_total(v, entry.key);
    let after = evicted(s, capacity, budget);
    assert(after[0] == s[0]);
    let k = choose|k: int| 0 <= k < after.len() && #[trigger] after[k].key == entry.key;
    if k > 0 {
        assert(after[k] == s[k]);
        assert(s[k] == without_key(v, entry.key)[k - 1]);
    }
}

proof fn lemma_evicted_at_least_one<T>(s: Seq<CachedView<T>>, capacity: usize, budget: usize)
    requires
        capacity >= 1,
        s.len() >= 1,
    ensures
        evicted(s, capacity, budget).len() >= 1,
    decreases s.len(),
{
    if s.len() > capacity || (total_bytes(s) > budget && s.len() > 1) {
        lemma_evicted_at_least_one(s.drop_last(), capacity, budget);
    }
}

impl<T> RecentTextures<T> {
    /// Drop the entry with `key`, if any.
    pub fn remove(&mut self, key: &TextureKey)
        requires
            old(self).wf(),
        ensures
            final(self).wf(),
            final(self).capacity() == old(self).capacity(),
            final(self).byte_budget() == old(self).byte_budget(),
            final(self).view() == without_key(old(self).view(), key.view()),
    {
        let ghost v = self.view();
        let ghost kv = key.view();
        let mut pending: Vec<CachedTexture<T>> = Vec::new();
        std::mem::swap(&mut pending, &mut self.entries);
        let mut kept: Vec<CachedTexture<T>> = Vec::new();
        let ghost mut consumed: int = 0;
        proof {
            assert(v.take(0) =~= Seq::<CachedView<T>>::empty());
            assert(pending@.map_values(|e: CachedTexture<T>| e.view()) =~= v.skip(0));
        }
        while pending.len() > 0
            invariant
                0 <= consumed <= v.len(),
                pending@.len() == v.len() - consumed,
                pending@.map_values(|e: CachedTexture<T>| e.view()) == v.skip(consumed),
                kept@.map_values(|e: CachedTexture<T>| e.view()) == without_key(v.take(consumed), kv),
                kv == key.view(),
            decreases pending@.len(),
        {
            let ghost pv = pending@;
            let e = pending.remove(0);
            proof {
                assert(pv.map_values(|e: CachedTexture<T>| e.view())[0] == e.view());
                assert(v.skip(consumed)[0] == e.view());
                assert(v[consumed] == e.view());
                assert(v.take(consumed + 1).drop_last() =~= v.take(consumed));
                assert(v.take(consumed + 1).last() == v[consumed]);
                assert(pending@ =~= pv.subrange(1, pv.len() as int));
                assert forall|k: int| 0 <= k < pending@.len() implies #[trigger] pending@[k].view() == v.skip(
                    consumed + 1,
                )[k] by {
                    assert(pending@[k] == pv[k + 1]);
                    assert(pv.map_values(|e: CachedTexture<T>| e.view())[k + 1] == pv[k + 1].view());
                }
                assert(pending@.map_values(|e: CachedTexture<T>| e.view()) =~= v.skip(consumed + 1));
            }
            if !same_texture_key(&e.key, key) {
                let ghost before = kept@.map_values(|e: CachedTexture<T>| e.view());
                kept.push(e);
                proof {
                    assert(kept@.map_values(|e: CachedTexture<T>| e.view()) =~= before.push(v[consumed]));
                }
            }
            proof {
                consumed = consumed + 1;
            }
        }
        proof {
            assert(v.take(consumed) =~= v);
            lemma_without_total(v, kv);
        }
        self.entries = kept;
    }
}


/// How many display textures the viewer keeps.
pub const DISPLAY_TEXTURE_CACHE_CAPACITY: usize = 32;
/// The pixel memory the viewer's display textures may take.
pub const DISPLAY_TEXTURE_CACHE_BYTE_BUDGET: usize = 268435456;
/// How many edited thumbnails the grid keeps.
pub const EDITED_THUMBNAIL_CACHE_CAPACITY: usize = 96;

/// The viewer's empty display-texture cache: 32 textures, 256 MiB.
pub fn display_texture_cache<T>() -> (cache: RecentTextures<T>)
    ensures
        cache.view().len() == 0,
        cache.capacity() == DISPLAY_TEXTURE_CACHE_CAPACITY,
        cache.byte_budget() == DISPLAY_TEXTURE_CACHE_BYTE_BUDGET,
        cache.wf(),
{
    RecentTextures::new(DISPLAY_TEXTURE_CACHE_CAPACITY, DISPLAY_TEXTURE_CACHE_BYTE_BUDGET)
}

/// The grid's empty cache of edited thumbnails: bounded by count alone
/// (its entries are recorded with no bytes and the budget is unlimited).
pub fn edited_thumbnail_cache<T>() -> (cache: RecentTextures<T>)
    ensures
        cache.view().len() == 0,
        cache.capacity() == EDITED_THUMBNAIL_CACHE_CAPACITY,
        cache.byte_budget() == usize::MAX,
        cache.wf(),
{
    RecentTextures::new(EDITED_THUMBNAIL_CACHE_CAPACITY, usize::MAX)
}

/// The key of an edited thumbnail: its path, the rotation modulo 360 and
/// the edit recipe; a thumbnail has no target size.
pub fn edited_thumbnail_key(path: &str, rotation: i32, edit_recipe: &str) -> (key: TextureKey)
    ensures
        key.view() == (TextureKeyView {
            path: path@,
            rotation: (rotation % 360) as i32,
            edit_recipe: edit_recipe@,
            target_width: 0,
            target_height: 0,
        }),
{
    TextureKey {
        path: crate::text::string_of(&chars_of(path)),
        rotation: crate::library::normalized_rotation(rotation),
        edit_recipe: crate::text::string_of(&chars_of(edit_recipe)),
        target_width: 0,
        target_height: 0,
    }
}

/// Whether a thumbnail needs the edit pipeline at all: a rotation that is
/// not a whole turn, or an edit recipe other than the default one.
pub fn thumbnail_needs_edit(rotation: i32, recipe_is_default: bool) -> (b: bool)
    ensures
        b == (rotation % 360 != 0 || !recipe_is_default),
{
    crate::library::normalized_rotation(rotation) != 0 || !recipe_is_default
}

} // verus!
