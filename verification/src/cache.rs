//! The decoder's cache of recently decoded frames, kept in an
//! `lru::LruCache` keyed by presentation stamp, and the lookup that lets a
//! seek near a cached frame skip decoding.
use crate::video::DecodedFrame;
use vstd::prelude::*;

verus! {

#[verifier::external_type_specification]
#[verifier::external_body]
#[verifier::reject_recursive_types(K)]
#[verifier::reject_recursive_types(V)]
#[verifier::reject_recursive_types(S)]
pub struct ExLruCache<K, V, S>(lru::LruCache<K, V, S>);

#[verifier::external_type_specification]
#[verifier::external_body]
pub struct ExLruHasher(lru::DefaultHasher);

/// What a cache entry records of a frame: width, height, time (ms) and
/// pixel bytes.
pub open spec fn frame_view(f: DecodedFrame) -> (u32, u32, i64, Seq<u8>) {
    (f.width, f.height, f.pts_ms, f.data@)
}

/// The entries of an `lru::LruCache` of frames, most recently used first:
/// each key (a presentation stamp) with what it holds of its frame.
pub uninterp spec fn lru_frames(c: lru::LruCache<i64, DecodedFrame>) -> Seq<(i64, (u32, u32, i64, Seq<u8>))>;

/// The number of entries an `lru::LruCache` was made to hold.
pub uninterp spec fn lru_cap(c: lru::LruCache<i64, DecodedFrame>) -> nat;

/// `e` holds an entry under key `k`.
pub open spec fn holds_key<T>(e: Seq<(i64, T)>, k: i64) -> bool {
    exists|i: int| 0 <= i < e.len() && #[trigger] e[i].0 == k
}

/// No key occurs twice.
pub open spec fn keys_distinct<T>(e: Seq<(i64, T)>) -> bool {
    forall|i: int, j: int| 0 <= i < e.len() && 0 <= j < e.len() && i != j ==> #[trigger] e[i].0 != #[trigger] e[j].0
}

/// `e` without its entries under key `k`, order kept.
pub open spec fn without_key<T>(e: Seq<(i64, T)>, k: i64) -> Seq<(i64, T)>
    decreases e.len(),
{
    if e.len() == 0 {
        e
    } else if e.last().0 == k {
        without_key(e.drop_last(), k)
    } else {
        without_key(e.drop_last(), k).push(e.last())
    }
}

/// The entries after `put(k, v)` on a cache holding `e` and made for `cap`
/// entries: the new entry comes first; an old entry under `k` leaves, or,
/// when there was none and the cache was full, the least recently used
/// entry (the last) leaves.
pub open spec fn after_put<T>(e: Seq<(i64, T)>, cap: nat, k: i64, v: T) -> Seq<(i64, T)> {
    if holds_key(e, k) {
        seq![(k, v)] + without_key(e, k)
    } else if e.len() >= cap {
        seq![(k, v)] + e.drop_last()
    } else {
        seq![(k, v)] + e
    }
}

/// `lru::LruCache::new` with the capacity `cap` (made a `NonZeroUsize`):
/// an empty cache made for `cap` entries.
#[verifier::external_body]
fn lru_new(cap: usize) -> (c: lru::LruCache<i64, DecodedFrame>)
    requires
        cap > 0,
    ensures
        lru_frames(c) == Seq::<(i64, (u32, u32, i64, Seq<u8>))>::empty(),
        lru_cap(c) == cap,
{
    lru::LruCache::new(std::num::NonZeroUsize::new(cap).unwrap())
}

/// `lru::LruCache::put`: the entries become `after_put` of the old ones
/// (the source replaces and moves an existing key to the front, or, with the
/// cache full, reuses the least recently used entry); the capacity stays.
/// The value `put` hands back (the replaced frame) is dropped.
#[verifier::external_body]
fn lru_put(c: &mut lru::LruCache<i64, DecodedFrame>, pts: i64, frame: DecodedFrame)
    ensures
        lru_frames(*final(c)) == after_put(lru_frames(*old(c)), lru_cap(*old(c)), pts, frame_view(frame)),
        lru_cap(*final(c)) == lru_cap(*old(c)),
{
    c.put(pts, frame);
}

/// `lru::LruCache::iter`, its items copied out: the entries in most
/// recently used order, each key with a frame sharing the cached pixels.
#[verifier::external_body]
fn lru_entries(c: &lru::LruCache<i64, DecodedFrame>) -> (r: Vec<(i64, DecodedFrame)>)
    ensures
        r@.len() == lru_frames(*c).len(),
        forall|i: int|
            0 <= i < r@.len() ==> r@[i].0 == lru_frames(*c)[i].0 && frame_view(r@[i].1) == lru_frames(
                *c,
            )[i].1,
{
    c.iter().map(
        |(k, f)|
            (
                *k,
                DecodedFrame {
                    data: std::sync::Arc::clone(&f.data),
                    width: f.width,
                    height: f.height,
                    pts_ms: f.pts_ms,
                },
            ),
    ).collect()
}

/// A frame time within 40 ms (one frame at 25 fps) of the seek target.
pub open spec fn near_target(pts_ms: i64, target_ms: i64) -> bool {
    -40 < pts_ms - target_ms < 40
}

/// The lookup result for `target_ms` over entries `e`: the first entry (most
/// recently used) whose frame time is near the target.
pub open spec fn first_near(e: Seq<(i64, (u32, u32, i64, Seq<u8>))>, target_ms: i64, k: int) -> bool {
    &&& 0 <= k < e.len()
    &&& near_target(e[k].1.2, target_ms)
    &&& forall|j: int| 0 <= j < k ==> !near_target(#[trigger] e[j].1.2, target_ms)
}

/// Recently decoded frames, keyed by presentation stamp. A frame's time
/// `pts_ms` is derived from its stamp, so a frame is looked up by its time.
pub struct FrameCache {
    frames: lru::LruCache<i64, DecodedFrame>,
}

impl FrameCache {
    /// The cached entries, most recently used first.
    pub closed spec fn entries(&self) -> Seq<(i64, (u32, u32, i64, Seq<u8>))> {
        lru_frames(self.frames)
    }

    /// How many entries the cache keeps.
    pub closed spec fn capacity(&self) -> nat {
        lru_cap(self.frames)
    }

    /// An empty cache for `cap` frames.
    pub fn new(cap: usize) -> (c: Self)
        requires
            cap > 0,
        ensures
            c.entries() == Seq::<(i64, (u32, u32, i64, Seq<u8>))>::empty(),
            c.capacity() == cap,
    {
        FrameCache { frames: lru_new(cap) }
    }

    /// Caches `frame` under its stamp `pts`, as the most recently used.
    pub fn insert(&mut self, pts: i64, frame: DecodedFrame)
        ensures
            final(self).entries() == after_put(old(self).entries(), old(self).capacity(), pts, frame_view(frame)),
            final(self).capacity() == old(self).capacity(),
    {
        lru_put(&mut self.frames, pts, frame);
    }

    /// A cached frame within 40 ms of `target_ms`, the most recently used
    /// one if several are; `None` if none is.
    pub fn find_near(&self, target_ms: i64) -> (r: Option<DecodedFrame>)
        ensures
            match r {
                Some(f) => exists|k: int| first_near(self.entries(), target_ms, k) && #[trigger] self.entries()[k].1 == frame_view(f),
                None => forall|k: int| 0 <= k < self.entries().len() ==> !near_target(#[trigger] self.entries()[k].1.2, target_ms),
            },
    {
        let mut items = lru_entries(&self.frames);
        let ghost e = self.entries();
        let mut i: usize = 0;
        while i < items.len()
            invariant
                e == self.entries(),
                items@.len() == e.len(),
                forall|q: int| 0 <= q < items@.len() ==> items@[q].0 == e[q].0 && frame_view(items@[q].1) == e[q].1,
                i <= items@.len(),
                forall|j: int| 0 <= j < i ==> !near_target(#[trigger] e[j].1.2, target_ms),
            decreases items.len() - i,
        {
            let pts_ms = items[i].1.pts_ms;
            assert(pts_ms == e[i as int].1.2);
            let d: i128 = pts_ms as i128 - target_ms as i128;
            if -40 < d && d < 40 {
                let ghost k = i as int;
                let (_, f) = items.swap_remove(i);
                assert(first_near(e, target_ms, k));
                assert(e[k].1 == frame_view(f));
                return Some(f);
            }
            i = i + 1;
        }
        None
    }
}

/// The cache never holds a key twice nor more entries than it was made
/// for: `put` keeps both.
pub proof fn law_put_keeps_bounds<T>(e: Seq<(i64, T)>, cap: nat, k: i64, v: T)
    requires
        keys_distinct(e),
        e.len() <= cap,
        cap > 0,
    ensures
        keys_distinct(after_put(e, cap, k, v)),
        after_put(e, cap, k, v).len() <= cap,
        after_put(e, cap, k, v)[0] == (k, v),
{
    lemma_without_key(e, k);
    let r = after_put(e, cap, k, v);
    if holds_key(e, k) {
        let w = without_key(e, k);
        let i0 = choose|i: int| 0 <= i < e.len() && #[trigger] e[i].0 == k;
        lemma_without_key_shorter(e, k, i0);
        assert forall|i: int, j: int| 0 <= i < r.len() && 0 <= j < r.len() && i != j implies #[trigger] r[i].0
            != #[trigger] r[j].0 by {
            if i > 0 && j > 0 {
                assert(r[i] == w[i - 1]);
                assert(r[j] == w[j - 1]);
            } else if i == 0 {
                assert(r[j] == w[j - 1]);
            } else {
                assert(r[i] == w[i - 1]);
            }
        }
    } else {
        let p = if e.len() >= cap {
            e.drop_last()
        } else {
            e
        };
        assert forall|i: int, j: int| 0 <= i < r.len() && 0 <= j < r.len() && i != j implies #[trigger] r[i].0
            != #[trigger] r[j].0 by {
            if i > 0 && j > 0 {
                assert(r[i] == p[i - 1] && p[i - 1] == e[i - 1]);
                assert(r[j] == p[j - 1] && p[j - 1] == e[j - 1]);
            } else if i == 0 {
                assert(r[j] == e[j - 1]);
            } else {
                assert(r[i] == e[i - 1]);
            }
        }
    }
}

/// Removing a key leaves every other entry, and no entry under the key.
proof fn lemma_without_key<T>(e: Seq<(i64, T)>, k: i64)
    requires
        keys_distinct(e),
    ensures
        without_key(e, k).len() <= e.len(),
        keys_distinct(without_key(e, k)),
        forall|i: int| 0 <= i < without_key(e, k).len() ==> (#[trigger] without_key(e, k)[i]).0 != k,
        forall|i: int|
            0 <= i < without_key(e, k).len() ==> exists|j: int| 0 <= j < e.len() && e[j] == #[trigger] without_key(e, k)[i],
    decreases e.len(),
{
    if e.len() > 0 {
        let p = e.drop_last();
        assert(keys_distinct(p)) by {
            assert forall|i: int, j: int| 0 <= i < p.len() && 0 <= j < p.len() && i != j implies #[trigger] p[i].0
                != #[trigger] p[j].0 by {
                assert(p[i] == e[i] && p[j] == e[j]);
            }
        }
        lemma_without_key(p, k);
        let wp = without_key(p, k);
        let w = without_key(e, k);
        assert forall|i: int| 0 <= i < w.len() implies exists|j: int| 0 <= j < e.len() && e[j] == #[trigger] w[i] by {
            if i < wp.len() {
                assert(w[i] == wp[i]);
                let j = choose|j: int| 0 <= j < p.len() && p[j] == wp[i];
                assert(e[j] == p[j]);
            } else {
                assert(w[i] == e.last());
                assert(e[e.len() - 1] == e.last());
            }
        }
        if e.last().0 != k {
            assert forall|i: int, j: int| 0 <= i < w.len() && 0 <= j < w.len() && i != j implies #[trigger] w[i].0
                != #[trigger] w[j].0 by {
                if i < wp.len() && j < wp.len() {
                    assert(w[i] == wp[i] && w[j] == wp[j]);
                } else if i < wp.len() {
                    assert(w[i] == wp[i] && w[j] == e.last());
                    let q = choose|q: int| 0 <= q < p.len() && p[q] == wp[i];
                    assert(e[q] == p[q]);
                    assert(e[e.len() - 1] == e.last());
                } else {
                    assert(w[j] == wp[j] && w[i] == e.last());
                    let q = choose|q: int| 0 <= q < p.len() && p[q] == wp[j];
                    assert(e[q] == p[q]);
                    assert(e[e.len() - 1] == e.last());
                }
            }
        }
    }
}

/// Removing a key that is present makes the entries shorter by at least one.
proof fn lemma_without_key_shorter<T>(e: Seq<(i64, T)>, k: i64, i0: int)
    requires
        0 <= i0 < e.len(),
        e[i0].0 == k,
    ensures
        without_key(e, k).len() < e.len(),
    decreases e.len(),
{
    lemma_without_key_le(e.drop_last(), k);
    if i0 < e.len() - 1 {
        assert(e.drop_last()[i0] == e[i0]);
        lemma_without_key_shorter(e.drop_last(), k, i0);
    }
}

proof fn lemma_without_key_le<T>(e: Seq<(i64, T)>, k: i64)
    ensures
        without_key(e, k).len() <= e.len(),
    decreases e.len(),
{
    if e.len() > 0 {
        lemma_without_key_le(e.drop_last(), k);
    }
}

/// A frame just cached is what a seek to its own time finds.
pub proof fn law_inserted_frame_is_found(e: Seq<(i64, (u32, u32, i64, Seq<u8>))>, cap: nat, pts: i64, v: (u32, u32, i64, Seq<u8>))
    ensures
        first_near(after_put(e, cap, pts, v), v.2, 0),
        after_put(e, cap, pts, v)[0].1 == v,
{
}

} // verus!
