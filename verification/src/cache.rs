//! The in-memory cache of finished frames, least recently used out first.

use vstd::prelude::*;
use vstd::string::*;
use lru::LruCache;
use crate::frame::{Frame, FrameView};

verus! {

/// Trusted: the cache type of the `lru` crate. Nothing inside it is
/// visible here; what it holds is spoken of through `lru_entries`.
#[verifier::external_type_specification]
#[verifier::external_body]
#[verifier::reject_recursive_types(K)]
#[verifier::reject_recursive_types(V)]
#[verifier::reject_recursive_types(S)]
pub struct ExLruCache<K, V, S>(LruCache<K, V, S>);

/// Trusted: the hasher that a cache of the `lru` crate uses unless
/// it is given another. It is only carried through.
#[verifier::external_type_specification]
#[verifier::external_body]
pub struct ExDefaultHasher(lru::DefaultHasher);

/// What a cache holds: its keys with their frames, the most recently used first.
pub uninterp spec fn lru_entries(c: LruCache<String, Frame>) -> Seq<(Seq<char>, FrameView)>;

/// The number of entries that a cache was made to hold at most.
pub uninterp spec fn lru_limit(c: LruCache<String, Frame>) -> nat;

/// The index of the entry with the given key, or -1.
pub open spec fn key_index(entries: Seq<(Seq<char>, FrameView)>, key: Seq<char>) -> int
    decreases entries.len(),
{
    if entries.len() == 0 {
        -1
    } else if entries[0].0 == key {
        0
    } else if key_index(entries.skip(1), key) < 0 {
        -1
    } else {
        key_index(entries.skip(1), key) + 1
    }
}

/// The entries with the one at `i` moved to the front.
pub open spec fn promoted(entries: Seq<(Seq<char>, FrameView)>, i: int) -> Seq<
    (Seq<char>, FrameView),
> {
    seq![entries[i]] + entries.remove(i)
}

/// The entries after `key` was put with `value`: the entry is in front;
/// an older entry of that key is gone, and otherwise, in a full cache,
/// the least recently used entry.
pub open spec fn after_put(
    entries: Seq<(Seq<char>, FrameView)>,
    limit: nat,
    key: Seq<char>,
    value: FrameView,
) -> Seq<(Seq<char>, FrameView)> {
    if key_index(entries, key) >= 0 {
        seq![(key, value)] + entries.remove(key_index(entries, key))
    } else if entries.len() == limit {
        seq![(key, value)] + entries.drop_last()
    } else {
        seq![(key, value)] + entries
    }
}

/// Makes an empty cache for at most `cap` entries.
///
/// Trusted: calls `LruCache::new` of the `lru` crate, which makes a
/// cache without entries that holds at most `cap` of them.
#[verifier::external_body]
fn lru_new(cap: usize) -> (c: LruCache<String, Frame>)
    requires
        cap > 0,
    ensures
        lru_entries(c) == Seq::<(Seq<char>, FrameView)>::empty(),
        lru_limit(c) == cap,
{
    LruCache::new(std::num::NonZeroUsize::new(cap).unwrap())
}

/// Looks a key up and marks its entry as the most recently used.
///
/// Trusted: calls `LruCache::get` of the `lru` crate and says whether it
/// found an entry. As its source shows, an entry that is found moves to
/// the front of the list, and nothing else changes.
#[verifier::external_body]
fn lru_touch(c: &mut LruCache<String, Frame>, key: &str) -> (found: bool)
    ensures
        found == (key_index(lru_entries(*old(c)), key@) >= 0),
        lru_limit(*final(c)) == lru_limit(*old(c)),
        lru_entries(*final(c)) == (if found {
            promoted(lru_entries(*old(c)), key_index(lru_entries(*old(c)), key@))
        } else {
            lru_entries(*old(c))
        }),
{
    c.get(key).is_some()
}

/// Puts a frame under a key.
///
/// Trusted: calls `LruCache::put` of the `lru` crate. As its source
/// shows, the entry is then the most recently used one; an entry that
/// the key had before is replaced, and otherwise a cache that is full
/// loses its least recently used entry.
#[verifier::external_body]
fn lru_put(c: &mut LruCache<String, Frame>, key: String, frame: Frame)
    ensures
        lru_limit(*final(c)) == lru_limit(*old(c)),
        lru_entries(*final(c)) == after_put(
            lru_entries(*old(c)),
            lru_limit(*old(c)),
            key@,
            frame@,
        ),
{
    c.put(key, frame);
}

/// Looks a key up without marking its entry as used.
///
/// Trusted: calls `LruCache::peek` of the `lru` crate, which hands out
/// the frame stored under the key, if there is one.
#[verifier::external_body]
fn lru_peek<'a>(c: &'a LruCache<String, Frame>, key: &str) -> (r: Option<&'a Frame>)
    ensures
        r is Some <==> key_index(lru_entries(*c), key@) >= 0,
        r matches Some(f) ==> f@ == lru_entries(*c)[key_index(lru_entries(*c), key@)].1,
{
    c.peek(key)
}

/// No key has two entries, and the cache holds no more than its limit.
pub open spec fn entries_wf(entries: Seq<(Seq<char>, FrameView)>, limit: nat) -> bool {
    &&& limit > 0
    &&& entries.len() <= limit
    &&& forall|i: int, j: int|
        0 <= i < j < entries.len() ==> (#[trigger] entries[i]).0 != (#[trigger] entries[j]).0
}

/// The index of a key is that of the first entry with the key.
pub proof fn lemma_key_index(entries: Seq<(Seq<char>, FrameView)>, key: Seq<char>)
    ensures
        -1 <= key_index(entries, key) < entries.len(),
        key_index(entries, key) >= 0 ==> entries[key_index(entries, key)].0 == key,
        forall|i: int|
            0 <= i < entries.len() && (key_index(entries, key) < 0 || i < key_index(entries, key))
                ==> (#[trigger] entries[i]).0 != key,
    decreases entries.len(),
{
    if entries.len() > 0 && entries[0].0 != key {
        let rest = entries.skip(1);
        lemma_key_index(rest, key);
        assert forall|i: int|
            0 <= i < entries.len() && (key_index(entries, key) < 0 || i < key_index(
                entries,
                key,
            )) implies (#[trigger] entries[i]).0 != key by {
            if i > 0 {
                assert(rest[i - 1] == entries[i]);
            }
        }
        if key_index(rest, key) >= 0 {
            assert(rest[key_index(rest, key)] == entries[key_index(rest, key) + 1]);
        }
    }
}

/// The frames that were made last, by the path of their final file.
pub struct FrameCache {
    inner: LruCache<String, Frame>,
}

impl View for FrameCache {
    type V = Seq<(Seq<char>, FrameView)>;

    closed spec fn view(&self) -> Seq<(Seq<char>, FrameView)> {
        lru_entries(self.inner)
    }
}

impl FrameCache {
    /// The number of entries the cache holds at most.
    pub closed spec fn limit(&self) -> nat {
        lru_limit(self.inner)
    }

    /// No key has two entries, and there are no more entries than the limit.
    pub open spec fn wf(&self) -> bool {
        entries_wf(self@, self.limit())
    }

    /// An empty cache for at most `capacity` frames.
    pub fn new(capacity: usize) -> (r: FrameCache)
        requires
            capacity > 0,
        ensures
            r.wf(),
            r@.len() == 0,
            r.limit() == capacity,
    {
        FrameCache { inner: lru_new(capacity) }
    }

    /// The number of decoded images that are kept for the finish tasks
    /// that read the same upscaled file. It is small because the images
    /// can be very large.
    pub fn file_cache_size() -> (n: usize)
        ensures
            n == 5,
    {
        5
    }

    /// The cache of final frames for a number of displays: three frames for each.
    pub fn for_displays(displays: usize) -> (r: FrameCache)
        requires
            0 < displays,
            displays * 3 <= usize::MAX,
        ensures
            r.wf(),
            r@.len() == 0,
            r.limit() == displays * 3,
    {
        FrameCache { inner: lru_new(displays * 3) }
    }

    /// Whether the cache holds a frame for `key`, which then counts as used.
    pub fn touch(&mut self, key: &str) -> (found: bool)
        requires
            old(self).wf(),
        ensures
            found == (key_index(old(self)@, key@) >= 0),
            final(self).limit() == old(self).limit(),
            final(self)@ == (if found {
                promoted(old(self)@, key_index(old(self)@, key@))
            } else {
                old(self)@
            }),
            final(self).wf(),
    {
        proof {
            lemma_key_index(self@, key@);
        }
        let found = lru_touch(&mut self.inner, key);
        proof {
            if found {
                lemma_promoted_wf(old(self)@, old(self).limit(), key_index(old(self)@, key@));
            }
        }
        found
    }

    /// Stores a frame under `key` as the most recently used one.
    pub fn put(&mut self, key: String, frame: Frame)
        requires
            old(self).wf(),
        ensures
            final(self).limit() == old(self).limit(),
            final(self)@ == after_put(old(self)@, old(self).limit(), key@, frame@),
            final(self).wf(),
    {
        proof {
            lemma_after_put_wf(self@, self.limit(), key@, frame@);
        }
        lru_put(&mut self.inner, key, frame);
    }

    /// The frame stored under `key`, which does not count as used by this.
    pub fn peek(&self, key: &str) -> (r: Option<&Frame>)
        ensures
            r is Some <==> key_index(self@, key@) >= 0,
            r matches Some(f) ==> f@ == self@[key_index(self@, key@)].1,
    {
        lru_peek(&self.inner, key)
    }
}

/// Moving an entry to the front keeps a cache well formed.
pub proof fn lemma_promoted_wf(entries: Seq<(Seq<char>, FrameView)>, limit: nat, i: int)
    requires
        entries_wf(entries, limit),
        0 <= i < entries.len(),
    ensures
        entries_wf(promoted(entries, i), limit),
{
    let p = promoted(entries, i);
    assert forall|a: int, b: int| 0 <= a < b < p.len() implies (#[trigger] p[a]).0 != (
    #[trigger] p[b]).0 by {
        let a0 = if a == 0 { i } else if a - 1 < i { a - 1 } else { a };
        let b0 = if b - 1 < i { b - 1 } else { b };
        assert(p[a] == entries[a0]);
        assert(p[b] == entries[b0]);
        if a0 < b0 {
            assert(entries[a0].0 != entries[b0].0);
        } else {
            assert(entries[b0].0 != entries[a0].0);
        }
    }
}

/// Putting an entry keeps a cache well formed.
pub proof fn lemma_after_put_wf(
    entries: Seq<(Seq<char>, FrameView)>,
    limit: nat,
    key: Seq<char>,
    value: FrameView,
)
    requires
        entries_wf(entries, limit),
    ensures
        entries_wf(after_put(entries, limit, key, value), limit),
        key_index(after_put(entries, limit, key, value), key) == 0,
{
    let p = after_put(entries, limit, key, value);
    let k = key_index(entries, key);
    lemma_key_index(entries, key);
    assert forall|a: int, b: int| 0 <= a < b < p.len() implies (#[trigger] p[a]).0 != (
    #[trigger] p[b]).0 by {
        if k >= 0 {
            let b0 = if b - 1 < k { b - 1 } else { b };
            assert(p[b] == entries[b0]);
            if a == 0 {
                if b0 < k {
                    assert(entries[b0].0 != entries[k].0);
                } else {
                    assert(entries[k].0 != entries[b0].0);
                }
            } else {
                let a0 = if a - 1 < k { a - 1 } else { a };
                assert(p[a] == entries[a0]);
                assert(entries[a0].0 != entries[b0].0);
            }
        } else {
            assert(p[b] == entries[b - 1]);
            if a > 0 {
                assert(p[a] == entries[a - 1]);
                assert(entries[a - 1].0 != entries[b - 1].0);
            }
        }
    }
    assert(p[0].0 == key);
}

} // verus!
