//! The client's shard cache and lock operations.
//!
//! A client routes every key to its shard.  While the shard's data sits in
//! the cache, `lock` and `unlock` flip the key's bit locally and touch no
//! stream; only a miss (or a stolen entry) makes the caller open a session
//! and acquire the shard from the server.  A per-entry release watcher may
//! empty the entry's data slot when the server steals the shard; whoever
//! takes the data out of a slot is the one that sends it back, which keeps
//! releasing idempotent.

use vstd::prelude::*;
use crate::api::{ClientError, LockResponse};
use crate::data::{find_str, key_index, lemma_key_index, lemma_key_index_at, lemma_key_index_push,
    ShardData};
use crate::resource::Resource;

verus! {

/// Ghost image of one cache entry: the cached lock table (`None` when the
/// shard was stolen) and the session the shard was acquired over.
pub struct EntryView {
    pub slot: Option<Map<Seq<char>, bool>>,
    pub session: u64,
}

/// One cached shard: the data slot shared with the entry's release
/// watcher, and the id of the session used to give the shard back.
pub struct CacheEntry {
    data: Option<ShardData>,
    session: u64,
}

impl CacheEntry {
    /// Cached data, if any, is well-formed.
    pub closed spec fn wf(self) -> bool {
        self.data matches Some(d) ==> d.wf()
    }

    pub closed spec fn view(self) -> EntryView {
        EntryView {
            slot: match self.data {
                Some(d) => Some(d@),
                None => None,
            },
            session: self.session,
        }
    }

    /// A freshly acquired entry: the data is present.
    pub fn new(data: ShardData, session: u64) -> (r: CacheEntry)
        requires
            data.wf(),
        ensures
            r.wf(),
            r@ == (EntryView { slot: Some(data@), session }),
    {
        CacheEntry { data: Some(data), session }
    }

    /// Takes the data out of the slot.  On an already-empty slot this is a
    /// no-op: whoever took the data is the one that sends it back.
    pub fn release(&mut self) -> (r: Option<ShardData>)
        requires
            old(self).wf(),
        ensures
            final(self).wf(),
            match r {
                Some(d) => old(self)@.slot == Some(d@) && d.wf()
                    && final(self)@ == (EntryView { slot: None, session: old(self)@.session }),
                None => old(self)@.slot is None && final(self)@ == old(self)@,
            },
    {
        self.data.take()
    }

    /// The session the entry's shard was acquired over.
    pub fn session(&self) -> (r: u64)
        ensures
            r == self@.session,
    {
        self.session
    }
}

/// The cache: shard id to cache entry, owned by one client driver.
pub struct CacheMap {
    ids: Vec<String>,
    entries: Vec<CacheEntry>,
}

impl CacheMap {
    /// Well-formed: one entry per id, no id twice, entries well-formed.
    pub closed spec fn wf(self) -> bool {
        &&& self.ids@.len() == self.entries@.len()
        &&& forall|i: int, j: int|
            0 <= i < j < self.ids@.len() ==> (#[trigger] self.ids@[i])@ != (#[trigger] self.ids@[j])@
        &&& forall|i: int| 0 <= i < self.entries@.len() ==> (#[trigger] self.entries@[i]).wf()
    }

    /// The cache as a finite map from shard ids to entry images.
    pub closed spec fn view(self) -> Map<Seq<char>, EntryView> {
        Map::new(
            |k: Seq<char>| key_index(self.ids@, k) >= 0,
            |k: Seq<char>| self.entries@[key_index(self.ids@, k)]@,
        )
    }

    /// An empty cache.
    pub fn new() -> (r: CacheMap)
        ensures
            r.wf(),
            r@ == Map::<Seq<char>, EntryView>::empty(),
    {
        let r = CacheMap { ids: Vec::new(), entries: Vec::new() };
        proof {
            assert forall|k: Seq<char>| !r@.contains_key(k) by {
                lemma_key_index(r.ids@, k);
            }
            assert(r@ =~= Map::<Seq<char>, EntryView>::empty());
        }
        r
    }

    /// Replacing the entry at slot `i` updates the view at its id alone.
    proof fn lemma_update_view(self, old_self: CacheMap, i: int)
        requires
            old_self.ids@.len() == old_self.entries@.len(),
            forall|a: int, b: int|
                0 <= a < b < old_self.ids@.len()
                    ==> (#[trigger] old_self.ids@[a])@ != (#[trigger] old_self.ids@[b])@,
            0 <= i < old_self.ids@.len(),
            self.ids@ == old_self.ids@,
            self.entries@ == old_self.entries@.update(i, self.entries@[i]),
        ensures
            self@ == old_self@.insert(old_self.ids@[i]@, self.entries@[i]@),
    {
        let k = old_self.ids@[i]@;
        lemma_key_index_at(self.ids@, k, i);
        assert forall|q: Seq<char>| key_index(self.ids@, q) >= 0 && q != k implies
            self.entries@[#[trigger] key_index(self.ids@, q)]@
                == old_self.entries@[key_index(self.ids@, q)]@ by {
            lemma_key_index(self.ids@, q);
            if key_index(self.ids@, q) == i {
                assert(self.ids@[i]@ == q);
            }
        }
        assert(self@ =~= old_self@.insert(k, self.entries@[i]@));
    }

    /// Appending an entry under a fresh id inserts it into the view.
    proof fn lemma_push_view(self, old_self: CacheMap)
        requires
            old_self.ids@.len() == old_self.entries@.len(),
            self.ids@.len() == old_self.ids@.len() + 1,
            self.ids@ == old_self.ids@.push(self.ids@.last()),
            self.entries@ == old_self.entries@.push(self.entries@.last()),
            key_index(old_self.ids@, self.ids@.last()@) == -1,
        ensures
            self@ == old_self@.insert(self.ids@.last()@, self.entries@.last()@),
    {
        let k = self.ids@.last()@;
        assert forall|q: Seq<char>| true implies
            #[trigger] key_index(self.ids@, q) == if key_index(old_self.ids@, q) >= 0 {
                key_index(old_self.ids@, q)
            } else if k == q {
                old_self.ids@.len() as int
            } else {
                -1
            } by {
            lemma_key_index_push(old_self.ids@, self.ids@.last(), q);
        }
        assert forall|q: Seq<char>| true implies
            -1 <= #[trigger] key_index(old_self.ids@, q) < old_self.ids@.len() by {
            lemma_key_index(old_self.ids@, q);
        }
        assert(self@ =~= old_self@.insert(k, self.entries@.last()@));
    }
}

/// What a lock operation did, or still needs: `Done` when the shard was
/// cached and the bit was flipped locally (with whether it changed), or
/// `NeedAcquire` when the caller must acquire the named shard from the
/// server and then apply the operation with `finish_acquire`.
pub enum LockStep {
    Done(bool),
    NeedAcquire(String),
}

/// Unlocking a key whose bit was not set is a programming error.
#[derive(Clone, Copy, Debug, PartialEq, Eq, Structural)]
pub enum UnlockError {
    NotHeld,
}

/// The local half of a lock operation on the cache: a populated entry
/// serves the operation in place; a stolen entry (or no entry) makes the
/// caller go to the server, and changes nothing in the cache.
pub open spec fn set_locked_spec(
    pre: Map<Seq<char>, EntryView>,
    sid: Seq<char>,
    key: Seq<char>,
    value: bool,
    post: Map<Seq<char>, EntryView>,
    r: LockStep,
) -> bool {
    match r {
        LockStep::Done(changed) => {
            &&& pre.contains_key(sid)
            &&& pre[sid].slot matches Some(m)
            &&& m.contains_key(key)
            &&& post == pre.insert(
                sid,
                EntryView { slot: Some(m.insert(key, value)), session: pre[sid].session },
            )
            &&& changed == (m[key] != value)
        },
        LockStep::NeedAcquire(s) => {
            &&& s@ == sid
            &&& post == pre
            &&& pre.contains_key(sid) ==> pre[sid].slot is None
        },
    }
}

/// The key's cached shard, if populated, holds the key.
pub open spec fn routed_key_ok(
    pre: Map<Seq<char>, EntryView>,
    sid: Seq<char>,
    key: Seq<char>,
) -> bool {
    pre.contains_key(sid) ==> match pre[sid].slot {
        Some(m) => m.contains_key(key),
        None => true,
    }
}

/// What draining the cache returns: every populated entry, each exactly
/// once, and nothing else; the cache is empty afterwards.
pub open spec fn release_all_spec(
    pre: Map<Seq<char>, EntryView>,
    post: Map<Seq<char>, EntryView>,
    r: Seq<(String, u64, ShardData)>,
) -> bool {
    &&& post == Map::<Seq<char>, EntryView>::empty()
    &&& forall|i: int| 0 <= i < r.len() ==> {
        &&& pre.contains_key((#[trigger] r[i]).0@)
        &&& pre[r[i].0@] == (EntryView { slot: Some(r[i].2@), session: r[i].1 })
        &&& r[i].2.wf()
    }
    &&& forall|k: Seq<char>| pre.contains_key(k) && (#[trigger] pre[k]).slot is Some
        ==> exists|i: int| 0 <= i < r.len() && (#[trigger] r[i]).0@ == k
    &&& forall|i: int, j: int| 0 <= i < j < r.len()
        ==> (#[trigger] r[i]).0@ != (#[trigger] r[j]).0@
}

/// The client's lock handle: its name, its shard cache, and the resource
/// that routes keys to shards.
pub struct Lock<R> {
    client_name: Option<String>,
    cache: CacheMap,
    resource: R,
}

impl<R: Resource> Lock<R> {
    pub closed spec fn wf(self) -> bool {
        self.cache.wf()
    }

    /// The cache's contents.
    pub closed spec fn cache_view(self) -> Map<Seq<char>, EntryView> {
        self.cache@
    }

    /// The resource that routes keys.
    pub closed spec fn resource_spec(self) -> R {
        self.resource
    }

    /// The client's name.
    pub closed spec fn client_name_spec(self) -> Option<String> {
        self.client_name
    }

    pub fn new(client_name: Option<String>, resource: R) -> (r: Lock<R>)
        ensures
            r.wf(),
            r.cache_view() == Map::<Seq<char>, EntryView>::empty(),
            r.resource_spec() == resource,
            r.client_name_spec() == client_name,
    {
        Lock { client_name, cache: CacheMap::new(), resource }
    }

    /// The client's name, for logs and metrics.
    pub fn client_name(&self) -> (r: &Option<String>)
        ensures
            *r == self.client_name_spec(),
    {
        &self.client_name
    }

    /// Sets the bit of `key` to `value` if its shard is cached; otherwise
    /// names the shard the caller must acquire first.
    pub fn set_locked(&mut self, key: &str, value: bool) -> (r: LockStep)
        requires
            old(self).wf(),
            routed_key_ok(
                old(self).cache_view(),
                old(self).resource_spec().shard_of(key@),
                key@,
            ),
        ensures
            final(self).wf(),
            final(self).resource_spec() == old(self).resource_spec(),
            set_locked_spec(
                old(self).cache_view(),
                old(self).resource_spec().shard_of(key@),
                key@,
                value,
                final(self).cache_view(),
                r,
            ),
    {
        let sid = self.resource.get_shard_id(key);
        match find_str(&self.cache.ids, sid.as_str()) {
            None => {
                proof {
                    lemma_key_index(self.cache.ids@, sid@);
                    if key_index(self.cache.ids@, sid@) >= 0 {
                        assert(self.cache.ids@[key_index(self.cache.ids@, sid@)]@ == sid@);
                    }
                }
                LockStep::NeedAcquire(sid)
            },
            Some(i) => {
                proof {
                    lemma_key_index_at(self.cache.ids@, sid@, i as int);
                }
                let ghost old_cache = self.cache;
                let mut e = self.cache.entries.remove(i);
                match e.release() {
                    None => {
                        self.cache.entries.insert(i, e);
                        proof {
                            assert(self.cache.entries@ =~= old_cache.entries@);
                            assert(self.cache@ =~= old_cache@);
                        }
                        LockStep::NeedAcquire(sid)
                    },
                    Some(mut d) => {
                        let changed = d.set(key, value);
                        e = CacheEntry::new(d, e.session);
                        self.cache.entries.insert(i, e);
                        proof {
                            assert(self.cache.entries@ =~= old_cache.entries@.update(
                                i as int,
                                self.cache.entries@[i as int],
                            ));
                            self.cache.lemma_update_view(old_cache, i as int);
                        }
                        LockStep::Done(changed)
                    },
                }
            },
        }
    }

    /// `lock(key)`: sets the key's bit, or names the shard to acquire.  The
    /// returned `Done` flag says whether the bit changed, that is whether
    /// the lock was actually taken.
    pub fn lock(&mut self, key: &str) -> (r: LockStep)
        requires
            old(self).wf(),
            routed_key_ok(
                old(self).cache_view(),
                old(self).resource_spec().shard_of(key@),
                key@,
            ),
        ensures
            final(self).wf(),
            final(self).resource_spec() == old(self).resource_spec(),
            set_locked_spec(
                old(self).cache_view(),
                old(self).resource_spec().shard_of(key@),
                key@,
                true,
                final(self).cache_view(),
                r,
            ),
    {
        self.set_locked(key, true)
    }

    /// `unlock(key)`: clears the key's bit.  A cached bit that was already
    /// clear is a programming error and is reported instead of applied
    /// silently.
    pub fn unlock(&mut self, key: &str) -> (r: Result<LockStep, UnlockError>)
        requires
            old(self).wf(),
            routed_key_ok(
                old(self).cache_view(),
                old(self).resource_spec().shard_of(key@),
                key@,
            ),
        ensures
            final(self).wf(),
            final(self).resource_spec() == old(self).resource_spec(),
            match r {
                Ok(step) => set_locked_spec(
                    old(self).cache_view(),
                    old(self).resource_spec().shard_of(key@),
                    key@,
                    false,
                    final(self).cache_view(),
                    step,
                ) && (step matches LockStep::Done(c) ==> c == true),
                Err(e) => e == UnlockError::NotHeld && set_locked_spec(
                    old(self).cache_view(),
                    old(self).resource_spec().shard_of(key@),
                    key@,
                    false,
                    final(self).cache_view(),
                    LockStep::Done(false),
                ),
            },
    {
        match self.set_locked(key, false) {
            LockStep::Done(true) => Ok(LockStep::Done(true)),
            LockStep::Done(false) => Err(UnlockError::NotHeld),
            LockStep::NeedAcquire(s) => Ok(LockStep::NeedAcquire(s)),
        }
    }

    /// Completes an acquisition: applies the pending operation to the data
    /// that arrived in `Acquired`, and installs the entry, remembering the
    /// session so the shard can be given back over it.
    pub fn finish_acquire(
        &mut self,
        key: &str,
        value: bool,
        shard_id: String,
        session: u64,
        data: ShardData,
    ) -> (changed: bool)
        requires
            old(self).wf(),
            data.wf(),
            data@.contains_key(key@),
            shard_id@ == old(self).resource_spec().shard_of(key@),
            old(self).cache_view().contains_key(shard_id@)
                ==> old(self).cache_view()[shard_id@].slot is None,
        ensures
            final(self).wf(),
            final(self).resource_spec() == old(self).resource_spec(),
            final(self).cache_view() == old(self).cache_view().insert(
                shard_id@,
                EntryView { slot: Some(data@.insert(key@, value)), session },
            ),
            changed == (data@[key@] != value),
    {
        let mut d = data;
        let changed = d.set(key, value);
        let entry = CacheEntry::new(d, session);
        let ghost old_cache = self.cache;
        match find_str(&self.cache.ids, shard_id.as_str()) {
            Some(i) => {
                proof {
                    lemma_key_index_at(self.cache.ids@, shard_id@, i as int);
                }
                let _stale = self.cache.entries.remove(i);
                self.cache.entries.insert(i, entry);
                proof {
                    assert(self.cache.entries@ =~= old_cache.entries@.update(
                        i as int,
                        self.cache.entries@[i as int],
                    ));
                    self.cache.lemma_update_view(old_cache, i as int);
                }
            },
            None => {
                proof {
                    lemma_key_index(self.cache.ids@, shard_id@);
                    if key_index(self.cache.ids@, shard_id@) >= 0 {
                        assert(self.cache.ids@[key_index(self.cache.ids@, shard_id@)]@
                            == shard_id@);
                    }
                }
                self.cache.ids.push(shard_id);
                self.cache.entries.push(entry);
                proof {
                    self.cache.lemma_push_view(old_cache);
                }
            },
        }
        changed
    }

    /// The release watcher's move when the server steals `sid`: empties the
    /// entry's slot and hands the data out to be sent back.  An entry that
    /// has already been emptied (or never existed) yields nothing.
    pub fn watcher_release(&mut self, sid: &str) -> (r: Option<ShardData>)
        requires
            old(self).wf(),
        ensures
            final(self).wf(),
            final(self).resource_spec() == old(self).resource_spec(),
            match r {
                Some(d) => {
                    &&& old(self).cache_view().contains_key(sid@)
                    &&& old(self).cache_view()[sid@].slot == Some(d@)
                    &&& d.wf()
                    &&& final(self).cache_view() == old(self).cache_view().insert(
                        sid@,
                        EntryView {
                            slot: None,
                            session: old(self).cache_view()[sid@].session,
                        },
                    )
                },
                None => final(self).cache_view() == old(self).cache_view()
                    && (old(self).cache_view().contains_key(sid@)
                        ==> old(self).cache_view()[sid@].slot is None),
            },
    {
        match find_str(&self.cache.ids, sid) {
            None => {
                proof {
                    lemma_key_index(self.cache.ids@, sid@);
                    if key_index(self.cache.ids@, sid@) >= 0 {
                        assert(self.cache.ids@[key_index(self.cache.ids@, sid@)]@ == sid@);
                    }
                }
                None
            },
            Some(i) => {
                proof {
                    lemma_key_index_at(self.cache.ids@, sid@, i as int);
                }
                let ghost old_cache = self.cache;
                let mut e = self.cache.entries.remove(i);
                let r = e.release();
                self.cache.entries.insert(i, e);
                proof {
                    if r is None {
                        assert(self.cache.entries@ =~= old_cache.entries@);
                        assert(self.cache@ =~= old_cache@);
                    } else {
                        assert(self.cache.entries@ =~= old_cache.entries@.update(
                            i as int,
                            self.cache.entries@[i as int],
                        ));
                        self.cache.lemma_update_view(old_cache, i as int);
                    }
                }
                r
            },
        }
    }

    /// Drains the cache: every still-populated entry comes out as a
    /// `(shard id, session, data)` triple to be sent back as `Released`.
    /// Entries already emptied by their watcher are dropped silently, so a
    /// second drain finds nothing to do.
    pub fn release_all(&mut self) -> (r: Vec<(String, u64, ShardData)>)
        requires
            old(self).wf(),
        ensures
            final(self).wf(),
            final(self).resource_spec() == old(self).resource_spec(),
            release_all_spec(old(self).cache_view(), final(self).cache_view(), r@),
    {
        let ghost oids = self.cache.ids@;
        let ghost oents = self.cache.entries@;
        let mut r: Vec<(String, u64, ShardData)> = Vec::new();
        while self.cache.ids.len() > 0
            invariant
                self.resource == old(self).resource,
                self.cache.ids@.len() == self.cache.entries@.len(),
                self.cache.ids@.len() <= oids.len(),
                oids.len() == oents.len(),
                forall|w: int| 0 <= w < self.cache.ids@.len()
                    ==> #[trigger] self.cache.ids@[w] == oids[w],
                forall|w: int| 0 <= w < self.cache.entries@.len()
                    ==> #[trigger] self.cache.entries@[w] == oents[w],
                forall|a: int, b: int|
                    0 <= a < b < oids.len() ==> (#[trigger] oids[a])@ != (#[trigger] oids[b])@,
                forall|i: int| 0 <= i < oents.len() ==> (#[trigger] oents[i]).wf(),
                forall|idx: int|
                    self.cache.ids@.len() <= idx < oids.len()
                        && ((#[trigger] oents[idx])@.slot is Some)
                        ==> exists|i: int| 0 <= i < r@.len() && (#[trigger] r@[i]).0@ == oids[idx]@,
                forall|i: int| 0 <= i < r@.len() ==> exists|idx: int| {
                    &&& self.cache.ids@.len() <= idx < oids.len()
                    &&& (#[trigger] r@[i]).0@ == oids[idx]@
                    &&& oents[idx]@.slot == Some(r@[i].2@)
                    &&& oents[idx]@.session == r@[i].1
                },
                forall|i: int| 0 <= i < r@.len() ==> (#[trigger] r@[i]).2.wf(),
                forall|i: int, j: int| 0 <= i < j < r@.len()
                    ==> (#[trigger] r@[i]).0@ != (#[trigger] r@[j]).0@,
            decreases self.cache.ids@.len(),
        {
            let ghost r_pre = r@;
            let ghost len_pre = self.cache.ids@.len() as int;
            let sid = self.cache.ids.pop().unwrap();
            let mut e = self.cache.entries.pop().unwrap();
            let ghost idx = len_pre - 1;
            proof {
                assert(sid == oids[idx]);
                assert(e == oents[idx]);
            }
            match e.release() {
                Some(d) => {
                    let session = e.session();
                    r.push((sid, session, d));
                    proof {
                        let last = r@.len() - 1;
                        assert((r@[last]).0@ == oids[idx]@);
                        assert(oents[idx]@.slot == Some(r@[last].2@));
                        assert(oents[idx]@.session == r@[last].1);
                        assert forall|i: int, j: int| 0 <= i < j < r@.len() implies
                            (#[trigger] r@[i]).0@ != (#[trigger] r@[j]).0@ by {
                            if j == last {
                                let idx_i = choose|w: int| {
                                    &&& idx + 1 <= w < oids.len()
                                    &&& (#[trigger] r_pre[i]).0@ == oids[w]@
                                    &&& oents[w]@.slot == Some(r_pre[i].2@)
                                    &&& oents[w]@.session == r_pre[i].1
                                };
                                assert(oids[idx_i]@ != oids[idx]@);
                            }
                        }
                        assert forall|idx2: int|
                            self.cache.ids@.len() <= idx2 < oids.len()
                                && ((#[trigger] oents[idx2])@.slot is Some)
                            implies exists|i: int| 0 <= i < r@.len()
                                && (#[trigger] r@[i]).0@ == oids[idx2]@ by {
                            if idx2 == idx {
                                assert((r@[last]).0@ == oids[idx2]@);
                            } else {
                                let i0 = choose|i: int|
                                    0 <= i < r_pre.len()
                                        && (#[trigger] r_pre[i]).0@ == oids[idx2]@;
                                assert((r@[i0]).0@ == oids[idx2]@);
                            }
                        }
                    }
                },
                None => {
                    proof {
                        assert(oents[idx]@.slot is None);
                        assert forall|idx2: int|
                            self.cache.ids@.len() <= idx2 < oids.len()
                                && ((#[trigger] oents[idx2])@.slot is Some)
                            implies exists|i: int| 0 <= i < r@.len()
                                && (#[trigger] r@[i]).0@ == oids[idx2]@ by {
                            let i0 = choose|i: int|
                                0 <= i < r_pre.len() && (#[trigger] r_pre[i]).0@ == oids[idx2]@;
                            assert((r@[i0]).0@ == oids[idx2]@);
                        }
                    }
                },
            }
        }
        proof {
            assert forall|k: Seq<char>| !self.cache@.contains_key(k) by {
                lemma_key_index(self.cache.ids@, k);
            }
            assert(self.cache@ =~= Map::<Seq<char>, EntryView>::empty());
            let pre = old(self).cache@;
            assert forall|i: int| 0 <= i < r@.len() implies {
                &&& pre.contains_key((#[trigger] r@[i]).0@)
                &&& pre[r@[i].0@] == (EntryView { slot: Some(r@[i].2@), session: r@[i].1 })
            } by {
                let idx = choose|idx: int| {
                    &&& 0 <= idx < oids.len()
                    &&& (#[trigger] r@[i]).0@ == oids[idx]@
                    &&& oents[idx]@.slot == Some(r@[i].2@)
                    &&& oents[idx]@.session == r@[i].1
                };
                lemma_key_index_at(oids, oids[idx]@, idx);
            }
            assert forall|k: Seq<char>| pre.contains_key(k) && (#[trigger] pre[k]).slot is Some
                implies exists|i: int| 0 <= i < r@.len() && (#[trigger] r@[i]).0@ == k by {
                lemma_key_index(oids, k);
                let idx = key_index(oids, k);
                assert(oids[idx]@ == k);
                assert(oents[idx]@.slot is Some);
            }
        }
        r
    }

    /// The ids of the shards whose data is present in the cache.
    pub fn dump_shards(&self) -> (r: Vec<String>)
        requires
            self.wf(),
        ensures
            forall|i: int| 0 <= i < r@.len() ==> self.cache_view().contains_key((#[trigger] r@[i])@)
                && self.cache_view()[r@[i]@].slot is Some,
            forall|k: Seq<char>| self.cache_view().contains_key(k)
                && (#[trigger] self.cache_view()[k]).slot is Some
                ==> exists|i: int| 0 <= i < r@.len() && (#[trigger] r@[i])@ == k,
            forall|i: int, j: int| 0 <= i < j < r@.len()
                ==> (#[trigger] r@[i])@ != (#[trigger] r@[j])@,
    {
        let n = self.cache.ids.len();
        let mut r: Vec<String> = Vec::new();
        let ghost mut idxs: Seq<int> = Seq::empty();
        let mut i: usize = 0;
        while i < n
            invariant
                self.wf(),
                n == self.cache.ids@.len(),
                0 <= i <= n,
                r@.len() == idxs.len(),
                forall|w: int| 0 <= w < r@.len() ==> 0 <= #[trigger] idxs[w] < i,
                forall|w: int| 0 <= w < r@.len() ==> (#[trigger] r@[w])@
                    == self.cache.ids@[idxs[w]]@
                    && self.cache.entries@[idxs[w]]@.slot is Some,
                forall|idx: int| 0 <= idx < i && (#[trigger] self.cache.entries@[idx])@.slot is Some
                    ==> exists|w: int| 0 <= w < r@.len() && #[trigger] idxs[w] == idx,
                forall|w1: int, w2: int| 0 <= w1 < w2 < idxs.len()
                    ==> #[trigger] idxs[w1] < #[trigger] idxs[w2],
            decreases n - i,
        {
            let ghost idxs_pre = idxs;
            if self.cache.entries[i].data.is_some() {
                proof {
                    assert(self.cache.entries@[i as int]@.slot is Some);
                }
                let s = self.cache.ids[i].clone();
                r.push(s);
                proof {
                    idxs = idxs.push(i as int);
                    assert(idxs[idxs.len() - 1] == i as int);
                    assert((r@[r@.len() - 1])@ == self.cache.ids@[i as int]@);
                    assert forall|idx: int|
                        0 <= idx < i as int + 1
                            && (#[trigger] self.cache.entries@[idx])@.slot is Some
                        implies exists|w: int| 0 <= w < r@.len() && #[trigger] idxs[w] == idx by {
                        if idx == i as int {
                            assert(idxs[idxs.len() - 1] == idx);
                        } else {
                            let w0 = choose|w: int|
                                0 <= w < idxs_pre.len() && #[trigger] idxs_pre[w] == idx;
                            assert(idxs[w0] == idx);
                        }
                    }
                }
            } else {
                proof {
                    assert(!(self.cache.entries@[i as int]@.slot is Some));
                    assert forall|idx: int|
                        0 <= idx < i as int + 1
                            && (#[trigger] self.cache.entries@[idx])@.slot is Some
                        implies exists|w: int| 0 <= w < r@.len() && #[trigger] idxs[w] == idx by {
                        let w0 = choose|w: int|
                            0 <= w < idxs_pre.len() && #[trigger] idxs_pre[w] == idx;
                        assert(idxs[w0] == idx);
                    }
                }
            }
            i = i + 1;
        }
        proof {
            assert forall|w: int| 0 <= w < r@.len() implies
                self.cache_view().contains_key((#[trigger] r@[w])@)
                    && self.cache_view()[r@[w]@].slot is Some by {
                let idx = idxs[w];
                lemma_key_index_at(self.cache.ids@, self.cache.ids@[idx]@, idx);
            }
            assert forall|k: Seq<char>| self.cache_view().contains_key(k)
                && (#[trigger] self.cache_view()[k]).slot is Some implies
                exists|w: int| 0 <= w < r@.len() && (#[trigger] r@[w])@ == k by {
                lemma_key_index(self.cache.ids@, k);
                let idx = key_index(self.cache.ids@, k);
                assert(self.cache.ids@[idx]@ == k);
                assert(self.cache.entries@[idx]@.slot is Some);
                let w = choose|w: int| 0 <= w < r@.len() && #[trigger] idxs[w] == idx;
                assert((r@[w])@ == k);
            }
            assert forall|w1: int, w2: int| 0 <= w1 < w2 < r@.len() implies
                (#[trigger] r@[w1])@ != (#[trigger] r@[w2])@ by {
                assert(idxs[w1] < idxs[w2]);
                assert((r@[w1])@ == self.cache.ids@[idxs[w1]]@);
                assert((r@[w2])@ == self.cache.ids@[idxs[w2]]@);
            }
        }
        r
    }
}

/// The watcher's reading of the frame it was waiting for: the stream
/// ending first means the lock was never released; anything but a
/// `Release` is a protocol error; a `Release` names the stolen shard.
pub fn handle_release_frame(frame: Option<LockResponse>) -> (r: Result<String, ClientError>)
    ensures
        match frame {
            None => r == Err::<String, ClientError>(ClientError::LockNotReleased),
            Some(resp) => match r {
                Ok(sid) => resp.body matches Some(crate::api::LockResponseBody::Release(x))
                    && x == sid,
                Err(e) => !(resp.body matches Some(crate::api::LockResponseBody::Release(_)))
                    && e == ClientError::ExpectedRelease,
            },
        },
{
    match frame {
        None => Err(ClientError::LockNotReleased),
        Some(resp) => resp.expect_release(),
    }
}

/// The watcher's reading of what follows its `Released`: a clean stream
/// end is success; any further frame is a protocol violation.
pub fn handle_close_frame(frame: Option<LockResponse>) -> (r: Result<(), ClientError>)
    ensures
        match frame {
            None => r is Ok,
            Some(_) => r == Err::<(), ClientError>(ClientError::ConnectionClosed),
        },
{
    match frame {
        None => Ok(()),
        Some(_) => Err(ClientError::ConnectionClosed),
    }
}

/// Law: releasing twice is the same as releasing once.  A drain leaves the
/// cache empty, so a second drain finds nothing, returns nothing, and
/// changes nothing.
pub proof fn lemma_release_all_idempotent(
    pre: Map<Seq<char>, EntryView>,
    mid: Map<Seq<char>, EntryView>,
    post: Map<Seq<char>, EntryView>,
    r1: Seq<(String, u64, ShardData)>,
    r2: Seq<(String, u64, ShardData)>,
)
    requires
        release_all_spec(pre, mid, r1),
        release_all_spec(mid, post, r2),
    ensures
        post == mid,
        r2.len() == 0,
{
    if r2.len() > 0 {
        assert(mid.contains_key(r2[0].0@));
    }
}

/// Law: the shard-local fast path.  While a shard's entry is populated, a
/// lock operation on any key of that shard completes locally: it can never
/// ask the caller to go to the server.
pub proof fn lemma_fast_path(
    pre: Map<Seq<char>, EntryView>,
    sid: Seq<char>,
    key: Seq<char>,
    value: bool,
    post: Map<Seq<char>, EntryView>,
    r: LockStep,
)
    requires
        set_locked_spec(pre, sid, key, value, post, r),
        pre.contains_key(sid),
        pre[sid].slot is Some,
    ensures
        r is Done,
{
}

/// Law: `lock(k)` followed by `unlock(k)`, with no steal in between,
/// restores the cache exactly: the key's bit returns to its former value
/// (it was clear, or the lock would not have been granted), and nothing
/// else ever changed.
pub proof fn lemma_lock_unlock_restores(
    pre: Map<Seq<char>, EntryView>,
    sid: Seq<char>,
    key: Seq<char>,
    mid: Map<Seq<char>, EntryView>,
    post: Map<Seq<char>, EntryView>,
    r1: LockStep,
    r2: LockStep,
)
    requires
        set_locked_spec(pre, sid, key, true, mid, r1),
        r1 is Done,
        set_locked_spec(mid, sid, key, false, post, r2),
        pre[sid].slot matches Some(m) && m[key] == false,
    ensures
        post == pre,
{
    match pre[sid].slot {
        Some(m) => {
            assert(m.insert(key, true).insert(key, false) =~= m);
            assert(mid[sid].slot == Some(m.insert(key, true)));
            assert(post =~= pre);
        },
        None => {},
    }
}

} // verus!
