//! The server's shard registry.
//!
//! The registry maps every shard id to its current state: `Unlocked` with
//! the shard's data at rest, or `Locked` by the session that currently owns
//! it.  The one mutating primitive is `begin`, the atomic swap: it installs
//! the calling session as the new holder and hands back whatever was in the
//! slot, so that successive stealers of one shard form a strict chain.
//! `settle` puts the data back to rest when a holder releases it and nobody
//! has swapped the slot since.

use vstd::prelude::*;
use crate::data::{find_str, key_index, lemma_key_index, lemma_key_index_at, ShardData};

verus! {

/// State of one registry slot.
pub enum Shard {
    /// Nobody owns the shard; its data rests in the slot.
    Unlocked(ShardData),
    /// The session with this id owns the shard (the id stands for the
    /// holder's pair of hand-off endpoints).
    Locked(u64),
}

/// What the atomic swap found in the slot.
pub enum SwapOutcome {
    /// The shard was at rest: the caller owns it and gets the data at once.
    WasUnlocked(ShardData),
    /// The shard was owned by this previous session: the caller owns the
    /// slot now and must wait for the previous holder to give the data up.
    WasLocked(u64),
}

/// Whether a boot pair list names `sid` as a shard.
pub open spec fn has_shard(keys: Seq<(String, String)>, sid: Seq<char>) -> bool {
    exists|i: int| 0 <= i < keys.len() && (#[trigger] keys[i]).0@ == sid
}

/// Whether a boot pair list puts key `q` into shard `sid`.
pub open spec fn has_pair(keys: Seq<(String, String)>, sid: Seq<char>, q: Seq<char>) -> bool {
    exists|i: int| 0 <= i < keys.len() && (#[trigger] keys[i]).0@ == sid && keys[i].1@ == q
}

/// A freshly booted shard table: exactly the keys listed under `sid`, none
/// of them held.
pub open spec fn boot_data(keys: Seq<(String, String)>, sid: Seq<char>, d: ShardData) -> bool {
    &&& d.wf()
    &&& forall|q: Seq<char>| #[trigger] d@.contains_key(q) <==> has_pair(keys, sid, q)
    &&& forall|q: Seq<char>| d@.contains_key(q) ==> d@[q] == false
}

/// A freshly booted slot: unlocked, with exactly the keys listed under `sid`.
pub open spec fn boot_slot(keys: Seq<(String, String)>, sid: Seq<char>, s: Shard) -> bool {
    s matches Shard::Unlocked(d) && boot_data(keys, sid, d)
}

/// The shard registry: shard id to slot state.
pub struct ConnectionMap {
    ids: Vec<String>,
    shards: Vec<Shard>,
}

impl ConnectionMap {
    /// Well-formed: one slot per id, no id twice, unlocked data well-formed.
    pub closed spec fn wf(self) -> bool {
        &&& self.ids@.len() == self.shards@.len()
        &&& forall|i: int, j: int|
            0 <= i < j < self.ids@.len() ==> (#[trigger] self.ids@[i])@ != (#[trigger] self.ids@[j])@
        &&& forall|i: int| 0 <= i < self.shards@.len()
            ==> ((#[trigger] self.shards@[i]) matches Shard::Unlocked(d) ==> d.wf())
    }

    /// The registry as a finite map from shard ids to slot states.
    pub closed spec fn view(self) -> Map<Seq<char>, Shard> {
        Map::new(
            |k: Seq<char>| key_index(self.ids@, k) >= 0,
            |k: Seq<char>| self.shards@[key_index(self.ids@, k)],
        )
    }

    /// Boots the registry from `(shard id, key)` pairs, as the resource
    /// enumerates them: one `Unlocked` slot per distinct shard id, holding
    /// every key listed under that id, with no key held.  A pair repeating
    /// an earlier `(shard id, key)` combination is dropped.
    pub fn new(keys: &Vec<(String, String)>) -> (r: ConnectionMap)
        ensures
            r.wf(),
            forall|k: Seq<char>| #[trigger] r@.contains_key(k) <==> has_shard(keys@, k),
            forall|k: Seq<char>| r@.contains_key(k) ==> boot_slot(keys@, k, #[trigger] r@[k]),
    {
        let n = keys.len();

        let mut ids: Vec<String> = Vec::new();
        let mut i: usize = 0;
        while i < n
            invariant
                n == keys@.len(),
                0 <= i <= n,
                forall|a: int, b: int|
                    0 <= a < b < ids@.len() ==> (#[trigger] ids@[a])@ != (#[trigger] ids@[b])@,
                forall|m: int| 0 <= m < ids@.len()
                    ==> has_shard(keys@.subrange(0, i as int), (#[trigger] ids@[m])@),
                forall|j: int| 0 <= j < i
                    ==> exists|m: int| 0 <= m < ids@.len() && (#[trigger] keys@[j]).0@ == ids@[m]@,
            decreases n - i,
        {
            let sid = &keys[i].0;
            let ghost pre_ids = ids@;
            let found = find_str(&ids, sid.as_str());
            if found.is_none() {
                ids.push(sid.clone());
            }
            proof {
                assert(keys@.subrange(0, i as int + 1)[i as int] == keys@[i as int]);
                assert forall|m: int| 0 <= m < ids@.len() implies
                    has_shard(keys@.subrange(0, i as int + 1), (#[trigger] ids@[m])@) by {
                    let pre = keys@.subrange(0, i as int);
                    let cur = keys@.subrange(0, i as int + 1);
                    if m < pre_ids.len() {
                        assert(has_shard(pre, ids@[m]@));
                        let w = choose|w: int| 0 <= w < pre.len() && (#[trigger] pre[w]).0@ == ids@[m]@;
                        assert(cur[w] == pre[w]);
                    } else {
                        assert(ids@[m]@ == keys@[i as int].0@);
                        assert((cur[i as int]).0@ == ids@[m]@);
                    }
                }
                assert forall|j: int| 0 <= j < i + 1 implies
                    exists|m: int| 0 <= m < ids@.len() && (#[trigger] keys@[j]).0@ == ids@[m]@ by {
                    if j == i as int {
                        match found {
                            Some(w) => {
                                assert(ids@[w as int]@ == keys@[j].0@);
                            },
                            None => {
                                assert(ids@[ids@.len() - 1]@ == keys@[j].0@);
                            },
                        }
                    } else {
                        let m = choose|m: int|
                            0 <= m < pre_ids.len() && (#[trigger] keys@[j]).0@ == pre_ids[m]@;
                        assert(ids@[m]@ == keys@[j].0@);
                    }
                }
            }
            i = i + 1;
        }
        proof {
            assert(keys@.subrange(0, n as int) =~= keys@);
        }

        let id_count = ids.len();
        let mut shards: Vec<Shard> = Vec::new();
        let mut m: usize = 0;
        while m < id_count
            invariant
                n == keys@.len(),
                id_count == ids@.len(),
                0 <= m <= id_count,
                shards@.len() == m,
                forall|w: int| 0 <= w < m ==> boot_slot(keys@, ids@[w]@, #[trigger] shards@[w]),
            decreases id_count - m,
        {
            let sid = &ids[m];
            let mut d = ShardData::new();
            let mut j: usize = 0;
            while j < n
                invariant
                    n == keys@.len(),
                    m < ids@.len(),
                    sid == &ids@[m as int],
                    0 <= j <= n,
                    d.wf(),
                    forall|q: Seq<char>| #[trigger] d@.contains_key(q)
                        <==> has_pair(keys@.subrange(0, j as int), ids@[m as int]@, q),
                    forall|q: Seq<char>| d@.contains_key(q) ==> d@[q] == false,
                decreases n - j,
            {
                let matches_sid = keys[j].0 == *sid;
                if matches_sid {
                    let key = &keys[j].1;
                    if !d.contains_key(key.as_str()) {
                        d.push_key(key.clone());
                    }
                }
                proof {
                    let pre = keys@.subrange(0, j as int);
                    let cur = keys@.subrange(0, j as int + 1);
                    assert(cur[j as int] == keys@[j as int]);
                    assert forall|q: Seq<char>| has_pair(pre, ids@[m as int]@, q) implies
                        has_pair(cur, ids@[m as int]@, q) by {
                        let w = choose|w: int|
                            0 <= w < pre.len() && (#[trigger] pre[w]).0@ == ids@[m as int]@
                                && pre[w].1@ == q;
                        assert(cur[w] == pre[w]);
                    }
                    assert forall|q: Seq<char>| has_pair(cur, ids@[m as int]@, q)
                        && !has_pair(pre, ids@[m as int]@, q) implies
                        q == keys@[j as int].1@ && keys@[j as int].0@ == ids@[m as int]@ by {
                        let w = choose|w: int|
                            0 <= w < cur.len() && (#[trigger] cur[w]).0@ == ids@[m as int]@
                                && cur[w].1@ == q;
                        if w < j as int {
                            assert(pre[w] == cur[w]);
                        }
                    }
                }
                j = j + 1;
            }
            proof {
                assert(keys@.subrange(0, n as int) =~= keys@);
            }
            shards.push(Shard::Unlocked(d));
            m = m + 1;
        }

        let r = ConnectionMap { ids, shards };
        proof {
            assert forall|k: Seq<char>| #[trigger] r@.contains_key(k) <==> has_shard(keys@, k) by {
                lemma_key_index(r.ids@, k);
                if key_index(r.ids@, k) >= 0 {
                    assert(r.ids@[key_index(r.ids@, k)]@ == k);
                }
                if has_shard(keys@, k) {
                    let j = choose|j: int| 0 <= j < keys@.len() && (#[trigger] keys@[j]).0@ == k;
                    let w = choose|w: int|
                        0 <= w < r.ids@.len() && (#[trigger] keys@[j]).0@ == r.ids@[w]@;
                    assert(r.ids@[w]@ == k);
                }
            }
            assert forall|k: Seq<char>| r@.contains_key(k) implies
                boot_slot(keys@, k, #[trigger] r@[k]) by {
                lemma_key_index(r.ids@, k);
            }
        }
        r
    }

    /// The atomic swap at the heart of the steal protocol: installs
    /// `session` as the holder of shard `id` and returns what the slot held,
    /// or `None` (slot untouched) when no such shard exists.
    pub fn begin(&mut self, id: &str, session: u64) -> (r: Option<SwapOutcome>)
        requires
            old(self).wf(),
        ensures
            final(self).wf(),
            match r {
                None => !old(self)@.contains_key(id@) && final(self)@ == old(self)@,
                Some(out) => {
                    &&& old(self)@.contains_key(id@)
                    &&& final(self)@ == old(self)@.insert(id@, Shard::Locked(session))
                    &&& match out {
                        SwapOutcome::WasUnlocked(d) =>
                            old(self)@[id@] == Shard::Unlocked(d) && d.wf(),
                        SwapOutcome::WasLocked(p) => old(self)@[id@] == Shard::Locked(p),
                    }
                },
            },
    {
        let found = find_str(&self.ids, id);
        match found {
            None => {
                proof {
                    lemma_key_index(self.ids@, id@);
                }
                None
            },
            Some(i) => {
                proof {
                    lemma_key_index_at(self.ids@, id@, i as int);
                }
                let prev = self.shards.remove(i);
                self.shards.insert(i, Shard::Locked(session));
                proof {
                    assert(self.shards@ =~= old(self).shards@.update(
                        i as int,
                        Shard::Locked(session),
                    ));
                    self.lemma_update_view(*old(self), i as int, Shard::Locked(session));
                }
                match prev {
                    Shard::Unlocked(d) => Some(SwapOutcome::WasUnlocked(d)),
                    Shard::Locked(p) => Some(SwapOutcome::WasLocked(p)),
                }
            },
        }
    }

    /// Puts released data back to rest, if the releasing session is still
    /// the registered holder of the shard; otherwise some later session has
    /// swapped itself in, and the data comes back to the caller to be handed
    /// to that successor.
    pub fn settle(&mut self, id: &str, session: u64, data: ShardData) -> (r: Option<ShardData>)
        requires
            old(self).wf(),
            old(self)@.contains_key(id@),
            data.wf(),
        ensures
            final(self).wf(),
            match r {
                None => old(self)@[id@] == Shard::Locked(session)
                    && final(self)@ == old(self)@.insert(id@, Shard::Unlocked(data)),
                Some(d) => d == data && old(self)@[id@] != Shard::Locked(session)
                    && final(self)@ == old(self)@,
            },
    {
        proof {
            lemma_key_index(self.ids@, id@);
        }
        let found = find_str(&self.ids, id);
        match found {
            None => Some(data),
            Some(i) => {
                proof {
                    lemma_key_index_at(self.ids@, id@, i as int);
                }
                let is_mine = match &self.shards[i] {
                    Shard::Locked(p) => *p == session,
                    _ => false,
                };
                if is_mine {
                    let _prev = self.shards.remove(i);
                    self.shards.insert(i, Shard::Unlocked(data));
                    proof {
                        assert(self.shards@ =~= old(self).shards@.update(
                            i as int,
                            Shard::Unlocked(data),
                        ));
                        self.lemma_update_view(*old(self), i as int, Shard::Unlocked(data));
                    }
                    None
                } else {
                    Some(data)
                }
            },
        }
    }

    /// The state of one slot, or `None` when no such shard exists.
    pub fn shard(&self, id: &str) -> (r: Option<&Shard>)
        requires
            self.wf(),
        ensures
            match r {
                Some(s) => self@.contains_key(id@) && *s == self@[id@]
                    && (*s matches Shard::Unlocked(d) ==> d.wf()),
                None => !self@.contains_key(id@),
            },
    {
        proof {
            lemma_key_index(self.ids@, id@);
        }
        match find_str(&self.ids, id) {
            None => None,
            Some(i) => {
                proof {
                    lemma_key_index_at(self.ids@, id@, i as int);
                }
                Some(&self.shards[i])
            },
        }
    }

    /// Updating one slot updates the view at that slot's id alone.
    proof fn lemma_update_view(self, old_self: ConnectionMap, i: int, s: Shard)
        requires
            old_self.wf(),
            0 <= i < old_self.ids@.len(),
            self.ids@ == old_self.ids@,
            self.shards@ == old_self.shards@.update(i, s),
        ensures
            self@ == old_self@.insert(old_self.ids@[i]@, s),
    {
        let k = old_self.ids@[i]@;
        lemma_key_index_at(self.ids@, k, i);
        assert forall|q: Seq<char>| true implies
            #[trigger] key_index(self.ids@, q) == key_index(old_self.ids@, q) by {
        }
        assert forall|q: Seq<char>| key_index(self.ids@, q) >= 0 && q != k implies
            self.shards@[#[trigger] key_index(self.ids@, q)]
                == old_self.shards@[key_index(self.ids@, q)] by {
            lemma_key_index(self.ids@, q);
            if key_index(self.ids@, q) == i {
                assert(self.ids@[i]@ == q);
            }
        }
        assert(self@ =~= old_self@.insert(k, s));
    }
}

} // verus!
