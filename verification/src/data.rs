//! The per-shard table of lock bits.
//!
//! A `ShardData` maps every key of one shard to a boolean that is `true`
//! while the key is held.  The key set is fixed when the table is built and
//! never changes afterwards; the table is viewed as a finite map from key
//! strings to booleans.

use vstd::prelude::*;

verus! {

/// Index of the first entry of `keys` whose view equals `k`, or `-1`.
pub closed spec fn key_index(keys: Seq<String>, k: Seq<char>) -> int
    decreases keys.len(),
{
    if keys.len() == 0 {
        -1
    } else if keys[0]@ == k {
        0
    } else {
        let r: int = key_index(keys.subrange(1, keys.len() as int), k);
        if r < 0 {
            -1
        } else {
            r + 1
        }
    }
}

pub proof fn lemma_key_index(keys: Seq<String>, k: Seq<char>)
    ensures
        -1 <= key_index(keys, k) < keys.len(),
        key_index(keys, k) >= 0 ==> keys[key_index(keys, k)]@ == k,
        forall|i: int| 0 <= i < key_index(keys, k) ==> keys[i]@ != k,
        key_index(keys, k) == -1 ==> forall|i: int| 0 <= i < keys.len() ==> keys[i]@ != k,
    decreases keys.len(),
{
    if keys.len() > 0 && keys[0]@ != k {
        let rest = keys.subrange(1, keys.len() as int);
        lemma_key_index(rest, k);
        if key_index(rest, k) == -1 {
            assert forall|i: int| 0 <= i < keys.len() implies keys[i]@ != k by {
                if i > 0 {
                    assert(rest[i - 1] == keys[i]);
                }
            }
        } else {
            assert forall|i: int| 0 <= i < key_index(keys, k) implies keys[i]@ != k by {
                if i > 0 {
                    assert(rest[i - 1] == keys[i]);
                }
            }
        }
    }
}

pub proof fn lemma_key_index_at(keys: Seq<String>, k: Seq<char>, i: int)
    requires
        0 <= i < keys.len(),
        keys[i]@ == k,
        forall|j: int| 0 <= j < i ==> keys[j]@ != k,
    ensures
        key_index(keys, k) == i,
    decreases keys.len(),
{
    if i > 0 {
        let rest = keys.subrange(1, keys.len() as int);
        assert forall|j: int| 0 <= j < i - 1 implies rest[j]@ != k by {
            assert(rest[j] == keys[j + 1]);
        }
        assert(rest[i - 1] == keys[i]);
        lemma_key_index_at(rest, k, i - 1);
    }
}

/// How `key_index` changes when one more key is appended.
pub proof fn lemma_key_index_push(keys: Seq<String>, x: String, k: Seq<char>)
    ensures
        key_index(keys.push(x), k) == if key_index(keys, k) >= 0 {
            key_index(keys, k)
        } else if x@ == k {
            keys.len() as int
        } else {
            -1
        },
    decreases keys.len(),
{
    lemma_key_index(keys, k);
    if key_index(keys, k) >= 0 {
        lemma_key_index(keys.push(x), k);
        lemma_key_index_at(keys.push(x), k, key_index(keys, k));
    } else if x@ == k {
        lemma_key_index_at(keys.push(x), k, keys.len() as int);
    } else {
        lemma_key_index(keys.push(x), k);
        if key_index(keys.push(x), k) >= 0 {
            assert(keys.push(x)[key_index(keys.push(x), k)]@ == k);
        }
    }
}

/// First index of `s` in `v`, with nothing equal to `s` before it.
pub(crate) fn find_str(v: &Vec<String>, s: &str) -> (r: Option<usize>)
    ensures
        match r {
            Some(i) => i < v@.len() && v@[i as int]@ == s@
                && forall|j: int| 0 <= j < i ==> v@[j]@ != s@,
            None => forall|j: int| 0 <= j < v@.len() ==> v@[j]@ != s@,
        },
{
    let k = s.to_owned();
    let n = v.len();
    let mut i: usize = 0;
    while i < n
        invariant
            n == v@.len(),
            k@ == s@,
            0 <= i <= n,
            forall|j: int| 0 <= j < i ==> v@[j]@ != s@,
        decreases n - i,
    {
        if v[i] == k {
            return Some(i);
        }
        i = i + 1;
    }
    None
}

/// The lock table of one shard: each key of the shard mapped to whether it
/// is currently held.
pub struct ShardData {
    keys: Vec<String>,
    held: Vec<bool>,
}

impl ShardData {
    /// Well-formed: one bit per key, and no key occurs twice.
    pub closed spec fn wf(self) -> bool {
        &&& self.keys@.len() == self.held@.len()
        &&& forall|i: int, j: int|
            0 <= i < j < self.keys@.len() ==> (#[trigger] self.keys@[i])@ != (#[trigger] self.keys@[j])@
    }

    /// The key strings of the table, in insertion order.
    pub closed spec fn key_seq(self) -> Seq<Seq<char>> {
        Seq::new(self.keys@.len(), |i: int| self.keys@[i]@)
    }

    /// The table as a finite map from key strings to lock bits.
    pub closed spec fn view(self) -> Map<Seq<char>, bool> {
        Map::new(
            |k: Seq<char>| key_index(self.keys@, k) >= 0,
            |k: Seq<char>| self.held@[key_index(self.keys@, k)],
        )
    }

    /// An empty table.
    pub fn new() -> (r: ShardData)
        ensures
            r.wf(),
            r@ == Map::<Seq<char>, bool>::empty(),
    {
        let r = ShardData { keys: Vec::new(), held: Vec::new() };
        proof {
            assert forall|k: Seq<char>| !r@.contains_key(k) by {
                lemma_key_index(r.keys@, k);
            }
            assert(r@ =~= Map::<Seq<char>, bool>::empty());
        }
        r
    }

    /// Adds a key that is not yet in the table, initially not held.
    pub fn push_key(&mut self, key: String)
        requires
            old(self).wf(),
            !old(self)@.contains_key(key@),
        ensures
            final(self).wf(),
            final(self)@ == old(self)@.insert(key@, false),
    {
        proof {
            lemma_key_index(self.keys@, key@);
        }
        let ghost old_keys = self.keys@;
        let ghost old_held = self.held@;
        self.keys.push(key);
        self.held.push(false);
        proof {
            let ghost kv = self.keys@;
            assert forall|i: int, j: int| 0 <= i < j < kv.len() implies (#[trigger] kv[i])@ != (#[trigger] kv[j])@ by {
                if j == kv.len() - 1 {
                    lemma_key_index(old_keys, kv[i]@);
                    lemma_key_index_at(old_keys, kv[i]@, i);
                }
            }
            assert forall|k: Seq<char>| true implies
                #[trigger] key_index(kv, k) == if key_index(old_keys, k) >= 0 {
                    key_index(old_keys, k)
                } else if kv.last()@ == k {
                    old_keys.len() as int
                } else {
                    -1
                } by {
                lemma_key_index_push(old_keys, kv.last(), k);
                assert(kv =~= old_keys.push(kv.last()));
            }
            assert forall|k: Seq<char>| true implies
                -1 <= #[trigger] key_index(old_keys, k) < old_keys.len() by {
                lemma_key_index(old_keys, k);
            }
            assert(self@ =~= old(self)@.insert(kv.last()@, false));
        }
    }

    /// Whether `key` is one of this shard's keys.
    pub fn contains_key(&self, key: &str) -> (r: bool)
        requires
            self.wf(),
        ensures
            r == self@.contains_key(key@),
    {
        self.get(key).is_some()
    }

    /// The lock bit of `key`, or `None` when the key is not in the table.
    pub fn get(&self, key: &str) -> (r: Option<bool>)
        requires
            self.wf(),
        ensures
            match r {
                Some(b) => self@.contains_key(key@) && self@[key@] == b,
                None => !self@.contains_key(key@),
            },
    {
        let k = key.to_owned();
        let n = self.keys.len();
        let mut i: usize = 0;
        while i < n
            invariant
                n == self.keys@.len(),
                self.wf(),
                k@ == key@,
                0 <= i <= n,
                forall|j: int| 0 <= j < i ==> self.keys@[j]@ != key@,
            decreases n - i,
        {
            if self.keys[i] == k {
                proof {
                    lemma_key_index_at(self.keys@, key@, i as int);
                }
                return Some(self.held[i]);
            }
            i = i + 1;
        }
        proof {
            lemma_key_index(self.keys@, key@);
            if key_index(self.keys@, key@) >= 0 {
                assert(self.keys@[key_index(self.keys@, key@)]@ == key@);
            }
        }
        None
    }

    /// Sets the lock bit of `key` and reports whether the bit changed.
    pub fn set(&mut self, key: &str, value: bool) -> (changed: bool)
        requires
            old(self).wf(),
            old(self)@.contains_key(key@),
        ensures
            final(self).wf(),
            final(self)@ == old(self)@.insert(key@, value),
            changed == (old(self)@[key@] != value),
    {
        let k = key.to_owned();
        let n = self.keys.len();
        let mut i: usize = 0;
        while i < n
            invariant
                n == self.keys@.len(),
                self.wf(),
                self == old(self),
                old(self)@.contains_key(key@),
                k@ == key@,
                0 <= i <= n,
                forall|j: int| 0 <= j < i ==> self.keys@[j]@ != key@,
            decreases n - i,
        {
            if self.keys[i] == k {
                proof {
                    lemma_key_index_at(self.keys@, key@, i as int);
                }
                let prev = self.held[i];
                self.held.set(i, value);
                proof {
                    assert forall|q: Seq<char>| true implies
                        #[trigger] key_index(self.keys@, q) == key_index(old(self).keys@, q) by {
                    }
                    assert forall|q: Seq<char>| key_index(self.keys@, q) >= 0 && q != key@ implies
                        self.held@[#[trigger] key_index(self.keys@, q)]
                            == old(self).held@[key_index(self.keys@, q)] by {
                        lemma_key_index(self.keys@, q);
                        if key_index(self.keys@, q) == i as int {
                            assert(self.keys@[i as int]@ == q);
                        }
                    }
                    assert(self@ =~= old(self)@.insert(key@, value));
                }
                return prev != value;
            }
            i = i + 1;
        }
        proof {
            lemma_key_index(self.keys@, key@);
            assert(false);
        }
        false
    }

    /// The keys of the table, in insertion order.
    pub fn key_list(&self) -> (r: Vec<String>)
        requires
            self.wf(),
        ensures
            r@.len() == self.key_seq().len(),
            forall|i: int| 0 <= i < r@.len() ==> r@[i]@ == #[trigger] self.key_seq()[i],
            forall|i: int| 0 <= i < r@.len() ==> self@.contains_key(#[trigger] r@[i]@),
            forall|k: Seq<char>| #[trigger] self@.contains_key(k)
                ==> exists|i: int| 0 <= i < r@.len() && (#[trigger] r@[i])@ == k,
    {
        let n = self.keys.len();
        let mut r: Vec<String> = Vec::new();
        let mut i: usize = 0;
        while i < n
            invariant
                n == self.keys@.len(),
                self.wf(),
                0 <= i <= n,
                r@.len() == i,
                forall|j: int| 0 <= j < i ==> r@[j]@ == #[trigger] self.keys@[j]@,
            decreases n - i,
        {
            let s = self.keys[i].clone();
            r.push(s);
            i = i + 1;
        }
        proof {
            assert forall|i: int| 0 <= i < r@.len() implies self@.contains_key(#[trigger] r@[i]@) by {
                let q = r@[i]@;
                lemma_key_index(self.keys@, q);
                if key_index(self.keys@, q) == -1 {
                    assert(self.keys@[i]@ != q);
                }
            }
            assert forall|k: Seq<char>| #[trigger] self@.contains_key(k) implies
                exists|i: int| 0 <= i < r@.len() && (#[trigger] r@[i])@ == k by {
                lemma_key_index(self.keys@, k);
                let i = key_index(self.keys@, k);
                assert((r@[i])@ == k);
            }
        }
        r
    }

    /// The table as a list of `(key, held)` pairs, in insertion order.
    pub fn to_pairs(&self) -> (r: Vec<(String, bool)>)
        requires
            self.wf(),
        ensures
            r@.len() == self.key_seq().len(),
            forall|i: int| 0 <= i < r@.len() ==> #[trigger] r@[i].0@ == self.key_seq()[i]
                && r@[i].1 == self@[r@[i].0@],
    {
        let n = self.keys.len();
        let mut r: Vec<(String, bool)> = Vec::new();
        let mut i: usize = 0;
        while i < n
            invariant
                n == self.keys@.len(),
                self.wf(),
                0 <= i <= n,
                r@.len() == i,
                forall|j: int| 0 <= j < i ==> (#[trigger] r@[j]).0@ == self.keys@[j]@
                    && r@[j].1 == self.held@[j],
            decreases n - i,
        {
            let s = self.keys[i].clone();
            let b = self.held[i];
            r.push((s, b));
            i = i + 1;
        }
        proof {
            assert forall|i: int| 0 <= i < r@.len() implies #[trigger] r@[i].0@ == self.keys@[i]@
                && r@[i].1 == self@[r@[i].0@] by {
                lemma_key_index_at(self.keys@, self.keys@[i]@, i);
            }
        }
        r
    }

    /// Rebuilds a table from `(key, held)` pairs, as read off the wire.
    /// Returns `None` exactly when some key occurs twice: a duplicate key is
    /// a protocol error.
    pub fn from_pairs(pairs: Vec<(String, bool)>) -> (r: Option<ShardData>)
        ensures
            match r {
                Some(d) => {
                    &&& d.wf()
                    &&& forall|i: int, j: int|
                        0 <= i < j < pairs@.len() ==> (#[trigger] pairs@[i]).0@ != (#[trigger] pairs@[j]).0@
                    &&& forall|i: int| 0 <= i < pairs@.len()
                        ==> d@.contains_key(#[trigger] pairs@[i].0@) && d@[pairs@[i].0@] == pairs@[i].1
                    &&& forall|k: Seq<char>| d@.contains_key(k)
                        ==> exists|i: int| 0 <= i < pairs@.len() && #[trigger] pairs@[i].0@ == k
                },
                None => exists|i: int, j: int|
                    0 <= i < j < pairs@.len() && (#[trigger] pairs@[i]).0@ == (#[trigger] pairs@[j]).0@,
            },
    {
        let mut d = ShardData::new();
        let n = pairs.len();
        let mut i: usize = 0;
        while i < n
            invariant
                n == pairs@.len(),
                d.wf(),
                0 <= i <= n,
                forall|a: int, b: int|
                    0 <= a < b < i ==> (#[trigger] pairs@[a]).0@ != (#[trigger] pairs@[b]).0@,
                forall|a: int| 0 <= a < i
                    ==> d@.contains_key(#[trigger] pairs@[a].0@) && d@[pairs@[a].0@] == pairs@[a].1,
                forall|k: Seq<char>| d@.contains_key(k)
                    ==> exists|a: int| 0 <= a < i && #[trigger] pairs@[a].0@ == k,
            decreases n - i,
        {
            let key = pairs[i].0.clone();
            let value = pairs[i].1;
            if d.contains_key(key.as_str()) {
                return None;
            }
            d.push_key(key);
            let _ = d.set(pairs[i].0.as_str(), value);
            i = i + 1;
        }
        Some(d)
    }
}

} // verus!
