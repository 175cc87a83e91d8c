//! The shard-ownership protocol, as a mathematical state machine, with
//! proofs of its central invariants.
//!
//! One shard is modelled together with any number of sessions.  A session
//! mirrors the arbiter states of the service (`Start`, waiting on a
//! predecessor, `Owning`, `AwaitRelease`, `Done`); the registry slot mirrors
//! `Shard` (`Unlocked` with the data at rest, or `Locked` by a session); a
//! data-bearing frame in flight and a populated client cache entry are the
//! other two places a copy of the shard's data can be.  Shards do not
//! interact, so every history of the whole service is a product of
//! histories of this machine, one per shard.
//!
//! Proved here, for every reachable state:
//! - exactly one copy of the shard's data exists, counting the slot when
//!   unlocked, frames in flight, and populated cache entries;
//! - at most one session owns the shard;
//! - successful acquisitions form a chain of distinct sessions, the slot is
//!   always locked by the newest link, and a session's `Acquired` either
//!   takes the data from the resting slot or consumes exactly its chain
//!   predecessor's `Released`.

use vstd::prelude::*;

verus! {

/// Where a data-bearing frame of one session is, if any: none, an
/// `Acquired` on its way to the client, or a `Released` on its way back.
pub enum Transit {
    Idle,
    ToClient,
    ToServer,
}

/// A session's place in its lifecycle, as in the arbiter.
pub enum Phase {
    Start,
    WaitPrev { prev: int },
    Owning,
    AwaitRelease,
    Done,
}

/// One session: its phase, its frame in flight, and whether its client's
/// cache entry for the shard is populated.
pub struct SessionModel {
    pub phase: Phase,
    pub transit: Transit,
    pub cache: bool,
}

/// The registry slot of the modelled shard.
pub enum SlotModel {
    /// The data rests in the slot.
    Unlocked,
    /// The session with this index holds the slot.
    Locked(int),
}

/// The whole state for one shard: the slot, every session, and the history
/// of successful swaps in order.
pub struct ShardModel {
    pub slot: SlotModel,
    pub sessions: Seq<SessionModel>,
    pub chain: Seq<int>,
}

/// A session that has not begun: no frame, no cache.
pub open spec fn start_clean() -> SessionModel {
    SessionModel { phase: Phase::Start, transit: Transit::Idle, cache: false }
}

/// A session that is over: no frame, no cache.
pub open spec fn done_clean() -> SessionModel {
    SessionModel { phase: Phase::Done, transit: Transit::Idle, cache: false }
}

/// A session waiting for its predecessor's data: no frame, no cache.
pub open spec fn waiting(prev: int) -> SessionModel {
    SessionModel { phase: Phase::WaitPrev { prev }, transit: Transit::Idle, cache: false }
}

/// How many copies of the shard's data one session accounts for.
pub open spec fn session_copies(x: SessionModel) -> nat {
    (if x.transit is Idle { 0nat } else { 1nat }) + (if x.cache { 1nat } else { 0nat })
}

/// Copies held across all sessions.
pub open spec fn copies_of(ss: Seq<SessionModel>) -> nat
    decreases ss.len(),
{
    if ss.len() == 0 {
        0nat
    } else {
        copies_of(ss.drop_last()) + session_copies(ss.last())
    }
}

/// All extant copies of the shard's data: the slot when unlocked, plus
/// every frame in flight, plus every populated cache entry.
pub open spec fn copies(m: ShardModel) -> nat {
    (if m.slot is Unlocked { 1nat } else { 0nat }) + copies_of(m.sessions)
}

/// Whether session `s` appears in the acquisition chain.
pub open spec fn in_chain(m: ShardModel, s: int) -> bool {
    exists|i: int| 0 <= i < m.chain.len() && m.chain[i] == s
}

/// The current chain element: it owns the shard (or was just told to give
/// it up) and accounts for exactly one copy of the data.
pub open spec fn is_active(x: SessionModel) -> bool {
    (x.phase is Owning || x.phase is AwaitRelease) && session_copies(x) == 1
}

/// The protocol invariant, with the chain's frontier `f` made explicit:
/// the first `f` links of the chain are over and hold nothing; if the whole
/// chain is over the data rests in the slot; otherwise link `f` is the
/// current holder with exactly one copy around it, every later link waits
/// on the link before it, and the slot is locked by the newest link.
/// Sessions outside the chain have not begun.
pub open spec fn inv_at(m: ShardModel, f: int) -> bool {
    let n = m.chain.len() as int;
    &&& 0 <= f <= n
    &&& forall|i: int| 0 <= i < n ==> 0 <= #[trigger] m.chain[i] < m.sessions.len()
    &&& forall|i: int, j: int| 0 <= i < j < n ==> (#[trigger] m.chain[i]) != (#[trigger] m.chain[j])
    &&& forall|s: int| 0 <= s < m.sessions.len() && !in_chain(m, s)
        ==> #[trigger] m.sessions[s] == start_clean()
    &&& forall|i: int| 0 <= i < f ==> m.sessions[#[trigger] m.chain[i]] == done_clean()
    &&& forall|i: int|
        #![trigger m.chain[i], m.chain[i - 1]]
        f < i < n ==> m.sessions[m.chain[i]] == waiting(m.chain[i - 1])
    &&& if f == n {
        m.slot is Unlocked
    } else {
        m.slot == SlotModel::Locked(m.chain[n - 1]) && is_active(m.sessions[m.chain[f]])
    }
}

/// The protocol invariant.
pub open spec fn inv(m: ShardModel) -> bool {
    exists|f: int| inv_at(m, f)
}

/// The boot state: the slot unlocked, `n` sessions none of which has begun.
pub open spec fn init(m: ShardModel, n: int) -> bool {
    &&& m.slot is Unlocked
    &&& m.chain == Seq::<int>::empty()
    &&& m.sessions.len() == n
    &&& forall|s: int| 0 <= s < n ==> #[trigger] m.sessions[s] == start_clean()
}

/// The protocol's transitions.
pub enum ModelStep {
    /// Session `s` performs the atomic swap for its `Acquire`.
    Acquire { s: int },
    /// Waiting session `s` signals its predecessor, whose client is then
    /// told to release (`Release` goes out).
    Notify { s: int },
    /// The client of `s` receives its `Acquired` and fills its cache entry.
    Store { s: int },
    /// The client of `s` empties its cache entry and sends `Released` —
    /// whether because it was told to, or of its own accord when draining.
    ClientRelease { s: int },
    /// The server receives the predecessor's `Released` and answers the
    /// waiting session `s` with `Acquired`.
    Handoff { s: int },
    /// The server receives `Released` from `s`, still the registered
    /// holder, and puts the data back to rest in the slot.
    Settle { s: int },
}

/// The transition relation.
pub open spec fn step(m: ShardModel, m2: ShardModel, t: ModelStep) -> bool {
    match t {
        ModelStep::Acquire { s } => {
            &&& 0 <= s < m.sessions.len()
            &&& m.sessions[s].phase is Start
            &&& m2.chain == m.chain.push(s)
            &&& m2.slot == SlotModel::Locked(s)
            &&& match m.slot {
                SlotModel::Unlocked => m2.sessions == m.sessions.update(
                    s,
                    SessionModel { phase: Phase::Owning, transit: Transit::ToClient, cache: false },
                ),
                SlotModel::Locked(p) => m2.sessions == m.sessions.update(s, waiting(p)),
            }
        },
        ModelStep::Notify { s } => {
            &&& 0 <= s < m.sessions.len()
            &&& m.sessions[s].phase matches Phase::WaitPrev { prev }
                && 0 <= prev < m.sessions.len()
                && m.sessions[prev].phase is Owning
                && m2.sessions == m.sessions.update(
                    prev,
                    SessionModel {
                        phase: Phase::AwaitRelease,
                        transit: m.sessions[prev].transit,
                        cache: m.sessions[prev].cache,
                    },
                )
            &&& m2.slot == m.slot
            &&& m2.chain == m.chain
        },
        ModelStep::Store { s } => {
            &&& 0 <= s < m.sessions.len()
            &&& m.sessions[s].transit is ToClient
            &&& m2.sessions == m.sessions.update(
                s,
                SessionModel { phase: m.sessions[s].phase, transit: Transit::Idle, cache: true },
            )
            &&& m2.slot == m.slot
            &&& m2.chain == m.chain
        },
        ModelStep::ClientRelease { s } => {
            &&& 0 <= s < m.sessions.len()
            &&& m.sessions[s].cache
            &&& m2.sessions == m.sessions.update(
                s,
                SessionModel {
                    phase: m.sessions[s].phase,
                    transit: Transit::ToServer,
                    cache: false,
                },
            )
            &&& m2.slot == m.slot
            &&& m2.chain == m.chain
        },
        ModelStep::Handoff { s } => {
            &&& 0 <= s < m.sessions.len()
            &&& m.sessions[s].phase matches Phase::WaitPrev { prev }
                && 0 <= prev < m.sessions.len()
                && prev != s
                && m.sessions[prev].transit is ToServer
                && m2.sessions == m.sessions.update(prev, done_clean()).update(
                    s,
                    SessionModel { phase: Phase::Owning, transit: Transit::ToClient, cache: false },
                )
            &&& m2.slot == m.slot
            &&& m2.chain == m.chain
        },
        ModelStep::Settle { s } => {
            &&& 0 <= s < m.sessions.len()
            &&& m.slot == SlotModel::Locked(s)
            &&& m.sessions[s].transit is ToServer
            &&& m2.sessions == m.sessions.update(s, done_clean())
            &&& m2.slot is Unlocked
            &&& m2.chain == m.chain
        },
    }
}

/// A session that holds any copy of the data is the chain's frontier.
proof fn lemma_flagged_is_frontier(m: ShardModel, f: int, s: int)
    requires
        inv_at(m, f),
        0 <= s < m.sessions.len(),
        session_copies(m.sessions[s]) != 0,
    ensures
        f < m.chain.len(),
        m.chain[f] == s,
{
    if !in_chain(m, s) {
        assert(m.sessions[s] == start_clean());
    }
    let i = choose|i: int| 0 <= i < m.chain.len() && m.chain[i] == s;
    if i < f {
        assert(m.sessions[m.chain[i]] == done_clean());
    }
    if i > f {
        assert(m.sessions[m.chain[i]] == waiting(m.chain[i - 1]));
    }
}

/// A session that owns the shard, or was told to give it up, is the
/// chain's frontier.
proof fn lemma_owner_is_frontier(m: ShardModel, f: int, s: int)
    requires
        inv_at(m, f),
        0 <= s < m.sessions.len(),
        m.sessions[s].phase is Owning || m.sessions[s].phase is AwaitRelease,
    ensures
        f < m.chain.len(),
        m.chain[f] == s,
{
    if !in_chain(m, s) {
        assert(m.sessions[s] == start_clean());
    }
    let i = choose|i: int| 0 <= i < m.chain.len() && m.chain[i] == s;
    if i < f {
        assert(m.sessions[m.chain[i]] == done_clean());
    }
    if i > f {
        assert(m.sessions[m.chain[i]] == waiting(m.chain[i - 1]));
    }
}

/// A session still in `Start` is not in the chain.
proof fn lemma_start_not_in_chain(m: ShardModel, f: int, s: int)
    requires
        inv_at(m, f),
        0 <= s < m.sessions.len(),
        m.sessions[s].phase is Start,
    ensures
        !in_chain(m, s),
{
    if in_chain(m, s) {
        let i = choose|i: int| 0 <= i < m.chain.len() && m.chain[i] == s;
        if i < f {
            assert(m.sessions[m.chain[i]] == done_clean());
        } else if i == f {
            assert(f < m.chain.len());
            assert(is_active(m.sessions[m.chain[f]]));
        } else {
            assert(m.sessions[m.chain[i]] == waiting(m.chain[i - 1]));
        }
    }
}

/// The boot state satisfies the invariant.
pub proof fn lemma_init_inv(m: ShardModel, n: int)
    requires
        init(m, n),
    ensures
        inv(m),
{
    assert(inv_at(m, 0));
}

/// Law: every step of the protocol preserves the invariant.
pub proof fn lemma_step_preserves_inv(m: ShardModel, m2: ShardModel, t: ModelStep)
    requires
        inv(m),
        step(m, m2, t),
    ensures
        inv(m2),
{
    let f = choose|f: int| inv_at(m, f);
    match t {
        ModelStep::Acquire { s } => preserve_acquire(m, m2, f, s),
        ModelStep::Notify { s } => preserve_notify(m, m2, f, s),
        ModelStep::Store { s } => preserve_store(m, m2, f, s),
        ModelStep::ClientRelease { s } => preserve_client_release(m, m2, f, s),
        ModelStep::Handoff { s } => preserve_handoff(m, m2, f, s),
        ModelStep::Settle { s } => preserve_settle(m, m2, f, s),
    }
}

proof fn preserve_acquire(m: ShardModel, m2: ShardModel, f: int, s: int)
    requires
        inv_at(m, f),
        step(m, m2, ModelStep::Acquire { s }),
    ensures
        inv(m2),
{
    let n = m.chain.len() as int;
    lemma_start_not_in_chain(m, f, s);
    assert forall|u: int| 0 <= u < m2.sessions.len() && !in_chain(m2, u) implies
        #[trigger] m2.sessions[u] == start_clean() by {
        if in_chain(m, u) {
            let i = choose|i: int| 0 <= i < m.chain.len() && m.chain[i] == u;
            assert(m2.chain[i] == u);
        }
        assert(u != s) by {
            assert(m2.chain[n] == s);
        }
    }
    match m.slot {
        SlotModel::Unlocked => {
            assert(f == n);
            assert forall|i: int| 0 <= i < n implies
                m2.sessions[#[trigger] m2.chain[i]] == done_clean() by {
                assert(m2.chain[i] == m.chain[i]);
                assert(m.chain[i] != s);
            }
            assert(m2.chain[n] == s);
            assert(is_active(m2.sessions[s]));
            assert(inv_at(m2, n));
        },
        SlotModel::Locked(p) => {
            assert(f < n);
            assert(p == m.chain[n - 1]);
            assert forall|i: int| 0 <= i < f implies
                m2.sessions[#[trigger] m2.chain[i]] == done_clean() by {
                assert(m2.chain[i] == m.chain[i]);
                assert(m.chain[i] != s);
            }
            assert forall|i: int|
                #![trigger m2.chain[i], m2.chain[i - 1]]
                f < i < n + 1 implies
                m2.sessions[m2.chain[i]] == waiting(m2.chain[i - 1]) by {
                if i < n {
                    assert(m2.chain[i] == m.chain[i]);
                    assert(m.chain[i] != s);
                    assert(m2.chain[i - 1] == m.chain[i - 1]);
                    assert(m.sessions[m.chain[i]] == waiting(m.chain[i - 1]));
                } else {
                    assert(m2.chain[n] == s);
                    assert(m2.chain[n - 1] == m.chain[n - 1]);
                }
            }
            assert(m2.chain[f] == m.chain[f]);
            assert(m.chain[f] != s);
            assert(is_active(m2.sessions[m2.chain[f]]));
            assert(inv_at(m2, f));
        },
    }
}

proof fn preserve_notify(m: ShardModel, m2: ShardModel, f: int, s: int)
    requires
        inv_at(m, f),
        step(m, m2, ModelStep::Notify { s }),
    ensures
        inv(m2),
{
    let n = m.chain.len() as int;
    let prev = m.sessions[s].phase->prev;
    lemma_owner_is_frontier(m, f, prev);
    assert forall|u: int| 0 <= u < m2.sessions.len() && !in_chain(m2, u) implies
        #[trigger] m2.sessions[u] == start_clean() by {
        assert(!in_chain(m, u));
        assert(u != prev) by {
            assert(m.chain[f] == prev);
        }
    }
    assert forall|i: int| 0 <= i < f implies
        m2.sessions[#[trigger] m2.chain[i]] == done_clean() by {
        assert(m.chain[i] != prev);
    }
    assert forall|i: int|
        #![trigger m2.chain[i], m2.chain[i - 1]]
        f < i < n implies m2.sessions[m2.chain[i]] == waiting(m2.chain[i - 1]) by {
        assert(m.sessions[m.chain[i]] == waiting(m.chain[i - 1]));
        assert(m.chain[i] != prev);
    }
    assert(is_active(m2.sessions[m2.chain[f]]));
    assert(inv_at(m2, f));
}

proof fn preserve_store(m: ShardModel, m2: ShardModel, f: int, s: int)
    requires
        inv_at(m, f),
        step(m, m2, ModelStep::Store { s }),
    ensures
        inv(m2),
{
    let n = m.chain.len() as int;
    lemma_flagged_is_frontier(m, f, s);
    assert forall|u: int| 0 <= u < m2.sessions.len() && !in_chain(m2, u) implies
        #[trigger] m2.sessions[u] == start_clean() by {
        assert(!in_chain(m, u));
        assert(u != s) by {
            assert(m.chain[f] == s);
        }
    }
    assert forall|i: int| 0 <= i < f implies
        m2.sessions[#[trigger] m2.chain[i]] == done_clean() by {
        assert(m.chain[i] != s);
    }
    assert forall|i: int|
        #![trigger m2.chain[i], m2.chain[i - 1]]
        f < i < n implies m2.sessions[m2.chain[i]] == waiting(m2.chain[i - 1]) by {
        assert(m.sessions[m.chain[i]] == waiting(m.chain[i - 1]));
        assert(m.chain[i] != s);
    }
    assert(is_active(m2.sessions[m2.chain[f]]));
    assert(inv_at(m2, f));
}

proof fn preserve_client_release(m: ShardModel, m2: ShardModel, f: int, s: int)
    requires
        inv_at(m, f),
        step(m, m2, ModelStep::ClientRelease { s }),
    ensures
        inv(m2),
{
    let n = m.chain.len() as int;
    lemma_flagged_is_frontier(m, f, s);
    assert forall|u: int| 0 <= u < m2.sessions.len() && !in_chain(m2, u) implies
        #[trigger] m2.sessions[u] == start_clean() by {
        assert(!in_chain(m, u));
        assert(u != s) by {
            assert(m.chain[f] == s);
        }
    }
    assert forall|i: int| 0 <= i < f implies
        m2.sessions[#[trigger] m2.chain[i]] == done_clean() by {
        assert(m.chain[i] != s);
    }
    assert forall|i: int|
        #![trigger m2.chain[i], m2.chain[i - 1]]
        f < i < n implies m2.sessions[m2.chain[i]] == waiting(m2.chain[i - 1]) by {
        assert(m.sessions[m.chain[i]] == waiting(m.chain[i - 1]));
        assert(m.chain[i] != s);
    }
    assert(is_active(m2.sessions[m2.chain[f]]));
    assert(inv_at(m2, f));
}

proof fn preserve_handoff(m: ShardModel, m2: ShardModel, f: int, s: int)
    requires
        inv_at(m, f),
        step(m, m2, ModelStep::Handoff { s }),
    ensures
        inv(m2),
{
    let n = m.chain.len() as int;
    let prev = m.sessions[s].phase->prev;
    lemma_flagged_is_frontier(m, f, prev);
    if !in_chain(m, s) {
        assert(m.sessions[s] == start_clean());
    }
    let i = choose|i: int| 0 <= i < m.chain.len() && m.chain[i] == s;
    if i < f {
        assert(m.sessions[m.chain[i]] == done_clean());
    }
    if i == f {
        assert(is_active(m.sessions[m.chain[f]]));
    }
    assert(i > f);
    assert(m.sessions[m.chain[i]] == waiting(m.chain[i - 1]));
    assert(m.chain[i - 1] == prev);
    assert(i - 1 == f) by {
        if i - 1 > f {
            assert(m.sessions[m.chain[i - 1]] == waiting(m.chain[i - 2]));
        }
    }
    assert forall|u: int| 0 <= u < m2.sessions.len() && !in_chain(m2, u) implies
        #[trigger] m2.sessions[u] == start_clean() by {
        assert(!in_chain(m, u));
        assert(u != s) by {
            assert(m.chain[i] == s);
        }
        assert(u != prev) by {
            assert(m.chain[f] == prev);
        }
    }
    assert forall|w: int| 0 <= w < f + 1 implies
        m2.sessions[#[trigger] m2.chain[w]] == done_clean() by {
        if w < f {
            assert(m.sessions[m.chain[w]] == done_clean());
            assert(m.chain[w] != s);
            assert(m.chain[w] != prev);
        } else {
            assert(m2.chain[f] == prev);
            assert(prev != s);
        }
    }
    assert forall|w: int|
        #![trigger m2.chain[w], m2.chain[w - 1]]
        f + 1 < w < n implies m2.sessions[m2.chain[w]] == waiting(m2.chain[w - 1]) by {
        assert(m.sessions[m.chain[w]] == waiting(m.chain[w - 1]));
        assert(m.chain[w] != s);
        assert(m.chain[w] != prev);
    }
    assert(m2.chain[f + 1] == s);
    assert(f + 1 < n) by {
        if f + 1 == n {
            assert(m.chain[n - 1] == s);
            assert(m.slot == SlotModel::Locked(m.chain[n - 1]));
        }
    }
    assert(is_active(m2.sessions[m2.chain[f + 1]]));
    assert(inv_at(m2, f + 1));
}

proof fn preserve_settle(m: ShardModel, m2: ShardModel, f: int, s: int)
    requires
        inv_at(m, f),
        step(m, m2, ModelStep::Settle { s }),
    ensures
        inv(m2),
{
    let n = m.chain.len() as int;
    lemma_flagged_is_frontier(m, f, s);
    assert(f < n);
    assert(s == m.chain[f]);
    assert(s == m.chain[n - 1]);
    assert(f == n - 1) by {
        if f < n - 1 {
            assert(m.chain[f] != m.chain[n - 1]);
        }
    }
    assert forall|u: int| 0 <= u < m2.sessions.len() && !in_chain(m2, u) implies
        #[trigger] m2.sessions[u] == start_clean() by {
        assert(!in_chain(m, u));
        assert(u != s) by {
            assert(m.chain[f] == s);
        }
    }
    assert forall|i: int| 0 <= i < n implies
        m2.sessions[#[trigger] m2.chain[i]] == done_clean() by {
        if i < f {
            assert(m.sessions[m.chain[i]] == done_clean());
            assert(m.chain[i] != s);
        }
    }
    assert(inv_at(m2, n));
}

proof fn lemma_copies_of_zero(ss: Seq<SessionModel>)
    requires
        forall|i: int| 0 <= i < ss.len() ==> session_copies(#[trigger] ss[i]) == 0,
    ensures
        copies_of(ss) == 0,
    decreases ss.len(),
{
    if ss.len() > 0 {
        lemma_copies_of_zero(ss.drop_last());
    }
}

proof fn lemma_copies_of_single(ss: Seq<SessionModel>, t: int)
    requires
        0 <= t < ss.len(),
        forall|i: int| 0 <= i < ss.len() && i != t ==> session_copies(#[trigger] ss[i]) == 0,
    ensures
        copies_of(ss) == session_copies(ss[t]),
    decreases ss.len(),
{
    if t == ss.len() - 1 {
        lemma_copies_of_zero(ss.drop_last());
    } else {
        lemma_copies_of_single(ss.drop_last(), t);
    }
}

/// Law: in every reachable state there is exactly one copy of the shard's
/// data, over the registry slot, the frames in flight, and the clients'
/// cache entries together.
pub proof fn lemma_single_copy(m: ShardModel)
    requires
        inv(m),
    ensures
        copies(m) == 1,
{
    let f = choose|f: int| inv_at(m, f);
    let n = m.chain.len() as int;
    if f == n {
        assert forall|i: int| 0 <= i < m.sessions.len() implies
            session_copies(#[trigger] m.sessions[i]) == 0 by {
            if in_chain(m, i) {
                let w = choose|w: int| 0 <= w < m.chain.len() && m.chain[w] == i;
                assert(m.sessions[m.chain[w]] == done_clean());
            } else {
                assert(m.sessions[i] == start_clean());
            }
        }
        lemma_copies_of_zero(m.sessions);
    } else {
        let t = m.chain[f];
        assert forall|i: int| 0 <= i < m.sessions.len() && i != t implies
            session_copies(#[trigger] m.sessions[i]) == 0 by {
            if in_chain(m, i) {
                let w = choose|w: int| 0 <= w < m.chain.len() && m.chain[w] == i;
                if w < f {
                    assert(m.sessions[m.chain[w]] == done_clean());
                } else if w > f {
                    assert(m.sessions[m.chain[w]] == waiting(m.chain[w - 1]));
                } else {
                    assert(i == t);
                }
            } else {
                assert(m.sessions[i] == start_clean());
            }
        }
        lemma_copies_of_single(m.sessions, t);
        assert(is_active(m.sessions[t]));
    }
}

/// Law: at most one session per shard is in state `Owning`.
pub proof fn lemma_at_most_one_owner(m: ShardModel, a: int, b: int)
    requires
        inv(m),
        0 <= a < m.sessions.len(),
        0 <= b < m.sessions.len(),
        m.sessions[a].phase is Owning,
        m.sessions[b].phase is Owning,
    ensures
        a == b,
{
    let f = choose|f: int| inv_at(m, f);
    lemma_owner_is_frontier(m, f, a);
    lemma_owner_is_frontier(m, f, b);
}

/// Law: the acquisition chain only grows, by appending the acquiring
/// session; no step reorders or drops history.
pub proof fn lemma_chain_append_only(m: ShardModel, m2: ShardModel, t: ModelStep)
    requires
        step(m, m2, t),
    ensures
        m2.chain == m.chain || m2.chain == m.chain.push(t->Acquire_s),
{
}

/// Law: the successful acquisitions of one shard form a totally ordered
/// chain: a list of distinct, valid sessions in swap order.
pub proof fn lemma_chain_total_order(m: ShardModel)
    requires
        inv(m),
    ensures
        forall|i: int, j: int|
            0 <= i < j < m.chain.len() ==> (#[trigger] m.chain[i]) != (#[trigger] m.chain[j]),
        forall|i: int| 0 <= i < m.chain.len() ==> 0 <= #[trigger] m.chain[i] < m.sessions.len(),
{
    let f = choose|f: int| inv_at(m, f);
}

/// Law: chain linearity.  When a step puts an `Acquired` on the wire for
/// session `s`, either the data was at rest in the slot (the initial
/// `Unlocked`, or a settled release), or `s` is a chain link after the
/// first and the step consumed exactly the `Released` of `s`'s chain
/// predecessor: each acquisition is causally preceded by the prior
/// holder's release.
pub proof fn lemma_chain_linearity(m: ShardModel, m2: ShardModel, t: ModelStep, s: int)
    requires
        inv(m),
        step(m, m2, t),
        0 <= s < m.sessions.len(),
        !(m.sessions[s].transit is ToClient),
        m2.sessions[s].transit is ToClient,
    ensures
        m.slot is Unlocked || exists|i: int| {
            &&& 0 < i < m.chain.len()
            &&& #[trigger] m.chain[i] == s
            &&& m.sessions[m.chain[i - 1]].transit is ToServer
            &&& m2.sessions[m.chain[i - 1]].transit is Idle
        },
{
    let f = choose|f: int| inv_at(m, f);
    match t {
        ModelStep::Acquire { s: s2 } => {
            match m.slot {
                SlotModel::Unlocked => {},
                SlotModel::Locked(p) => {
                    assert(m2.sessions == m.sessions.update(s2, waiting(p)));
                    assert(m2.sessions[s].transit is ToClient);
                    assert(false);
                },
            }
        },
        ModelStep::Notify { s: s2 } => {
            assert(false);
        },
        ModelStep::Store { s: s2 } => {
            assert(false);
        },
        ModelStep::ClientRelease { s: s2 } => {
            assert(false);
        },
        ModelStep::Handoff { s: s2 } => {
            let prev = m.sessions[s2].phase->prev;
            lemma_flagged_is_frontier(m, f, prev);
            assert(s == s2) by {
                if s != s2 && s != prev {
                    assert(m2.sessions[s] == m.sessions[s]);
                }
                if s == prev {
                    assert(m2.sessions[prev] == done_clean());
                }
            }
            if !in_chain(m, s) {
                assert(m.sessions[s] == start_clean());
            }
            let i = choose|i: int| 0 <= i < m.chain.len() && m.chain[i] == s;
            if i < f {
                assert(m.sessions[m.chain[i]] == done_clean());
            }
            if i == f {
                assert(is_active(m.sessions[m.chain[f]]));
            }
            assert(i > f);
            assert(m.sessions[m.chain[i]] == waiting(m.chain[i - 1]));
            assert(m.chain[i - 1] == prev);
            assert(m.chain[f] == prev);
            assert(i - 1 == f) by {
                if i - 1 > f {
                    assert(m.sessions[m.chain[i - 1]] == waiting(m.chain[i - 2]));
                }
            }
            assert(prev != s);
            assert(m2.sessions[m.chain[i - 1]].transit is Idle);
        },
        ModelStep::Settle { s: s2 } => {
            assert(m2.sessions == m.sessions.update(s2, done_clean()));
            assert(false);
        },
    }
}

} // verus!
