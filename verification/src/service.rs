//! The per-session arbiter of the lock service.
//!
//! One session is one client stream.  Its arbiter starts when the first
//! frame arrives, performs the atomic swap on the registry, and from then on
//! reacts to events: the previous holder's data arriving, a later session
//! stealing the shard, and the client's frames.  `session_step` is the whole
//! state machine; the surrounding tasks only wait for events, feed them in,
//! and carry the returned effect out (send a frame, signal a session, hand
//! data to a successor).

use vstd::prelude::*;
use crate::api::{Code, LockRequest, LockRequestBody, LockResponse, LockResponseBody, Status};
use crate::connection::{ConnectionMap, Shard, SwapOutcome};
use crate::data::ShardData;

verus! {

/// Where one session stands in its lifecycle.
pub enum SessionState {
    /// Waiting for the client's first frame.
    Start,
    /// Swapped into the registry over the previous holder `prev`; waiting
    /// for that session to give the data up.
    Held { shard_id: String, prev: u64 },
    /// The client owns the shard.
    Owning { shard_id: String },
    /// The client was told to release the shard and has not yet done so.
    AwaitRelease { shard_id: String },
    /// The session ended cleanly; the stream should close.
    Done,
    /// The session failed; an error status was reported.
    Failed,
}

/// An event a session reacts to.
pub enum SessionEvent {
    /// A frame from the client, or `None` when the stream ended.
    Frame(Option<LockRequest>),
    /// The previous holder gave the shard's data up.
    PrevData(ShardData),
    /// The previous holder's session died without releasing the data.
    PrevGone,
    /// A later session swapped this one out of the registry.
    StealSignal,
}

/// What the caller must carry out after a step.
pub enum SessionEffect {
    /// Nothing; on `Done` the stream closes cleanly.
    Quiet,
    /// Send this frame to the session's client.
    Send(LockResponse),
    /// Signal session `prev` that a successor waits, then feed the data it
    /// gives up back in as `PrevData`.
    WaitPrev(u64),
    /// Hand the data to the successor session that swapped this one out.
    Handoff(ShardData),
    /// Report this status to the client and close the stream.
    Fail(Status),
}

/// Which events can reach a session in each state.  Frames arrive only
/// while the arbiter is reading the stream; the hand-off outcome only while
/// it waits on the previous holder; the steal signal fires at most once,
/// while the client owns the shard.
pub open spec fn event_fits(state: SessionState, event: SessionEvent) -> bool {
    match state {
        SessionState::Start => event is Frame,
        SessionState::Held { .. } => event is PrevData || event is PrevGone,
        SessionState::Owning { .. } => event is Frame || event is StealSignal,
        SessionState::AwaitRelease { .. } => event is Frame,
        SessionState::Done => event is Frame,
        SessionState::Failed => false,
    }
}

/// Shard data carried by an event is well-formed (decoded tables are).
pub open spec fn event_data_wf(event: SessionEvent) -> bool {
    match event {
        SessionEvent::Frame(Some(req)) => match req.body {
            Some(LockRequestBody::Released(d)) => d.wf(),
            _ => true,
        },
        SessionEvent::PrevData(d) => d.wf(),
        _ => true,
    }
}

/// A state names only shards that the registry knows.
pub open spec fn state_ok(reg: Map<Seq<char>, Shard>, state: SessionState) -> bool {
    match state {
        SessionState::Held { shard_id, .. } => reg.contains_key(shard_id@),
        SessionState::Owning { shard_id } => reg.contains_key(shard_id@),
        SessionState::AwaitRelease { shard_id } => reg.contains_key(shard_id@),
        _ => true,
    }
}

/// What receiving the client's second frame (its `Released`, or the stream
/// end) does, from either owning state: the stream ending first is data
/// loss; a frame that is not `Released` is a precondition failure; a
/// `Released` settles the registry when the session still holds the slot,
/// and otherwise hands the data to the successor that swapped it out.
pub open spec fn finish_spec(
    pre: Map<Seq<char>, Shard>,
    session: u64,
    sid: Seq<char>,
    frame: Option<LockRequest>,
    post: Map<Seq<char>, Shard>,
    state2: SessionState,
    effect: SessionEffect,
) -> bool {
    match frame {
        None => post == pre && state2 is Failed
            && (effect matches SessionEffect::Fail(s) && s.code == Code::DataLoss),
        Some(req) => match req.body {
            Some(LockRequestBody::Released(d)) => {
                &&& state2 is Done
                &&& if pre[sid] == Shard::Locked(session) {
                    post == pre.insert(sid, Shard::Unlocked(d)) && effect is Quiet
                } else {
                    post == pre && (effect matches SessionEffect::Handoff(h) && h == d)
                }
            },
            _ => post == pre && state2 is Failed
                && (effect matches SessionEffect::Fail(s) && s.code == Code::FailedPrecondition),
        },
    }
}

/// The whole transition table of one session: how each event moves the
/// state, what it does to the registry, and which effect the caller must
/// carry out.
pub open spec fn step_spec(
    pre: Map<Seq<char>, Shard>,
    session: u64,
    state: SessionState,
    event: SessionEvent,
    post: Map<Seq<char>, Shard>,
    state2: SessionState,
    effect: SessionEffect,
) -> bool {
    match (state, event) {
        (SessionState::Start, SessionEvent::Frame(None)) => post == pre && state2 is Failed
            && (effect matches SessionEffect::Fail(s) && s.code == Code::InvalidArgument),
        (SessionState::Start, SessionEvent::Frame(Some(req))) => match req.body {
            Some(LockRequestBody::Acquire(sid)) => {
                if !pre.contains_key(sid@) {
                    post == pre && state2 is Failed
                        && (effect matches SessionEffect::Fail(s) && s.code == Code::NotFound)
                } else {
                    &&& post == pre.insert(sid@, Shard::Locked(session))
                    &&& match pre[sid@] {
                        Shard::Unlocked(d) => {
                            &&& state2 matches SessionState::Owning { shard_id } && shard_id@ == sid@
                            &&& effect matches SessionEffect::Send(resp)
                                && resp.body matches Some(LockResponseBody::Acquired(d2))
                                && d2 == d && d2.wf()
                        },
                        Shard::Locked(p) => {
                            &&& state2 matches SessionState::Held { shard_id, prev }
                                && shard_id@ == sid@ && prev == p
                            &&& effect == SessionEffect::WaitPrev(p)
                        },
                    }
                }
            },
            _ => post == pre && state2 is Failed
                && (effect matches SessionEffect::Fail(s) && s.code == Code::FailedPrecondition),
        },
        (SessionState::Held { shard_id, .. }, SessionEvent::PrevData(d)) => {
            &&& post == pre
            &&& state2 matches SessionState::Owning { shard_id: sid2 } && sid2@ == shard_id@
            &&& effect matches SessionEffect::Send(resp)
                && resp.body matches Some(LockResponseBody::Acquired(d2)) && d2 == d && d2.wf()
        },
        (SessionState::Held { .. }, SessionEvent::PrevGone) => post == pre && state2 is Failed
            && (effect matches SessionEffect::Fail(s) && s.code == Code::DataLoss),
        (SessionState::Owning { shard_id }, SessionEvent::StealSignal) => {
            &&& post == pre
            &&& state2 matches SessionState::AwaitRelease { shard_id: sid2 } && sid2@ == shard_id@
            &&& effect matches SessionEffect::Send(resp)
                && resp.body matches Some(LockResponseBody::Release(sid3)) && sid3@ == shard_id@
        },
        (SessionState::Owning { shard_id }, SessionEvent::Frame(frame)) =>
            finish_spec(pre, session, shard_id@, frame, post, state2, effect),
        (SessionState::AwaitRelease { shard_id }, SessionEvent::Frame(frame)) =>
            finish_spec(pre, session, shard_id@, frame, post, state2, effect),
        (SessionState::Done, SessionEvent::Frame(None)) => post == pre && state2 is Done
            && effect is Quiet,
        (SessionState::Done, SessionEvent::Frame(Some(_))) => post == pre && state2 is Failed
            && (effect matches SessionEffect::Fail(s) && s.code == Code::FailedPrecondition),
        _ => false,
    }
}

/// The lock service: the shard registry plus the configured artificial
/// latency, in milliseconds, that the surrounding tasks insert before
/// `Acquired` and `Release` frames go out.
pub struct LockService {
    connections: ConnectionMap,
    /// Simulated latency before outgoing `Acquired` and `Release` frames.
    pub latency_ms: u64,
    next_session: u64,
}

impl LockService {
    /// The registry is well-formed.
    pub closed spec fn wf(self) -> bool {
        self.connections.wf()
    }

    /// The registry's contents.
    pub closed spec fn registry(self) -> Map<Seq<char>, Shard> {
        self.connections@
    }

    /// The configured simulated latency, in milliseconds.
    pub closed spec fn latency(self) -> u64 {
        self.latency_ms
    }

    /// Boots the service from the resource's `(shard id, key)` enumeration.
    pub fn new(keys: &Vec<(String, String)>, latency_ms: u64) -> (r: LockService)
        ensures
            r.wf(),
            r.latency() == latency_ms,
            forall|k: Seq<char>| #[trigger] r.registry().contains_key(k)
                <==> crate::connection::has_shard(keys@, k),
            forall|k: Seq<char>| r.registry().contains_key(k)
                ==> crate::connection::boot_slot(keys@, k, #[trigger] r.registry()[k]),
    {
        LockService { connections: ConnectionMap::new(keys), latency_ms, next_session: 0 }
    }

    /// A session id never handed out before by this service.
    pub fn fresh_session(&mut self) -> (r: u64)
        requires
            old(self).next_session_counter() < u64::MAX,
        ensures
            final(self).wf() == old(self).wf(),
            final(self).registry() == old(self).registry(),
            final(self).latency() == old(self).latency(),
            r == old(self).next_session_counter(),
            final(self).next_session_counter() == old(self).next_session_counter() + 1,
    {
        let r = self.next_session;
        self.next_session = self.next_session + 1;
        r
    }

    /// How many session ids have been handed out.
    pub closed spec fn next_session_counter(self) -> u64 {
        self.next_session
    }

    /// The state of one registry slot, or `None` when no such shard exists.
    pub fn shard(&self, id: &str) -> (r: Option<&Shard>)
        requires
            self.wf(),
        ensures
            match r {
                Some(s) => self.registry().contains_key(id@) && *s == self.registry()[id@]
                    && (*s matches Shard::Unlocked(d) ==> d.wf()),
                None => !self.registry().contains_key(id@),
            },
    {
        self.connections.shard(id)
    }

    /// One step of a session's arbiter: reacts to `event` in `state`,
    /// updates the registry, and says what the caller must do next.
    pub fn session_step(
        &mut self,
        session: u64,
        state: SessionState,
        event: SessionEvent,
    ) -> (r: (SessionState, SessionEffect))
        requires
            old(self).wf(),
            state_ok(old(self).registry(), state),
            event_fits(state, event),
            event_data_wf(event),
        ensures
            final(self).wf(),
            final(self).latency() == old(self).latency(),
            state_ok(final(self).registry(), r.0),
            step_spec(
                old(self).registry(),
                session,
                state,
                event,
                final(self).registry(),
                r.0,
                r.1,
            ),
    {
        match (state, event) {
            (SessionState::Start, SessionEvent::Frame(None)) => (
                SessionState::Failed,
                SessionEffect::Fail(Status::new(Code::InvalidArgument, "expected request")),
            ),
            (SessionState::Start, SessionEvent::Frame(Some(req))) => match req.expect_acquire() {
                Err(s) => (SessionState::Failed, SessionEffect::Fail(s)),
                Ok(sid) => match self.connections.begin(sid.as_str(), session) {
                    None => (
                        SessionState::Failed,
                        SessionEffect::Fail(Status::new(Code::NotFound, "key not found")),
                    ),
                    Some(SwapOutcome::WasUnlocked(d)) => {
                        let resp = LockResponse { body: Some(LockResponseBody::Acquired(d)) };
                        (SessionState::Owning { shard_id: sid }, SessionEffect::Send(resp))
                    },
                    Some(SwapOutcome::WasLocked(p)) => (
                        SessionState::Held { shard_id: sid, prev: p },
                        SessionEffect::WaitPrev(p),
                    ),
                },
            },
            (SessionState::Held { shard_id, .. }, SessionEvent::PrevData(d)) => {
                let resp = LockResponse { body: Some(LockResponseBody::Acquired(d)) };
                (SessionState::Owning { shard_id }, SessionEffect::Send(resp))
            },
            (SessionState::Held { .. }, SessionEvent::PrevGone) => (
                SessionState::Failed,
                SessionEffect::Fail(Status::new(Code::DataLoss, "previous holder lost the shard")),
            ),
            (SessionState::Owning { shard_id }, SessionEvent::StealSignal) => {
                let sid2 = shard_id.clone();
                let resp = LockResponse { body: Some(LockResponseBody::Release(sid2)) };
                (SessionState::AwaitRelease { shard_id }, SessionEffect::Send(resp))
            },
            (SessionState::Owning { shard_id }, SessionEvent::Frame(frame)) => {
                self.finish(session, shard_id, frame)
            },
            (SessionState::AwaitRelease { shard_id }, SessionEvent::Frame(frame)) => {
                self.finish(session, shard_id, frame)
            },
            (SessionState::Done, SessionEvent::Frame(None)) => (
                SessionState::Done,
                SessionEffect::Quiet,
            ),
            (SessionState::Done, SessionEvent::Frame(Some(_))) => (
                SessionState::Failed,
                SessionEffect::Fail(Status::new(Code::FailedPrecondition, "connection closed")),
            ),
            _ => {
                proof {
                    assert(false);
                }
                (SessionState::Failed, SessionEffect::Quiet)
            },
        }
    }

    /// Handles the client's second frame from either owning state.
    fn finish(
        &mut self,
        session: u64,
        shard_id: String,
        frame: Option<LockRequest>,
    ) -> (r: (SessionState, SessionEffect))
        requires
            old(self).wf(),
            old(self).registry().contains_key(shard_id@),
            match frame {
                Some(req) => match req.body {
                    Some(LockRequestBody::Released(d)) => d.wf(),
                    _ => true,
                },
                None => true,
            },
        ensures
            final(self).wf(),
            final(self).latency() == old(self).latency(),
            state_ok(final(self).registry(), r.0),
            finish_spec(
                old(self).registry(),
                session,
                shard_id@,
                frame,
                final(self).registry(),
                r.0,
                r.1,
            ),
    {
        match frame {
            None => (
                SessionState::Failed,
                SessionEffect::Fail(Status::new(Code::DataLoss, "shard not released")),
            ),
            Some(req) => match req.expect_released() {
                Err(s) => (SessionState::Failed, SessionEffect::Fail(s)),
                Ok(d) => match self.connections.settle(shard_id.as_str(), session, d) {
                    None => (SessionState::Done, SessionEffect::Quiet),
                    Some(h) => (SessionState::Done, SessionEffect::Handoff(h)),
                },
            },
        }
    }
}

} // verus!
