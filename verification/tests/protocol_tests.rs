use shardik::{
    Code, FileSystem, Lock, LockRequest, LockRequestBody, LockResponse, LockResponseBody,
    LockService, LockStep, Resource, SessionEffect, SessionEvent, SessionState, Shard, ShardData,
    UnlockError,
};

fn key_pairs(pairs: &[(&str, &str)]) -> Vec<(String, String)> {
    pairs.iter().map(|(s, k)| (s.to_string(), k.to_string())).collect()
}

fn acquire_frame(sid: &str) -> SessionEvent {
    SessionEvent::Frame(Some(LockRequest {
        body: Some(LockRequestBody::Acquire(sid.to_string())),
    }))
}

fn released_frame(data: ShardData) -> SessionEvent {
    SessionEvent::Frame(Some(LockRequest { body: Some(LockRequestBody::Released(data)) }))
}

fn sent_acquired(effect: SessionEffect) -> ShardData {
    match effect {
        SessionEffect::Send(LockResponse { body: Some(LockResponseBody::Acquired(d)) }) => d,
        _ => panic!("expected an Acquired frame"),
    }
}

fn sent_release(effect: SessionEffect) -> String {
    match effect {
        SessionEffect::Send(LockResponse { body: Some(LockResponseBody::Release(sid)) }) => sid,
        _ => panic!("expected a Release frame"),
    }
}

fn fail_code(effect: SessionEffect) -> Code {
    match effect {
        SessionEffect::Fail(status) => status.code,
        _ => panic!("expected a failure status"),
    }
}

/// One client, one shard: acquire, set the bit, give the shard back with
/// `release_all`; the registry ends unlocked with the bit kept.
#[test]
fn single_client_single_shard() {
    let keys = key_pairs(&[("0", "0/0")]);
    let mut service = LockService::new(&keys, 0);
    let session = service.fresh_session();
    let fs = FileSystem::new(String::new(), 1, 1);
    let mut lock = Lock::new(None, fs);

    let step = lock.lock("0/0");
    let sid = match step {
        LockStep::NeedAcquire(sid) => sid,
        LockStep::Done(_) => panic!("nothing is cached yet"),
    };
    assert_eq!(sid, "0");

    let (state, effect) = service.session_step(session, SessionState::Start, acquire_frame(&sid));
    assert!(matches!(state, SessionState::Owning { .. }));
    let data = sent_acquired(effect);
    assert_eq!(data.get("0/0"), Some(false));

    let changed = lock.finish_acquire("0/0", true, sid, session, data);
    assert!(changed);

    let released = lock.release_all();
    assert_eq!(released.len(), 1);
    let (rel_sid, rel_session, rel_data) = released.into_iter().next().unwrap();
    assert_eq!(rel_sid, "0");
    assert_eq!(rel_session, session);
    assert_eq!(rel_data.get("0/0"), Some(true));

    let (state, effect) = service.session_step(session, state, released_frame(rel_data));
    assert!(matches!(state, SessionState::Done));
    assert!(matches!(effect, SessionEffect::Quiet));

    match service.shard("0") {
        Some(Shard::Unlocked(d)) => assert_eq!(d.get("0/0"), Some(true)),
        _ => panic!("the shard should be back at rest"),
    }
}

/// Two clients steal one shard: the data moves from A to B through the
/// server, with A's mutation kept.
#[test]
fn steal_passes_the_data_on() {
    let keys = key_pairs(&[("0", "0/0"), ("0", "0/1")]);
    let mut service = LockService::new(&keys, 0);
    let session_a = service.fresh_session();
    let session_b = service.fresh_session();
    let fs_a = FileSystem::new(String::new(), 1, 2);
    let mut lock_a = Lock::new(Some("A".to_string()), fs_a);

    // A acquires the shard and sets 0/0.
    let sid = match lock_a.lock("0/0") {
        LockStep::NeedAcquire(sid) => sid,
        LockStep::Done(_) => panic!("nothing is cached yet"),
    };
    let (state_a, effect) =
        service.session_step(session_a, SessionState::Start, acquire_frame(&sid));
    let data = sent_acquired(effect);
    assert!(lock_a.finish_acquire("0/0", true, sid, session_a, data));

    // B asks for the same shard: the swap sees A and B must wait for it.
    let (state_b, effect) =
        service.session_step(session_b, SessionState::Start, acquire_frame("0"));
    assert!(matches!(state_b, SessionState::Held { .. }));
    match (&state_b, effect) {
        (SessionState::Held { prev, .. }, SessionEffect::WaitPrev(p)) => {
            assert_eq!(*prev, session_a);
            assert_eq!(p, session_a);
        },
        _ => panic!("B should wait on A"),
    }

    // A is signalled and tells its client to release.
    let (state_a, effect) = service.session_step(session_a, state_a, SessionEvent::StealSignal);
    assert!(matches!(state_a, SessionState::AwaitRelease { .. }));
    assert_eq!(sent_release(effect), "0");

    // Only one session owns the shard at this point: A gave it up, B waits.
    assert!(matches!(state_a, SessionState::AwaitRelease { .. }));
    assert!(matches!(state_b, SessionState::Held { .. }));

    // A's watcher receives the Release frame and empties the cache slot.
    let frame = LockResponse { body: Some(LockResponseBody::Release("0".to_string())) };
    let stolen = shardik::handle_release_frame(Some(frame)).expect("a Release frame");
    assert_eq!(stolen, "0");
    let out = lock_a.watcher_release(&stolen).expect("the slot was populated");
    assert_eq!(out.get("0/0"), Some(true));
    assert_eq!(out.get("0/1"), Some(false));

    // A's Released flows through the server to B as its Acquired.
    let (state_a, effect) = service.session_step(session_a, state_a, released_frame(out));
    assert!(matches!(state_a, SessionState::Done));
    let handed = match effect {
        SessionEffect::Handoff(d) => d,
        _ => panic!("B swapped the slot, so the data goes to B"),
    };
    let (state_b, effect) =
        service.session_step(session_b, state_b, SessionEvent::PrevData(handed));
    assert!(matches!(state_b, SessionState::Owning { .. }));
    let data_b = sent_acquired(effect);
    assert_eq!(data_b.get("0/0"), Some(true));
    assert_eq!(data_b.get("0/1"), Some(false));
}

/// Three clients steal one shard in turn: the last owner sees the union of
/// both earlier mutations.
#[test]
fn chained_steal_accumulates_mutations() {
    let keys = key_pairs(&[("0", "0/0"), ("0", "0/1")]);
    let mut service = LockService::new(&keys, 0);
    let s_a = service.fresh_session();
    let s_b = service.fresh_session();
    let s_c = service.fresh_session();

    // A acquires and sets 0/0.
    let (st_a, effect) = service.session_step(s_a, SessionState::Start, acquire_frame("0"));
    let mut data = sent_acquired(effect);
    assert!(data.set("0/0", true));

    // B swaps in; A is told to release and hands the data over.
    let (st_b, _) = service.session_step(s_b, SessionState::Start, acquire_frame("0"));
    let (st_a, _) = service.session_step(s_a, st_a, SessionEvent::StealSignal);
    let (st_a, effect) = service.session_step(s_a, st_a, released_frame(data));
    assert!(matches!(st_a, SessionState::Done));
    let handed = match effect {
        SessionEffect::Handoff(d) => d,
        _ => panic!("B is waiting for the data"),
    };
    let (st_b, effect) = service.session_step(s_b, st_b, SessionEvent::PrevData(handed));
    let mut data = sent_acquired(effect);

    // B sets 0/1.
    assert!(data.set("0/1", true));

    // C swaps in; B hands the data over the same way.
    let (st_c, _) = service.session_step(s_c, SessionState::Start, acquire_frame("0"));
    let (st_b, _) = service.session_step(s_b, st_b, SessionEvent::StealSignal);
    let (st_b, effect) = service.session_step(s_b, st_b, released_frame(data));
    assert!(matches!(st_b, SessionState::Done));
    let handed = match effect {
        SessionEffect::Handoff(d) => d,
        _ => panic!("C is waiting for the data"),
    };
    let (st_c, effect) = service.session_step(s_c, st_c, SessionEvent::PrevData(handed));
    assert!(matches!(st_c, SessionState::Owning { .. }));
    let data = sent_acquired(effect);

    // C observes the union of A's and B's mutations.
    assert_eq!(data.get("0/0"), Some(true));
    assert_eq!(data.get("0/1"), Some(true));
}

/// After one acquisition, another lock on the same shard completes locally.
#[test]
fn local_fast_path_issues_no_acquire() {
    let keys = key_pairs(&[("5", "5/3"), ("5", "5/7")]);
    let mut service = LockService::new(&keys, 0);
    let session = service.fresh_session();
    let fs = FileSystem::new(String::new(), 32, 128);
    let mut lock = Lock::new(Some("A".to_string()), fs);

    let sid = match lock.lock("5/3") {
        LockStep::NeedAcquire(sid) => sid,
        LockStep::Done(_) => panic!("nothing is cached yet"),
    };
    assert_eq!(sid, "5");
    let (_state, effect) = service.session_step(session, SessionState::Start, acquire_frame(&sid));
    let data = sent_acquired(effect);
    assert!(lock.finish_acquire("5/3", true, sid, session, data));

    // The second lock in the same shard needs no further Acquire.
    match lock.lock("5/7") {
        LockStep::Done(changed) => assert!(changed),
        LockStep::NeedAcquire(_) => panic!("the shard is cached; no network is needed"),
    }
    assert_eq!(lock.dump_shards(), vec!["5".to_string()]);
}

/// An `Acquire` naming a shard outside the universe gets `NotFound`.
#[test]
fn unknown_shard_is_not_found() {
    let fs = FileSystem::new(String::new(), 32, 1);
    let keys = fs.keys();
    let mut service = LockService::new(&keys, 0);
    let session = service.fresh_session();
    let (state, effect) = service.session_step(session, SessionState::Start, acquire_frame("999"));
    assert!(matches!(state, SessionState::Failed));
    assert_eq!(fail_code(effect), Code::NotFound);
}

/// Unlocking twice: the second unlock finds the bit already clear and
/// reports the programming error instead of passing silently.
#[test]
fn double_unlock_fails() {
    let keys = key_pairs(&[("0", "0/0")]);
    let mut service = LockService::new(&keys, 0);
    let session = service.fresh_session();
    let fs = FileSystem::new(String::new(), 1, 1);
    let mut lock = Lock::new(None, fs);

    let sid = match lock.lock("0/0") {
        LockStep::NeedAcquire(sid) => sid,
        LockStep::Done(_) => panic!("nothing is cached yet"),
    };
    let (_state, effect) = service.session_step(session, SessionState::Start, acquire_frame(&sid));
    let data = sent_acquired(effect);
    assert!(lock.finish_acquire("0/0", true, sid, session, data));

    match lock.unlock("0/0") {
        Ok(LockStep::Done(changed)) => assert!(changed),
        _ => panic!("the first unlock succeeds"),
    }
    assert!(matches!(lock.unlock("0/0"), Err(UnlockError::NotHeld)));

    // The released data shows the bit back at its pre-lock value.
    let released = lock.release_all();
    assert_eq!(released.len(), 1);
    assert_eq!(released[0].2.get("0/0"), Some(false));
}

/// An empty stream, before any `Acquire`, is an invalid argument.
#[test]
fn empty_stream_is_invalid_argument() {
    let keys = key_pairs(&[("0", "0/0")]);
    let mut service = LockService::new(&keys, 0);
    let (state, effect) =
        service.session_step(0, SessionState::Start, SessionEvent::Frame(None));
    assert!(matches!(state, SessionState::Failed));
    assert_eq!(fail_code(effect), Code::InvalidArgument);
}

/// A first frame that is not an `Acquire` is a failed precondition.
#[test]
fn wrong_first_frame_is_failed_precondition() {
    let keys = key_pairs(&[("0", "0/0")]);
    let mut service = LockService::new(&keys, 0);
    let (state, effect) =
        service.session_step(0, SessionState::Start, released_frame(ShardData::new()));
    assert!(matches!(state, SessionState::Failed));
    assert_eq!(fail_code(effect), Code::FailedPrecondition);
}

/// The client disconnecting while it owes a `Released` is data loss.
#[test]
fn disconnect_while_owing_release_is_data_loss() {
    let keys = key_pairs(&[("0", "0/0")]);
    let mut service = LockService::new(&keys, 0);
    let session = service.fresh_session();
    let (state, _) = service.session_step(session, SessionState::Start, acquire_frame("0"));
    let (state, effect) = service.session_step(session, state, SessionEvent::Frame(None));
    assert!(matches!(state, SessionState::Failed));
    assert_eq!(fail_code(effect), Code::DataLoss);
}

/// A stealer whose predecessor died without releasing fails with data loss.
#[test]
fn dead_predecessor_is_data_loss() {
    let keys = key_pairs(&[("0", "0/0")]);
    let mut service = LockService::new(&keys, 0);
    let s_a = service.fresh_session();
    let s_b = service.fresh_session();
    let (_st_a, _) = service.session_step(s_a, SessionState::Start, acquire_frame("0"));
    let (st_b, _) = service.session_step(s_b, SessionState::Start, acquire_frame("0"));
    let (st_b, effect) = service.session_step(s_b, st_b, SessionEvent::PrevGone);
    assert!(matches!(st_b, SessionState::Failed));
    assert_eq!(fail_code(effect), Code::DataLoss);
}

/// After `Released`, a clean close ends the session; any further frame is
/// a protocol error.
#[test]
fn frames_after_released_are_rejected() {
    let keys = key_pairs(&[("0", "0/0")]);
    let mut service = LockService::new(&keys, 0);
    let session = service.fresh_session();
    let (state, effect) = service.session_step(session, SessionState::Start, acquire_frame("0"));
    let data = sent_acquired(effect);
    let (state, _) = service.session_step(session, state, released_frame(data));
    assert!(matches!(state, SessionState::Done));

    // A clean end of stream is fine.
    let (state, effect) = service.session_step(session, state, SessionEvent::Frame(None));
    assert!(matches!(state, SessionState::Done));
    assert!(matches!(effect, SessionEffect::Quiet));

    // One more frame is not.
    let (state, effect) = service.session_step(session, state, acquire_frame("0"));
    assert!(matches!(state, SessionState::Failed));
    assert_eq!(fail_code(effect), Code::FailedPrecondition);
}

/// With an empty key universe every `Acquire` is `NotFound`.
#[test]
fn empty_universe_has_no_shards() {
    let keys: Vec<(String, String)> = Vec::new();
    let mut service = LockService::new(&keys, 0);
    let (state, effect) = service.session_step(0, SessionState::Start, acquire_frame("0"));
    assert!(matches!(state, SessionState::Failed));
    assert_eq!(fail_code(effect), Code::NotFound);
}

/// At every instant of a session's life there is exactly one copy of the
/// shard's data: in the registry slot while at rest, in the one frame or
/// cache entry that holds it afterwards, and back in the slot at the end.
#[test]
fn single_copy_moves_through_the_protocol() {
    let keys = key_pairs(&[("0", "0/0")]);
    let mut service = LockService::new(&keys, 0);
    let session = service.fresh_session();
    let fs = FileSystem::new(String::new(), 1, 1);
    let mut lock = Lock::new(None, fs);

    // At rest: the copy is in the slot, nowhere else.
    assert!(matches!(service.shard("0"), Some(Shard::Unlocked(_))));
    assert!(lock.dump_shards().is_empty());

    // Granted: the slot is locked; the one copy is the frame in flight.
    let (state, effect) = service.session_step(session, SessionState::Start, acquire_frame("0"));
    assert!(matches!(service.shard("0"), Some(Shard::Locked(_))));
    let data = sent_acquired(effect);
    assert!(lock.dump_shards().is_empty());

    // Cached: the one copy is the cache entry.
    lock.finish_acquire("0/0", true, "0".to_string(), session, data);
    assert!(matches!(service.shard("0"), Some(Shard::Locked(_))));
    assert_eq!(lock.dump_shards(), vec!["0".to_string()]);

    // Released: the cache is empty again; the copy rides the frame.
    let released = lock.release_all();
    assert!(lock.dump_shards().is_empty());
    assert_eq!(released.len(), 1);

    // Settled: the copy is back in the slot.
    let (state, _) = service.session_step(
        session,
        state,
        released_frame(released.into_iter().next().unwrap().2),
    );
    assert!(matches!(state, SessionState::Done));
    assert!(matches!(service.shard("0"), Some(Shard::Unlocked(_))));
}

/// Concurrent stealers serialize: each later session waits on exactly the
/// session that swapped just before it.
#[test]
fn stealers_form_a_chain() {
    let keys = key_pairs(&[("0", "0/0")]);
    let mut service = LockService::new(&keys, 0);
    let s1 = service.fresh_session();
    let s2 = service.fresh_session();
    let s3 = service.fresh_session();
    let (st1, _) = service.session_step(s1, SessionState::Start, acquire_frame("0"));
    assert!(matches!(st1, SessionState::Owning { .. }));
    let (st2, _) = service.session_step(s2, SessionState::Start, acquire_frame("0"));
    match st2 {
        SessionState::Held { prev, .. } => assert_eq!(prev, s1),
        _ => panic!("the second session waits on the first"),
    }
    let (st3, _) = service.session_step(s3, SessionState::Start, acquire_frame("0"));
    match st3 {
        SessionState::Held { prev, .. } => assert_eq!(prev, s2),
        _ => panic!("the third session waits on the second"),
    }
    match service.shard("0") {
        Some(Shard::Locked(holder)) => assert_eq!(*holder, s3),
        _ => panic!("the newest stealer holds the slot"),
    }
}
