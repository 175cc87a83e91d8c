use shardik::{
    handle_close_frame, handle_release_frame, CacheMap, ClientError, FileSystem, Lock,
    LockResponse, LockResponseBody, LockStep, ShardData,
};

fn shard_data(pairs: &[(&str, bool)]) -> ShardData {
    let vec: Vec<(String, bool)> = pairs.iter().map(|(k, v)| (k.to_string(), *v)).collect();
    ShardData::from_pairs(vec).expect("no duplicate keys")
}

fn cached_lock() -> Lock<FileSystem> {
    let fs = FileSystem::new(String::new(), 32, 128);
    let mut lock = Lock::new(Some("A".to_string()), fs);
    let data = shard_data(&[("5/3", false), ("5/7", false)]);
    lock.finish_acquire("5/3", true, "5".to_string(), 1, data);
    lock
}

#[test]
fn cache_map_starts_empty() {
    let _cache = CacheMap::new();
}

#[test]
fn lock_miss_names_the_shard() {
    let fs = FileSystem::new(String::new(), 32, 128);
    let mut lock = Lock::new(None, fs);
    match lock.lock("5/3") {
        LockStep::NeedAcquire(sid) => assert_eq!(sid, "5"),
        LockStep::Done(_) => panic!("nothing is cached yet"),
    }
    assert!(lock.dump_shards().is_empty());
}

#[test]
fn lock_twice_reports_no_change() {
    let mut lock = cached_lock();
    match lock.lock("5/3") {
        LockStep::Done(changed) => assert!(!changed),
        LockStep::NeedAcquire(_) => panic!("the shard is cached"),
    }
}

#[test]
fn lock_on_stolen_entry_goes_back_to_the_server() {
    let mut lock = cached_lock();
    let stolen = lock.watcher_release("5").expect("the slot was populated");
    assert_eq!(stolen.get("5/3"), Some(true));
    match lock.lock("5/7") {
        LockStep::NeedAcquire(sid) => assert_eq!(sid, "5"),
        LockStep::Done(_) => panic!("the entry was stolen"),
    }
}

#[test]
fn watcher_release_is_idempotent() {
    let mut lock = cached_lock();
    assert!(lock.watcher_release("5").is_some());
    assert!(lock.watcher_release("5").is_none());
    assert!(lock.watcher_release("7").is_none());
}

#[test]
fn release_all_drains_populated_entries() {
    let mut lock = cached_lock();
    let data9 = shard_data(&[("9/0", false)]);
    lock.finish_acquire("9/0", true, "9".to_string(), 2, data9);

    let mut released = lock.release_all();
    released.sort_by(|a, b| a.0.cmp(&b.0));
    assert_eq!(released.len(), 2);
    assert_eq!(released[0].0, "5");
    assert_eq!(released[0].1, 1);
    assert_eq!(released[0].2.get("5/3"), Some(true));
    assert_eq!(released[1].0, "9");
    assert_eq!(released[1].1, 2);
    assert_eq!(released[1].2.get("9/0"), Some(true));
}

#[test]
fn release_all_twice_is_the_same_as_once() {
    let mut lock = cached_lock();
    assert_eq!(lock.release_all().len(), 1);
    assert_eq!(lock.release_all().len(), 0);
    assert_eq!(lock.release_all().len(), 0);
}

#[test]
fn release_all_skips_entries_already_emptied() {
    let mut lock = cached_lock();
    let data9 = shard_data(&[("9/0", false)]);
    lock.finish_acquire("9/0", true, "9".to_string(), 2, data9);
    lock.watcher_release("5").expect("the slot was populated");
    let released = lock.release_all();
    assert_eq!(released.len(), 1);
    assert_eq!(released[0].0, "9");
}

#[test]
fn dump_shards_lists_only_populated_entries() {
    let mut lock = cached_lock();
    let data9 = shard_data(&[("9/0", false)]);
    lock.finish_acquire("9/0", false, "9".to_string(), 2, data9);
    let mut shards = lock.dump_shards();
    shards.sort();
    assert_eq!(shards, vec!["5".to_string(), "9".to_string()]);
    lock.watcher_release("5");
    assert_eq!(lock.dump_shards(), vec!["9".to_string()]);
}

#[test]
fn client_name_is_kept() {
    let fs = FileSystem::new(String::new(), 1, 1);
    let lock = Lock::new(Some("client-7".to_string()), fs);
    assert_eq!(lock.client_name().as_deref(), Some("client-7"));
}

#[test]
fn watcher_frame_handling() {
    let release = LockResponse { body: Some(LockResponseBody::Release("0".to_string())) };
    assert_eq!(handle_release_frame(Some(release)), Ok("0".to_string()));

    assert_eq!(
        handle_release_frame(None),
        Err(ClientError::LockNotReleased),
    );

    let wrong = LockResponse { body: Some(LockResponseBody::Acquired(ShardData::new())) };
    assert_eq!(handle_release_frame(Some(wrong)), Err(ClientError::ExpectedRelease));

    assert_eq!(handle_close_frame(None), Ok(()));
    let extra = LockResponse { body: None };
    assert_eq!(handle_close_frame(Some(extra)), Err(ClientError::ConnectionClosed));
}
