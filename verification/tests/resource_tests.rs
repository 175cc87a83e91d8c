use shardik::{format_key, parse_dec, parse_key, perturb, u32_to_string, FileSystem, Resource};

#[test]
fn decimal_formatting_is_exact() {
    assert_eq!(u32_to_string(0), "0");
    assert_eq!(u32_to_string(7), "7");
    assert_eq!(u32_to_string(10), "10");
    assert_eq!(u32_to_string(321), "321");
    assert_eq!(u32_to_string(u32::MAX), "4294967295");
}

#[test]
fn decimal_parsing_is_exact() {
    assert_eq!(parse_dec("0"), Some(0));
    assert_eq!(parse_dec("321"), Some(321));
    assert_eq!(parse_dec("4294967295"), Some(u32::MAX));
    assert_eq!(parse_dec("4294967296"), None);
    assert_eq!(parse_dec(""), None);
    assert_eq!(parse_dec("12a"), None);
    assert_eq!(parse_dec("-1"), None);
}

#[test]
fn keys_round_trip() {
    assert_eq!(format_key(5, 7), "5/7");
    assert_eq!(format_key(0, 0), "0/0");
    assert_eq!(parse_key("5/7"), (5, 7));
    assert_eq!(parse_key("31/127"), (31, 127));
    assert_eq!(parse_key(&format_key(12, 34)), (12, 34));
}

#[test]
fn shard_id_is_the_prefix() {
    let fs = FileSystem::new(String::new(), 32, 128);
    assert_eq!(fs.get_shard_id("5/3"), "5");
    assert_eq!(fs.get_shard_id("31/127"), "31");
    assert_eq!(fs.get_shard_id("noslash"), "noslash");
}

#[test]
fn keys_enumerates_every_shard_and_item() {
    let fs = FileSystem::new(String::new(), 2, 3);
    let keys = fs.keys();
    assert_eq!(keys.len(), 6);
    assert_eq!(keys[0], ("0".to_string(), "0/0".to_string()));
    assert_eq!(keys[1], ("0".to_string(), "0/1".to_string()));
    assert_eq!(keys[2], ("0".to_string(), "0/2".to_string()));
    assert_eq!(keys[3], ("1".to_string(), "1/0".to_string()));
    assert_eq!(keys[4], ("1".to_string(), "1/1".to_string()));
    assert_eq!(keys[5], ("1".to_string(), "1/2".to_string()));
}

#[test]
fn keys_of_empty_universe() {
    let fs = FileSystem::new(String::new(), 0, 128);
    assert_eq!(fs.keys().len(), 0);
}

#[test]
fn perturb_steps_and_wraps() {
    assert_eq!(perturb(0, 0, false, 32), 1);
    assert_eq!(perturb(31, 0, false, 32), 0);
    assert_eq!(perturb(0, 0, true, 32), 31);
    assert_eq!(perturb(5, 70, false, 32), (5 + 71) % 32);
    assert_eq!(perturb(0, 0, false, 1), 0);
    assert_eq!(perturb(0, u64::MAX, false, 7), ((1u128 + u64::MAX as u128) % 7) as u32);
}

#[test]
fn perturb_key_moves_item_and_optionally_shard() {
    let fs = FileSystem::new(String::new(), 32, 128);
    assert_eq!(fs.perturb_key("5/3", 2, false, false, 0, false), "5/6");
    assert_eq!(fs.perturb_key("5/3", 2, true, false, 0, false), "5/0");
    assert_eq!(fs.perturb_key("5/0", 0, true, false, 0, false), "5/127");
    assert_eq!(fs.perturb_key("5/3", 0, false, true, 1, false), "7/4");
    assert_eq!(fs.perturb_key("0/0", 0, false, true, 0, true), "31/1");
}
