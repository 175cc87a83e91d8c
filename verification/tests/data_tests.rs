use shardik::ShardData;

fn table(pairs: &[(&str, bool)]) -> ShardData {
    let vec: Vec<(String, bool)> = pairs.iter().map(|(k, v)| (k.to_string(), *v)).collect();
    ShardData::from_pairs(vec).expect("no duplicate keys")
}

#[test]
fn empty_table_has_no_keys() {
    let d = ShardData::new();
    assert_eq!(d.get("0/0"), None);
    assert!(!d.contains_key("anything"));
    assert_eq!(d.to_pairs().len(), 0);
}

#[test]
fn push_key_starts_unheld() {
    let mut d = ShardData::new();
    d.push_key("0/0".to_string());
    d.push_key("0/1".to_string());
    assert_eq!(d.get("0/0"), Some(false));
    assert_eq!(d.get("0/1"), Some(false));
    assert_eq!(d.get("0/2"), None);
}

#[test]
fn set_reports_change() {
    let mut d = table(&[("0/0", false), ("0/1", false)]);
    assert!(d.set("0/0", true));
    assert!(!d.set("0/0", true));
    assert_eq!(d.get("0/0"), Some(true));
    assert_eq!(d.get("0/1"), Some(false));
    assert!(d.set("0/0", false));
    assert!(!d.set("0/0", false));
    assert_eq!(d.get("0/0"), Some(false));
}

#[test]
fn from_pairs_keeps_values() {
    let d = table(&[("a", true), ("b", false), ("c", true)]);
    assert_eq!(d.get("a"), Some(true));
    assert_eq!(d.get("b"), Some(false));
    assert_eq!(d.get("c"), Some(true));
    assert_eq!(d.get("d"), None);
}

#[test]
fn from_pairs_rejects_duplicates() {
    let pairs = vec![("a".to_string(), true), ("a".to_string(), false)];
    assert!(ShardData::from_pairs(pairs).is_none());
}

#[test]
fn to_pairs_round_trips() {
    let d = table(&[("x", true), ("y", false)]);
    let pairs = d.to_pairs();
    assert_eq!(pairs.len(), 2);
    assert_eq!(pairs[0].0, "x");
    assert!(pairs[0].1);
    assert_eq!(pairs[1].0, "y");
    assert!(!pairs[1].1);
    let back = ShardData::from_pairs(pairs).expect("round trip");
    assert_eq!(back.get("x"), Some(true));
    assert_eq!(back.get("y"), Some(false));
}

#[test]
fn key_list_names_every_key() {
    let d = table(&[("x", true), ("y", false)]);
    let keys = d.key_list();
    assert_eq!(keys, vec!["x".to_string(), "y".to_string()]);
}
