use miniredis::store::Keyspace;

fn b(s: &str) -> Vec<u8> {
    s.as_bytes().to_vec()
}

#[test]
fn set_then_get_returns_value() {
    let mut ks = Keyspace::new();
    ks.set(&b("k"), b("v"), None);
    assert_eq!(ks.get(&b("k"), 100), Some(b("v")));
}

#[test]
fn get_missing_key_is_none() {
    let mut ks = Keyspace::new();
    assert_eq!(ks.get(&b("nope"), 100), None);
}

#[test]
fn overwrite_replaces_value() {
    let mut ks = Keyspace::new();
    ks.set(&b("k"), b("v1"), None);
    ks.set(&b("k"), b("v2"), None);
    assert_eq!(ks.get(&b("k"), 100), Some(b("v2")));
}

#[test]
fn expired_key_reads_as_absent_and_is_deleted() {
    let mut ks = Keyspace::new();
    ks.set(&b("k"), b("v"), Some(50));
    assert_eq!(ks.get(&b("k"), 100), None);
    // Gone from the key listing too: deleted, not just hidden.
    assert_eq!(ks.keys().len(), 0);
}

#[test]
fn future_expiry_still_reads() {
    let mut ks = Keyspace::new();
    ks.set(&b("k"), b("v"), Some(200));
    assert_eq!(ks.get(&b("k"), 100), Some(b("v")));
}

#[test]
fn expiry_at_exact_instant_is_not_yet_expired() {
    let mut ks = Keyspace::new();
    ks.set(&b("k"), b("v"), Some(100));
    assert_eq!(ks.get(&b("k"), 100), Some(b("v")));
}

#[test]
fn set_without_expiry_keeps_old_expiry() {
    // A write without PX leaves a previously set expiry in place.
    let mut ks = Keyspace::new();
    ks.set(&b("k"), b("v1"), Some(150));
    ks.set(&b("k"), b("v2"), None);
    assert_eq!(ks.get(&b("k"), 100), Some(b("v2")));
    // After the old expiry passes, the fresh value dies with it.
    assert_eq!(ks.get(&b("k"), 200), None);
}

#[test]
fn set_with_expiry_overwrites_old_expiry() {
    let mut ks = Keyspace::new();
    ks.set(&b("k"), b("v1"), Some(150));
    ks.set(&b("k"), b("v2"), Some(300));
    assert_eq!(ks.get(&b("k"), 200), Some(b("v2")));
}

#[test]
fn keys_lists_each_key_once() {
    let mut ks = Keyspace::new();
    ks.set(&b("a"), b("1"), None);
    ks.set(&b("b"), b("2"), None);
    ks.set(&b("a"), b("3"), None);
    let mut keys = ks.keys();
    keys.sort();
    assert_eq!(keys, vec![b("a"), b("b")]);
}

#[test]
fn lookup_reads_without_expiring() {
    let mut ks = Keyspace::new();
    ks.set(&b("dir"), b("/tmp"), None);
    assert_eq!(ks.lookup(&b("dir")), Some(b("/tmp")));
    assert_eq!(ks.lookup(&b("other")), None);
}
