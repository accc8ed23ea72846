use tikv_parity::dispatch::LockInfo;
use tikv_parity::harness::{
    deterministic_bytes, key, locks_on, pd_addrs, point_range, prefix_at, prefix_since, unique,
    unique_at, unique_prefix, unique_since,
};

#[test]
fn the_cluster_is_a_comma_separated_list() {
    assert_eq!(pd_addrs(None), vec!["127.0.0.1:2379".to_owned()]);
    assert_eq!(
        pd_addrs(Some("a:1,b:2,".to_owned())),
        vec!["a:1".to_owned(), "b:2".to_owned(), String::new()]
    );
    assert_eq!(pd_addrs(Some(String::new())), vec![String::new()]);
}

#[test]
fn a_key_is_its_prefix_and_suffix() {
    assert_eq!(key(b"gate/", "é"), "gate/é".as_bytes().to_vec());
    assert_eq!(key(b"\xff", ""), vec![0xff]);
}

#[test]
fn prefixes_are_unique_to_the_nanosecond() {
    assert_eq!(prefix_at("d6", 1234567890), b"gate/d6/1234567890/".to_vec());
    let a = prefix_at("t", 1);
    let b = prefix_at("t", 11);
    assert!(!a.starts_with(&b) && !b.starts_with(&a));
    assert_eq!(unique_at(5, "k"), b"repro/5/k".to_vec());
}

#[test]
fn there_is_a_key_exactly_where_the_clock_can_be_read() {
    assert_eq!(prefix_since("t", Some(7)), Some(b"gate/t/7/".to_vec()));
    assert_eq!(prefix_since("t", None), None);
    assert_eq!(unique_since(Some(7), "k"), Some(b"repro/7/k".to_vec()));
    assert_eq!(unique_since(None, "k"), None);
}

#[test]
fn the_clock_goes_into_a_prefix() {
    let before = std::time::SystemTime::now()
        .duration_since(std::time::UNIX_EPOCH)
        .unwrap()
        .as_nanos();
    let prefix = String::from_utf8(unique_prefix("t").unwrap()).unwrap();
    let nanos: u128 = prefix
        .strip_prefix("gate/t/")
        .and_then(|p| p.strip_suffix('/'))
        .unwrap()
        .parse()
        .unwrap();
    assert!(nanos >= before);
    let repro = String::from_utf8(unique("s").unwrap()).unwrap();
    let nanos: u128 = repro
        .strip_prefix("repro/")
        .and_then(|p| p.strip_suffix("/s"))
        .unwrap()
        .parse()
        .unwrap();
    assert!(nanos >= before);
}

/// The generator, written down independently.
fn xorshift(seed: u64, len: usize) -> Vec<u8> {
    let mut state = seed.max(1);
    let mut out = Vec::new();
    while out.len() < len {
        state ^= state >> 12;
        state ^= state << 25;
        state ^= state >> 27;
        out.extend_from_slice(&state.wrapping_mul(0x2545_F491_4F6C_DD1D).to_le_bytes());
    }
    out.truncate(len);
    out
}

#[test]
fn bytes_from_a_seed_are_reproducible() {
    for seed in [0, 1, 2, 0xdead_beef, u64::MAX] {
        for len in [0, 1, 7, 8, 9, 64, 100] {
            assert_eq!(deterministic_bytes(seed, len), xorshift(seed, len));
        }
    }
    assert_eq!(deterministic_bytes(0, 16), deterministic_bytes(1, 16));
    assert_ne!(deterministic_bytes(1, 16), deterministic_bytes(2, 16));
    assert_eq!(
        deterministic_bytes(1, 8),
        0x47e4_ce4b_896c_dd1du64.to_le_bytes().to_vec()
    );
}

fn lock(key: &[u8]) -> LockInfo {
    LockInfo { key: key.to_vec(), primary: vec![], op: 0, ttl_ms: 0, txn_start_ts: 0 }
}

#[test]
fn locks_are_counted_on_exactly_one_key() {
    assert_eq!(point_range(b"k"), (b"k".to_vec(), b"k\0".to_vec()));
    let locks = vec![lock(b"k"), lock(b"kk"), lock(b"k"), lock(b"j")];
    assert_eq!(locks_on(&locks, b"k"), 2);
    assert_eq!(locks_on(&locks, b"x"), 0);
}
