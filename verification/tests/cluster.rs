use tikv_parity::cluster::{
    are_cross_region, bytes_to_hex, encode_key, hex_to_bytes, locate, region_pair, separation,
    RegionInfo, Separation,
};

#[test]
fn encodes_a_full_group_with_a_trailing_pad_group() {
    assert_eq!(
        encode_key(b"gate/d6/"),
        [b"gate/d6/".as_slice(), &[0xFF], &[0u8; 8], &[0xF7]].concat()
    );
}

#[test]
fn encodes_a_short_key_with_the_pad_marker() {
    assert_eq!(
        encode_key(b"r\0\0\0"),
        vec![b'r', 0, 0, 0, 0, 0, 0, 0, 0xFB]
    );
}

#[test]
fn encoding_preserves_order() {
    let mut raw: Vec<&[u8]> = vec![b"a", b"ab", b"b", b"gate/d6/", b"gate/d6/z", b""];
    raw.sort();
    let mut encoded: Vec<Vec<u8>> = raw.iter().map(|k| encode_key(k)).collect();
    let expected = encoded.clone();
    encoded.sort();
    assert_eq!(
        encoded, expected,
        "memcomparable encoding must be order-preserving"
    );
}

/// A snapshot split at `mid`: [.., mid) and [mid, ..).
fn snapshot(mid: &[u8]) -> Vec<RegionInfo> {
    let bound = encode_key(mid);
    vec![
        RegionInfo {
            id: 1,
            start: Vec::new(), // unbounded left
            end: bound.clone(),
        },
        RegionInfo {
            id: 2,
            start: bound,
            end: Vec::new(), // unbounded right
        },
    ]
}

#[test]
fn locate_respects_region_bounds() {
    let snap = snapshot(b"m");
    assert_eq!(locate(&snap, b"a").map(|r| r.id), Some(1));
    assert_eq!(locate(&snap, b"m").map(|r| r.id), Some(2));
    assert_eq!(locate(&snap, b"z").map(|r| r.id), Some(2));
}

#[test]
fn locate_handles_unbounded_ends() {
    let snap = snapshot(b"m");
    assert_eq!(locate(&snap, b"").map(|r| r.id), Some(1));
    assert_eq!(locate(&snap, &[0xFF; 64]).map(|r| r.id), Some(2));
}

#[test]
fn locate_separates_keys_that_straddle_a_boundary() {
    let snap = snapshot(b"m");
    let lo = locate(&snap, b"a-primary").map(|r| r.id);
    let hi = locate(&snap, b"z-secondary").map(|r| r.id);
    assert_ne!(lo, hi, "keys either side of the split must be cross-region");
}

#[test]
fn order_survives_around_the_group_size() {
    let mut raw: Vec<Vec<u8>> = vec![];
    for len in 0..18 {
        for fill in [0u8, 1, 0xfe, 0xff] {
            raw.push(vec![fill; len]);
            let mut odd = vec![fill; len];
            odd.push(7);
            raw.push(odd);
        }
    }
    for a in &raw {
        for b in &raw {
            assert_eq!(a < b, encode_key(a) < encode_key(b), "{a:?} {b:?}");
            assert_eq!(a == b, encode_key(a) == encode_key(b), "{a:?} {b:?}");
        }
    }
    assert_eq!(encode_key(b"gate/d6/17838806").len(), 27);
}

#[test]
fn two_keys_are_judged_in_one_view() {
    let snap = snapshot(b"m");
    assert_eq!(region_pair(&snap, b"a", b"z"), (Some(1), Some(2)));
    assert!(are_cross_region(&snap, b"a", b"m"));
    assert!(!are_cross_region(&snap, b"n", b"m"));
    assert!(!are_cross_region(&snap[..1], b"a", b"m"));
    assert_eq!(region_pair(&snap[..1], b"a", b"m"), (Some(1), None));
    assert_eq!(separation(&snap, b"a", b"m"), Separation::Met(1, 2));
    assert_eq!(separation(&snap, b"a", b"b"), Separation::Split(1));
    assert_eq!(separation(&snap[..1], b"a", b"m"), Separation::Split(1));
    assert_eq!(separation(&snap[..1], b"m", b"a"), Separation::Unknown);
}

#[test]
fn of_overlapping_regions_the_first_is_taken() {
    let whole = |id| RegionInfo { id, start: vec![], end: vec![] };
    assert_eq!(locate(&[whole(5), whole(6)], b"k").map(|r| r.id), Some(5));
    assert!(locate(&[], b"k").is_none());
}

#[test]
fn hex_spells_bytes() {
    assert_eq!(bytes_to_hex(&[0x00, 0x7f, 0xab]), "007fab");
    assert_eq!(hex_to_bytes("007FaB").unwrap(), vec![0x00, 0x7f, 0xab]);
    assert_eq!(hex_to_bytes("+f").unwrap(), vec![15]);
    assert_eq!(hex_to_bytes("").unwrap(), Vec::<u8>::new());
    assert_eq!(hex_to_bytes("abc"), None);
    assert_eq!(hex_to_bytes("zz"), None);
    assert_eq!(hex_to_bytes("éé"), None);
    let all: Vec<u8> = (0..=255).collect();
    assert_eq!(hex_to_bytes(&bytes_to_hex(&all)).unwrap(), all);
    for b in 0..=255u8 {
        assert_eq!(bytes_to_hex(&[b]), format!("{b:02x}"));
    }
}
