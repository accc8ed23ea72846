use tikv_parity::json::{object_of, Json};
use tikv_parity::order::{bytes_less, bytes_same, sort_texts, text_less, text_same};
use tikv_parity::sorted::SortedMap;
use tikv_parity::text::{
    contains_text, decimal_text, join, replace_bytes, replace_text, split_text,
};

fn own(items: &[&str]) -> Vec<String> {
    items.iter().map(|s| (*s).to_owned()).collect()
}

#[test]
fn decimals_match_the_standard_ones() {
    for n in [0u128, 7, 10, 99, 100, 12345678901234567890, u128::MAX] {
        assert_eq!(decimal_text(n), n.to_string());
    }
}

#[test]
fn replacing_reads_from_the_left_without_overlap() {
    for (s, needle, with) in [
        ("aaa", "aa", "b"),
        ("abcabc", "bc", ""),
        ("abc", "abcd", "x"),
        ("", "a", "b"),
        ("{P}{P}", "{P}", "run/"),
        ("naïve", "ï", "i"),
    ] {
        assert_eq!(replace_text(s, needle, with), s.replace(needle, with));
        assert_eq!(
            replace_bytes(s.as_bytes(), needle.as_bytes(), with.as_bytes()),
            s.replace(needle, with).into_bytes()
        );
        assert_eq!(contains_text(s, needle), s.contains(needle));
    }
    assert_eq!(replace_bytes(b"abc", b"", b"x"), b"abc".to_vec());
}

#[test]
fn joining_and_splitting() {
    assert_eq!(join(&own(&["a", "b", "c"]), ", "), "a, b, c");
    assert_eq!(join(&own(&["a"]), ", "), "a");
    assert_eq!(join(&vec![], ", "), "");
    for s in ["", ",", "a", "a,b", ",a,,b,"] {
        let parts: Vec<String> = s.split(',').map(str::to_owned).collect();
        assert_eq!(split_text(s, ','), parts);
    }
}

#[test]
fn text_sorts_by_its_bytes() {
    let words = own(&["b", "", "é", "a", "ab", "Z", "a", "𝄞", "\u{ffff}"]);
    let mut expected = words.clone();
    expected.sort();
    assert_eq!(sort_texts(words.clone()), expected);
    for a in &words {
        for b in &words {
            assert_eq!(text_less(a, b), a < b);
            assert_eq!(text_same(a, b), a == b);
            assert_eq!(bytes_less(a.as_bytes(), b.as_bytes()), a.as_bytes() < b.as_bytes());
            assert_eq!(bytes_same(a.as_bytes(), b.as_bytes()), a == b);
        }
    }
}

#[test]
fn a_sorted_map_is_read_in_order() {
    let mut m: SortedMap<u8> = SortedMap::new();
    for (k, v) in [("b", 1), ("a", 2), ("c", 3), ("b", 4)] {
        m.insert(k.to_owned(), v);
    }
    let read: Vec<(&str, u8)> = (0..m.len()).map(|i| (m.key_at(i), *m.value_at(i))).collect();
    assert_eq!(read, vec![("a", 2), ("b", 4), ("c", 3)]);
    assert_eq!(m.get("b"), Some(&4));
    assert_eq!(m.get("z"), None);
    m.remove("b");
    m.remove("z");
    assert_eq!(m.len(), 2);
    assert_eq!(m.get("b"), None);
    assert_eq!(m.get("c"), Some(&3));
}

#[test]
fn members_of_json_values() {
    let v = Json::Object(vec![
        ("a".to_owned(), Json::Number("1".to_owned())),
        ("a".to_owned(), Json::Str("x".to_owned())),
    ]);
    assert_eq!(v.get("a").unwrap().as_str(), Some("x"));
    assert!(v.get("b").is_none());
    assert!(Json::Array(vec![v.clone()]).get("a").is_none());
    assert_eq!(v.clone(), v);
    assert_eq!(
        object_of("k", Json::Null),
        Json::Object(vec![("k".to_owned(), Json::Null)])
    );
    assert_eq!(Json::Null.as_str(), None);
}
