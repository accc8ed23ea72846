use tikv_parity::cluster::{bytes_to_hex, encode_key, separation, Separation};
use tikv_parity::json::{object_of, Json};
use tikv_parity::placement::{region_count, regions, split_request, stores_up};

fn text(s: &str) -> Json {
    Json::Str(s.to_owned())
}

fn number(n: u64) -> Json {
    Json::Number(n.to_string())
}

fn object(members: Vec<(&str, Json)>) -> Json {
    Json::Object(members.into_iter().map(|(k, v)| (k.to_owned(), v)).collect())
}

fn region(id: u64, start: &str, end: &str) -> Json {
    object(vec![
        ("id", number(id)),
        ("start_key", text(start)),
        ("end_key", text(end)),
    ])
}

#[test]
fn a_report_of_regions_is_read_in_order() {
    let cut = bytes_to_hex(&encode_key(b"m"));
    let report = object(vec![
        ("count", number(2)),
        ("regions", Json::Array(vec![region(7, "", &cut), region(9, &cut, "")])),
    ]);
    assert_eq!(region_count(&report), Some(2));
    let read = regions(&report).unwrap();
    assert_eq!(read.len(), 2);
    assert_eq!(read[0].id, 7);
    assert_eq!(read[0].start, Vec::<u8>::new());
    assert_eq!(read[0].end, encode_key(b"m"));
    assert_eq!(read[1].id, 9);
    assert_eq!(read[1].start, encode_key(b"m"));
    assert_eq!(separation(&read, b"a", b"z"), Separation::Met(7, 9));
    assert_eq!(separation(&read, b"a", b"b"), Separation::Split(7));
}

#[test]
fn what_an_entry_leaves_out_is_no_bound_and_no_id() {
    let report = object_of("regions", Json::Array(vec![Json::Object(vec![]), Json::Null]));
    let read = regions(&report).unwrap();
    assert_eq!(read.len(), 2);
    assert_eq!(read[0].id, 0);
    assert!(read[0].start.is_empty() && read[0].end.is_empty());
    assert_eq!(read[1].id, 0);
}

#[test]
fn a_report_that_cannot_be_read_gives_nothing() {
    assert!(regions(&Json::Null).is_none());
    assert!(regions(&object_of("regions", number(1))).is_none());
    let odd = object_of("regions", Json::Array(vec![region(1, "abc", "")]));
    assert!(regions(&odd).is_none());
    let strange = object_of("regions", Json::Array(vec![region(1, "", "zz")]));
    assert!(regions(&strange).is_none());
    assert_eq!(region_count(&object_of("count", text("2"))), None);
}

#[test]
fn only_the_stores_that_are_up_are_listed() {
    let store = |id: u64, state: &str| {
        object_of(
            "store",
            object(vec![("id", number(id)), ("state_name", text(state))]),
        )
    };
    let nameless = object_of("store", object_of("state_name", text("Up")));
    let report = object_of(
        "stores",
        Json::Array(vec![store(1, "Up"), store(4, "Down"), nameless, store(5, "Up")]),
    );
    assert_eq!(stores_up(&report), vec![1, 5]);
    assert!(stores_up(&Json::Null).is_empty());
}

#[test]
fn a_split_names_the_encoded_key() {
    let request = split_request(12, b"r\0\0\0");
    assert_eq!(request.get("name").unwrap().as_str(), Some("split-region"));
    assert_eq!(request.get("region_id").unwrap().as_u64(), Some(12));
    assert_eq!(request.get("policy").unwrap().as_str(), Some("usekey"));
    assert_eq!(
        request.get("keys"),
        Some(&Json::Array(vec![text("7200000000000000fb")]))
    );
}
