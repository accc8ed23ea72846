use tikv_parity::base64::{b64_decode, b64_encode, is_well_spelled};
use tikv_parity::class::Class;
use tikv_parity::json::{object_of, Json};
use tikv_parity::observation::{Bytes, LockObs, NativeObs, Observation};

#[test]
fn base64_round_trips_arbitrary_bytes() {
    for case in [
        vec![],
        vec![0x00],
        vec![0xff, 0xfe],
        vec![1, 2, 3],
        vec![0xde, 0xad, 0xbe, 0xef],
        (0u8..=255).collect::<Vec<_>>(),
    ] {
        let enc = b64_encode(&case);
        assert_eq!(b64_decode(&enc).unwrap(), case, "{enc}");
    }
}

#[test]
fn base64_spells_the_known_vectors() {
    assert_eq!(b64_encode(b""), "");
    assert_eq!(b64_encode(b"f"), "Zg==");
    assert_eq!(b64_encode(b"fo"), "Zm8=");
    assert_eq!(b64_encode(b"foo"), "Zm9v");
    assert_eq!(b64_encode(b"foobar"), "Zm9vYmFy");
    assert_eq!(b64_encode(&[0xfb, 0xff]), "+/8=");
    assert_eq!(b64_decode("Zm9vYmFy").unwrap(), b"foobar".to_vec());
    assert_eq!(b64_decode("!!!!"), None);
    assert_eq!(b64_decode("Zm8").unwrap(), b"fo".to_vec());
}

#[test]
fn decoding_drops_what_makes_no_byte_and_stops_at_the_padding() {
    assert_eq!(b64_decode("A").unwrap(), Vec::<u8>::new());
    assert_eq!(b64_decode("AA").unwrap(), vec![0]);
    assert_eq!(b64_decode("AAAAA").unwrap(), vec![0, 0, 0]);
    assert_eq!(b64_decode("AA==!!").unwrap(), vec![0]);
    assert_eq!(b64_decode("").unwrap(), Vec::<u8>::new());
}

#[test]
fn base64_is_well_spelled_or_it_is_not() {
    for case in [vec![], vec![0xff], vec![1, 2], vec![1, 2, 3], vec![1, 2, 3, 4]] {
        assert!(is_well_spelled(&b64_encode(&case)));
    }
    assert!(is_well_spelled("AA"));
    for bad in ["A", "AAAAA", "A===", "=", "AA==!!", "AA=A", "!!"] {
        assert!(!is_well_spelled(bad), "{bad}");
    }
}

#[test]
fn bytes_keeps_non_utf8_values_as_bytes() {
    let raw = vec![0xff, 0x00, 0xfe];
    let b = Bytes::from(raw.clone());
    assert_eq!(b.as_slice(), raw);
    assert!(b.utf8.is_none(), "invalid utf-8 must not be echoed");
}

#[test]
fn bytes_echoes_printable_utf8_for_the_reader() {
    let b = Bytes::from(b"gate/d6/z-secondary".to_vec());
    assert_eq!(b.utf8.as_deref(), Some("gate/d6/z-secondary"));
    assert_eq!(b.as_slice(), b"gate/d6/z-secondary");
}

#[test]
fn a_value_containing_a_newline_is_not_echoed() {
    let b = Bytes::from(b"a\nb".to_vec());
    assert!(b.utf8.is_none());
}

#[test]
fn the_echo_leaves_out_exactly_what_holds_a_control_character() {
    for n in 0..0x3000u32 {
        if let Some(c) = char::from_u32(n) {
            let b = Bytes::from(c.to_string().into_bytes());
            assert_eq!(b.utf8.is_none(), c.is_control(), "{n:#x}");
        }
    }
    assert_eq!(Bytes::from("né".as_bytes().to_vec()).utf8.as_deref(), Some("né"));
}

#[test]
fn malformed_recorded_bytes_read_as_none() {
    let b = Bytes { b64: "?".to_owned(), utf8: None };
    assert!(b.as_slice().is_empty());
}

#[test]
fn builders_set_their_field_and_no_other() {
    let lock = LockObs {
        key: b"k".to_vec().into(),
        primary: b"p".to_vec().into(),
        kind: "put".to_owned(),
        ttl_ms: 1,
        txn_start_ts: 2,
    };
    let obs = Observation::ok()
        .with_value(Some(b"v".to_vec()))
        .with_native(NativeObs::new("rust", "KeyError", "KeyError(..)"))
        .with_proto(object_of("a", Json::Null))
        .with_locks(vec![lock.clone()])
        .with_start_ts(3)
        .with_commit_ts(4)
        .with_error_count(5);
    assert_eq!(obs.class, Class::Success);
    assert_eq!(obs.value.as_ref().unwrap().as_slice(), b"v".to_vec());
    let native = obs.native.as_ref().unwrap();
    assert_eq!((native.lang.as_str(), native.kind.as_str()), ("rust", "KeyError"));
    assert_eq!(native.display, "KeyError(..)");
    assert_eq!(obs.proto, Some(Json::Object(vec![("a".to_owned(), Json::Null)])));
    assert_eq!(obs.locks, vec![lock]);
    assert_eq!(obs.start_ts, Some(3));
    assert_eq!(obs.commit_ts, Some(4));
    assert_eq!(obs.error_count, Some(5));
    assert_eq!(obs.clone().with_value(None).value, None);
    assert_eq!(
        Observation::unsupported("u").class,
        Class::Unsupported { detail: "u".to_owned() }
    );
    assert_eq!(
        Observation::driver_error("d").class,
        Class::DriverError { detail: "d".to_owned() }
    );
}
