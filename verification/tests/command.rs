use tikv_parity::base64::b64_encode;
use tikv_parity::command::{Command, KeyArg, TxnMode, PROTOCOL_VERSION};

fn text(s: &str) -> KeyArg {
    KeyArg::Utf8 { s: s.to_owned() }
}

fn bytes(raw: &[u8]) -> KeyArg {
    KeyArg::B64 { b64: b64_encode(raw) }
}

#[test]
fn a_text_key_substitutes_the_prefix_token() {
    let k = KeyArg::Utf8 {
        s: "{P}z".to_owned(),
    };
    assert_eq!(k.as_key("run7/").bytes(), b"run7/z".to_vec());
}

#[test]
fn a_text_key_without_the_token_is_namespaced_anyway() {
    let k = KeyArg::Utf8 {
        s: "z-secondary".to_owned(),
    };
    assert_eq!(k.as_key("run7/").bytes(), b"run7/z-secondary".to_vec());
    assert_ne!(k.as_key("runA/").bytes(), k.as_key("runB/").bytes());
}

#[test]
fn no_key_form_can_escape_its_run_prefix() {
    let forms = [
        KeyArg::Utf8 {
            s: "{P}explicit".to_owned(),
        },
        KeyArg::Utf8 {
            s: "implicit".to_owned(),
        },
        KeyArg::B64 {
            b64: b64_encode(&[0xff, 0x00]),
        },
    ];
    for k in &forms {
        let a = k.as_key("runA/").bytes();
        let b = k.as_key("runB/").bytes();
        assert_ne!(a, b, "a key escaped its run prefix: {k:?}");
        assert!(a.starts_with(b"runA/"), "not namespaced: {k:?}");
    }
}

#[test]
fn a_binary_key_is_namespaced_under_the_run_prefix() {
    let key = KeyArg::B64 {
        b64: b64_encode(&[0xff, 0x00]),
    };
    assert_eq!(key.as_key("run7/").bytes(), b"run7/\xff\x00".to_vec());
    assert_ne!(key.as_key("runA/").bytes(), key.as_key("runB/").bytes());
}

#[test]
fn a_binary_value_is_left_byte_identical() {
    let v = KeyArg::B64 {
        b64: b64_encode(&[0xff, 0x00]),
    };
    assert_eq!(v.as_value("run7/").bytes(), vec![0xff, 0x00]);
}

#[test]
fn a_text_value_still_substitutes_the_token() {
    let v = KeyArg::Utf8 {
        s: "points-at:{P}inode".to_owned(),
    };
    assert_eq!(
        v.as_value("run7/").bytes(),
        b"points-at:run7/inode".to_vec()
    );
}

#[test]
fn every_token_in_a_key_is_substituted() {
    assert_eq!(text("a{P}b{P}").as_key("x/").bytes(), b"ax/bx/".to_vec());
    assert_eq!(text("{P").as_key("x/").bytes(), b"x/{P".to_vec());
    assert_eq!(text("no token").as_value("x/").bytes(), b"no token".to_vec());
    assert_eq!(text("").as_key("x/").bytes(), b"x/".to_vec());
    assert_eq!(text("é{P}ü").as_key("ñ/").bytes(), "éñ/ü".as_bytes().to_vec());
}

#[test]
fn malformed_base64_is_refused_with_its_text() {
    assert!(text("anything").validate().is_ok());
    assert!(bytes(&[1, 2, 3]).validate().is_ok());
    let bad = KeyArg::B64 { b64: "!!".to_owned() };
    assert_eq!(
        bad.validate().unwrap_err(),
        "`!!` is not valid base64. A malformed key or value would decode to EMPTY bytes and \
         silently test something other than what was written."
    );
    assert!(bad.bytes().is_empty());
}

#[test]
fn nothing_that_is_written_is_quietly_taken_for_something_else() {
    for written in ["A", "AAAAA", "A===", "=", "====", "AA==!!", "AA=A"] {
        let arg = KeyArg::B64 { b64: written.to_owned() };
        assert!(arg.validate().unwrap_err().starts_with(&format!("`{written}` is not")));
    }
    let nothing = KeyArg::B64 { b64: String::new() };
    assert!(nothing.validate().is_ok());
    assert!(nothing.bytes().is_empty());
    assert!(KeyArg::B64 { b64: "AA".to_owned() }.validate().is_ok());
}

#[test]
fn args_are_every_byte_string_in_order() {
    let put = Command::Put { session: "s".to_owned(), key: text("k"), value: bytes(b"v") };
    assert_eq!(put.args(), vec![&text("k"), &bytes(b"v")]);
    let scan = Command::ScanLocks {
        client: "c".to_owned(),
        start: text("a"),
        end: text("z"),
        batch_size: 3,
    };
    assert_eq!(scan.args(), vec![&text("a"), &text("z")]);
    let prewrite = Command::PrewriteOnly {
        session: "s".to_owned(),
        primary: text("p"),
        keys: vec![text("k"), text("l")],
    };
    assert_eq!(prewrite.args(), vec![&text("p"), &text("k"), &text("l")]);
    assert_eq!(
        Command::Get { session: "s".to_owned(), key: text("k") }.args(),
        vec![&text("k")]
    );
    assert_eq!(
        Command::SnapshotGet { client: "c".to_owned(), key: text("k") }.args(),
        vec![&text("k")]
    );
    for none in [
        Command::Hello,
        Command::OpenClient { name: "c".to_owned() },
        Command::CloseClient { name: "c".to_owned() },
        Command::Begin {
            session: "s".to_owned(),
            client: "c".to_owned(),
            mode: TxnMode::Optimistic,
        },
        Command::Commit { session: "s".to_owned() },
        Command::Rollback { session: "s".to_owned() },
        Command::Abandon { session: "s".to_owned() },
    ] {
        assert!(none.args().is_empty());
    }
}

#[test]
fn the_protocol_has_a_version() {
    assert_eq!(PROTOCOL_VERSION, "parity-cmd/v1");
}
