use tikv_parity::base64::b64_encode;
use tikv_parity::class::Class;
use tikv_parity::command::KeyArg;
use tikv_parity::json::{object_of, Json};
use tikv_parity::observation::{LockObs, NativeObs, Observation};
use tikv_parity::project::{
    bucket_ttl, diff, project, proto_type, redact_prefix_bytes, Canonical, Divergence, Spec,
    OPT_IN_PATHS,
};
use tikv_parity::sorted::SortedMap;
use tikv_parity::trace::{Step, Trace, TRACE_SCHEMA};

fn trace(prefix: &str, steps: Vec<Step>) -> Trace {
    Trace {
        schema: TRACE_SCHEMA.to_owned(),
        scenario: "orphan".to_owned(),
        run: "r".to_owned(),
        provenance: Json::Null,
        roles: vec![],
        prefix: prefix.to_owned(),
        steps,
    }
}

fn step(id: &str, obs: Observation) -> Step {
    Step {
        id: id.to_owned(),
        role: "reader".to_owned(),
        op: "snapshot_get".to_owned(),
        observation: obs,
    }
}

fn empty() -> Json {
    Json::Object(vec![])
}

fn number(n: u64) -> Json {
    Json::Number(n.to_string())
}

/// `{"key_error": {message: payload}}`
fn key_error(message: &str, payload: Json) -> Json {
    object_of("key_error", object_of(message, payload))
}

fn at(c: &Canonical, step: &str, path: &str) -> Option<String> {
    c.get(step).and_then(|m| m.get(path)).cloned()
}

fn asking(paths: &[&str]) -> Spec {
    Spec {
        also_compare: paths.iter().map(|p| (*p).to_owned()).collect(),
    }
}

#[test]
fn differing_run_prefixes_do_not_manufacture_a_divergence() {
    let o = trace(
        "parity/orphan/111/",
        vec![step(
            "read",
            Observation::ok().with_value(Some(b"parity/orphan/111/val".to_vec())),
        )],
    );
    let s = trace(
        "parity/orphan/222/",
        vec![step(
            "read",
            Observation::ok().with_value(Some(b"parity/orphan/222/val".to_vec())),
        )],
    );
    let d = diff(
        &project(&o, &Spec::default()),
        &project(&s, &Spec::default()),
    );
    assert!(d.is_empty(), "prefix leaked into the projection: {d:?}");
}

#[test]
fn the_orphaned_lock_divergence_is_visible() {
    let o = trace(
        "p/",
        vec![step(
            "reader-final-read",
            Observation::ok().with_value(Some(b"orphan".to_vec())),
        )],
    );
    let s = trace(
        "q/",
        vec![step(
            "reader-final-read",
            Observation::new(Class::TxnNotFound),
        )],
    );
    let d = diff(
        &project(&o, &Spec::default()),
        &project(&s, &Spec::default()),
    );

    let classes: Vec<_> = d.iter().filter(|x| x.path == "class").collect();
    assert_eq!(classes.len(), 1);
    assert_eq!(classes[0].oracle, "ok");
    assert_eq!(classes[0].subject, "txn_not_found");
}

#[test]
fn native_type_is_hidden_by_default_and_visible_when_a_claim_asks() {
    let o = trace(
        "p/",
        vec![step(
            "r",
            Observation::new(Class::TxnNotFound).with_native(NativeObs::new(
                "go",
                "*errors.fundamental",
                "txn 1 not found",
            )),
        )],
    );
    let s = trace(
        "p/",
        vec![step(
            "r",
            Observation::new(Class::TxnNotFound).with_native(NativeObs::new(
                "rust",
                "MultipleKeyErrors",
                "MultipleKeyErrors([...])",
            )),
        )],
    );

    let default = diff(
        &project(&o, &Spec::default()),
        &project(&s, &Spec::default()),
    );
    assert!(default.is_empty(), "native.type must be hidden by default");

    let spec = Spec {
        also_compare: vec!["native.type".to_owned()],
    };
    let opted = diff(&project(&o, &spec), &project(&s, &spec));
    assert_eq!(opted.len(), 1);
    assert_eq!(opted[0].path, "native.type");
    assert_eq!(opted[0].subject, "MultipleKeyErrors");
}

#[test]
fn lock_ttl_is_bucketed_but_lock_residue_is_not() {
    let lock = |ttl| LockObs {
        key: b"p/k".to_vec().into(),
        primary: b"p/pri".to_vec().into(),
        kind: "put".to_owned(),
        ttl_ms: ttl,
        txn_start_ts: 1,
    };
    let o = trace("p/", vec![step("locks", Observation::ok())]);
    let s = trace(
        "p/",
        vec![step(
            "locks",
            Observation::ok().with_locks(vec![lock(3000), lock(20_000)]),
        )],
    );
    let d = diff(
        &project(&o, &Spec::default()),
        &project(&s, &Spec::default()),
    );

    let count = d.iter().find(|x| x.path == "locks.count").unwrap();
    assert_eq!(count.oracle, "0");
    assert_eq!(count.subject, "2");
    assert!(s.steps[0].observation.locks.iter().all(|l| l.ttl_ms > 0));
}

#[test]
fn a_missing_step_is_a_divergence_not_agreement() {
    let o = trace(
        "p/",
        vec![step("a", Observation::ok()), step("b", Observation::ok())],
    );
    let s = trace("p/", vec![step("a", Observation::ok())]);
    let d = diff(
        &project(&o, &Spec::default()),
        &project(&s, &Spec::default()),
    );
    assert!(!d.is_empty());
    assert!(d.iter().all(|x| x.step == "b"));
    assert!(d.iter().any(|x| x.subject == "<step absent>"));
}

#[test]
fn locks_returned_in_a_different_order_are_not_a_divergence() {
    let mk = |k: &[u8]| LockObs {
        key: k.to_vec().into(),
        primary: b"p/pri".to_vec().into(),
        kind: "put".to_owned(),
        ttl_ms: 3000,
        txn_start_ts: 1,
    };
    let o = trace(
        "p/",
        vec![step(
            "l",
            Observation::ok().with_locks(vec![mk(b"p/a"), mk(b"p/b")]),
        )],
    );
    let s = trace(
        "p/",
        vec![step(
            "l",
            Observation::ok().with_locks(vec![mk(b"p/b"), mk(b"p/a")]),
        )],
    );
    assert!(diff(
        &project(&o, &Spec::default()),
        &project(&s, &Spec::default())
    )
    .is_empty());
}

#[test]
fn a_namespaced_binary_key_is_redacted_at_the_byte_level() {
    let raw_key = [0xffu8, 0x00];
    let key_a = KeyArg::B64 {
        b64: b64_encode(&raw_key),
    }
    .as_key("runA/")
    .bytes();
    let key_b = KeyArg::B64 {
        b64: b64_encode(&raw_key),
    }
    .as_key("runB/")
    .bytes();
    assert_ne!(
        key_a, key_b,
        "precondition: the runs must use different keys"
    );

    let lock = |k: Vec<u8>| LockObs {
        key: k.into(),
        primary: b"pri".to_vec().into(),
        kind: "put".to_owned(),
        ttl_ms: 3000,
        txn_start_ts: 1,
    };
    let a = trace(
        "runA/",
        vec![step("l", Observation::ok().with_locks(vec![lock(key_a)]))],
    );
    let b = trace(
        "runB/",
        vec![step("l", Observation::ok().with_locks(vec![lock(key_b)]))],
    );

    let d = diff(
        &project(&a, &Spec::default()),
        &project(&b, &Spec::default()),
    );
    assert!(
        d.is_empty(),
        "the run prefix leaked into a binary key's projection: {d:?}"
    );
}

#[test]
fn proto_type_is_the_message_type_and_never_descends_into_the_payload() {
    let rust = trace(
        "p/",
        vec![step(
            "r",
            Observation::new(Class::TxnNotFound)
                .with_proto(key_error("txn_not_found", object_of("start_ts", number(449)))),
        )],
    );
    let go = trace(
        "p/",
        vec![step(
            "r",
            Observation::new(Class::TxnNotFound).with_proto(key_error("txn_not_found", empty())),
        )],
    );

    let d = diff(
        &project(&rust, &Spec::default()),
        &project(&go, &Spec::default()),
    );
    assert!(
        d.is_empty(),
        "same message, different payload — must NOT diverge by default: {d:?}"
    );

    let p = project(&rust, &Spec::default());
    assert_eq!(at(&p, "r", "proto.type").unwrap(), "key_error.txn_not_found");
}

#[test]
fn payload_differences_are_still_visible_when_a_claim_opts_in() {
    let a = trace(
        "p/",
        vec![step(
            "r",
            Observation::new(Class::TxnNotFound).with_proto(key_error("txn_not_found", empty())),
        )],
    );
    let b = trace(
        "p/",
        vec![step(
            "r",
            Observation::new(Class::TxnNotFound)
                .with_proto(key_error("txn_not_found", object_of("start_ts", number(7)))),
        )],
    );
    let spec = Spec {
        also_compare: vec!["proto".to_owned()],
    };
    assert!(!diff(&project(&a, &spec), &project(&b, &spec)).is_empty());
}

#[test]
fn an_unknown_opt_in_path_is_rejected_rather_than_silently_compared() {
    let bad = Spec {
        also_compare: vec!["native.typo".to_owned()],
    };
    let err = bad
        .validate()
        .expect_err("an unknown path must be rejected");
    assert!(err.contains("native.typo"), "{err}");

    for good in OPT_IN_PATHS {
        Spec {
            also_compare: vec![good.to_owned()],
        }
        .validate()
        .unwrap_or_else(|e| panic!("`{good}` must be accepted: {e}"));
    }
}

#[test]
fn proto_presence_catches_a_client_side_check_vs_a_server_round_trip() {
    let o = trace(
        "p/",
        vec![step(
            "insert",
            Observation::new(Class::KeyExists).with_proto(key_error("already_exist", empty())),
        )],
    );
    let s = trace(
        "p/",
        vec![step("insert", Observation::new(Class::KeyExists))],
    );
    let d = diff(
        &project(&o, &Spec::default()),
        &project(&s, &Spec::default()),
    );
    assert!(d
        .iter()
        .any(|x| x.path == "proto.present" && x.oracle == "true" && x.subject == "false"));
}

#[test]
fn the_unknown_path_message_names_the_known_ones() {
    let bad = asking(&["proto", "x", "y"]);
    assert_eq!(
        bad.validate().unwrap_err(),
        "`also_compare` names `x`, which is not a projection path. Known paths: native.type, \
         proto, errors.count. An unknown path would compare NOTHING while looking like it \
         compared something."
    );
    assert!(OPT_IN_PATHS.join(", ") == "native.type, proto, errors.count");
}

#[test]
fn the_default_projection_of_a_full_observation() {
    let lock = |key: &[u8], ttl| LockObs {
        key: key.to_vec().into(),
        primary: b"p/pri".to_vec().into(),
        kind: "put".to_owned(),
        ttl_ms: ttl,
        txn_start_ts: 9,
    };
    let obs = Observation::ok()
        .with_value(Some(b"see p/x".to_vec()))
        .with_locks(vec![lock(b"p/z", 0), lock(b"p/a", 7)])
        .with_start_ts(1)
        .with_commit_ts(2)
        .with_proto(object_of("retryable", Json::Str("again".to_owned())));
    let c = project(&trace("p/", vec![step("s", obs)]), &Spec::default());
    let expected = [
        ("class", "ok"),
        ("commit_ts", "<ts>"),
        (
            "locks",
            "key={P}a primary={P}pri kind=put ttl=positive | \
             key={P}z primary={P}pri kind=put ttl=zero",
        ),
        ("locks.count", "2"),
        ("proto.present", "true"),
        ("proto.type", "retryable"),
        ("value", "see {P}x"),
    ];
    let facts = c.get("s").unwrap();
    assert_eq!(facts.len(), expected.len());
    for (i, (path, value)) in expected.iter().enumerate() {
        assert_eq!(facts.key_at(i), *path);
        assert_eq!(facts.value_at(i), value);
    }
}

#[test]
fn a_capability_gap_and_a_mixed_error_show_their_details() {
    let gap = project(
        &trace("p/", vec![step("s", Observation::unsupported("no checksum"))]),
        &Spec::default(),
    );
    assert_eq!(at(&gap, "s", "unsupported.detail").unwrap(), "no checksum");
    assert_eq!(at(&gap, "s", "value").unwrap(), "<absent>");
    assert_eq!(at(&gap, "s", "commit_ts").unwrap(), "<absent>");
    assert_eq!(at(&gap, "s", "proto.present").unwrap(), "false");
    assert_eq!(at(&gap, "s", "proto.type"), None);
    let mixed = Class::Mixed {
        parts: vec![Class::WriteConflict, Class::TxnNotFound, Class::Deadlock],
    };
    let c = project(&trace("p/", vec![step("s", Observation::new(mixed))]), &Spec::default());
    assert_eq!(
        at(&c, "s", "class.parts").unwrap(),
        "deadlock,txn_not_found,write_conflict"
    );
}

#[test]
fn opting_in_adds_exactly_the_asked_paths() {
    let obs = Observation::new(Class::WriteConflict)
        .with_native(NativeObs::new("rust", "KeyError", "…"))
        .with_error_count(3)
        .with_proto(Json::Object(vec![
            ("b".to_owned(), Json::Array(vec![Json::Null, Json::Bool(true), number(12)])),
            ("a".to_owned(), Json::Str("quo\"te".to_owned())),
        ]));
    let t = trace("p/", vec![step("s", obs)]);
    let c = project(&t, &asking(&["errors.count", "proto", "native.type"]));
    assert_eq!(at(&c, "s", "errors.count").unwrap(), "3");
    assert_eq!(at(&c, "s", "native.type").unwrap(), "KeyError");
    assert_eq!(
        at(&c, "s", "proto").unwrap(),
        "{\"a\":\"quo\\\"te\",\"b\":[null,true,12]}"
    );
    let without = project(&t, &Spec::default());
    for path in OPT_IN_PATHS {
        assert_eq!(at(&without, "s", path), None);
    }
    let bare = project(
        &trace("p/", vec![step("s", Observation::ok())]),
        &asking(&["errors.count", "proto", "native.type"]),
    );
    for path in OPT_IN_PATHS {
        assert_eq!(at(&bare, "s", path).unwrap(), "<absent>");
    }
}

#[test]
fn dropped_per_key_errors_are_visible_when_a_claim_asks() {
    let t = |n| {
        trace(
            "p/",
            vec![step("s", Observation::new(Class::WriteConflict).with_error_count(n))],
        )
    };
    assert!(diff(&project(&t(1), &Spec::default()), &project(&t(3), &Spec::default())).is_empty());
    let spec = asking(&["errors.count"]);
    assert_eq!(
        diff(&project(&t(1), &spec), &project(&t(3), &spec)),
        vec![Divergence {
            step: "s".to_owned(),
            path: "errors.count".to_owned(),
            oracle: "1".to_owned(),
            subject: "3".to_owned(),
        }]
    );
}

#[test]
fn message_types_at_the_edges() {
    assert_eq!(proto_type(&Json::Null), "<malformed>");
    assert_eq!(proto_type(&Json::Array(vec![])), "<malformed>");
    assert_eq!(proto_type(&empty()), "<empty>");
    assert_eq!(proto_type(&object_of("abort", Json::Str("x".to_owned()))), "abort");
    assert_eq!(proto_type(&object_of("key_error", empty())), "key_error");
    let two = Json::Object(vec![
        ("z".to_owned(), Json::Null),
        ("key_error".to_owned(), object_of("conflict", empty())),
    ]);
    assert_eq!(proto_type(&two), "key_error.conflict");
}

#[test]
fn redaction_happens_before_the_spelling_is_chosen() {
    assert_eq!(redact_prefix_bytes(b"run/a run/b", "run/"), "{P}a {P}b");
    assert_eq!(redact_prefix_bytes(b"plain", "run/"), "plain");
    assert_eq!(redact_prefix_bytes(b"plain", ""), "plain");
    assert_eq!(redact_prefix_bytes(b"run/\xff", "run/"), b64_encode(b"{P}\xff"));
    assert_eq!(redact_prefix_bytes("né".as_bytes(), "n"), "{P}é");
}

#[test]
fn keys_and_values_of_two_runs_compare_equal_once_redacted() {
    let forms = [
        KeyArg::Utf8 { s: "{P}a{P}b".to_owned() },
        KeyArg::Utf8 { s: "plain".to_owned() },
        KeyArg::Utf8 { s: "mid{P}dle".to_owned() },
        KeyArg::B64 { b64: b64_encode(b"{P}\xff\x00") },
    ];
    for k in &forms {
        assert_eq!(
            redact_prefix_bytes(&k.as_key("gate/x/1/").bytes(), "gate/x/1/"),
            redact_prefix_bytes(&k.as_key("gate/x/22/").bytes(), "gate/x/22/"),
        );
        assert_eq!(
            redact_prefix_bytes(&k.as_value("gate/x/1/").bytes(), "gate/x/1/"),
            redact_prefix_bytes(&k.as_value("gate/x/22/").bytes(), "gate/x/22/"),
        );
    }
}

#[test]
fn whether_a_lock_expires_is_all_that_is_compared_of_its_ttl() {
    assert_eq!(bucket_ttl(0), "zero");
    assert_eq!(bucket_ttl(1), "positive");
    assert_eq!(bucket_ttl(u64::MAX), "positive");
}

#[test]
fn divergences_are_listed_by_step_and_path_whatever_the_order_of_the_steps() {
    let o = trace(
        "p/",
        vec![
            step("b", Observation::new(Class::NotFound)),
            step("a", Observation::ok().with_commit_ts(1)),
        ],
    );
    let s = trace(
        "p/",
        vec![step("a", Observation::new(Class::Deadlock)), step("b", Observation::ok())],
    );
    let d = diff(&project(&o, &Spec::default()), &project(&s, &Spec::default()));
    let listed: Vec<(&str, &str, &str, &str)> = d
        .iter()
        .map(|x| (x.step.as_str(), x.path.as_str(), x.oracle.as_str(), x.subject.as_str()))
        .collect();
    assert_eq!(
        listed,
        vec![
            ("a", "class", "ok", "deadlock"),
            ("a", "commit_ts", "<ts>", "<absent>"),
            ("b", "class", "not_found", "ok"),
        ]
    );
    let turned = diff(&project(&s, &Spec::default()), &project(&o, &Spec::default()));
    assert_eq!(turned.len(), 3);
    assert_eq!((turned[0].oracle.as_str(), turned[0].subject.as_str()), ("deadlock", "ok"));
    assert!(diff(&project(&o, &Spec::default()), &project(&o, &Spec::default())).is_empty());
}

#[test]
fn of_a_repeated_step_the_last_counts() {
    let t = trace(
        "p/",
        vec![step("a", Observation::ok()), step("a", Observation::new(Class::Aborted))],
    );
    let c = project(&t, &Spec::default());
    assert_eq!(c.len(), 1);
    assert_eq!(at(&c, "a", "class").unwrap(), "aborted");
}

/// A canonical form with one step of these fields.
fn one_step(id: &str, fields: &[(&str, &str)]) -> Canonical {
    let mut facts = SortedMap::new();
    for (path, value) in fields {
        facts.insert((*path).to_owned(), (*value).to_owned());
    }
    let mut canonical = SortedMap::new();
    canonical.insert(id.to_owned(), facts);
    canonical
}

#[test]
fn a_step_of_one_run_is_a_divergence_whatever_it_carries() {
    let none: Canonical = SortedMap::new();
    let lone = |oracle: &str, subject: &str| {
        vec![Divergence {
            step: "a".to_owned(),
            path: "class".to_owned(),
            oracle: oracle.to_owned(),
            subject: subject.to_owned(),
        }]
    };
    let empty = one_step("a", &[]);
    assert_eq!(diff(&empty, &none), lone("<absent>", "<step absent>"));
    assert_eq!(diff(&none, &empty), lone("<step absent>", "<absent>"));
    assert!(diff(&empty, &one_step("a", &[])).is_empty());
    // A field that reads like an absent step does not hide the step either.
    let veiled = one_step("a", &[("class", "<step absent>"), ("value", "<step absent>")]);
    assert_eq!(diff(&veiled, &none), lone("<absent>", "<step absent>"));
    // Where a field shows the step, nothing is added.
    let shown = diff(&one_step("a", &[("value", "v")]), &none);
    assert_eq!(shown.len(), 1);
    assert_eq!((shown[0].path.as_str(), shown[0].oracle.as_str()), ("value", "v"));
}

#[test]
fn the_order_of_the_parts_of_a_mixed_class_is_no_difference() {
    let mixed = |parts: Vec<Class>| {
        let obs = Observation::new(Class::Mixed { parts });
        project(&trace("p/", vec![step("r", obs)]), &Spec::default())
    };
    let a = mixed(vec![Class::WriteConflict, Class::TxnNotFound, Class::WriteConflict]);
    let b = mixed(vec![Class::TxnNotFound, Class::WriteConflict, Class::WriteConflict]);
    assert!(diff(&a, &b).is_empty());
    let c = mixed(vec![Class::TxnNotFound, Class::WriteConflict]);
    assert_eq!(diff(&a, &c).len(), 1);
}

#[test]
fn a_deeply_nested_message_is_compared_in_full() {
    let nested = |leaf: u64| {
        let mut json = number(leaf);
        for _ in 0..200 {
            json = Json::Array(vec![object_of("m", json)]);
        }
        let obs = Observation::ok().with_proto(json);
        project(&trace("p/", vec![step("r", obs)]), &asking(&["proto"]))
    };
    let text = at(&nested(7), "r", "proto").unwrap();
    assert_eq!(
        text,
        format!("{}7{}", "[{\"m\":".repeat(200), "}]".repeat(200))
    );
    assert_eq!(diff(&nested(7), &nested(8)).len(), 1);
}
