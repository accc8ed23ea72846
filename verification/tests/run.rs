use tikv_parity::base64::b64_encode;
use tikv_parity::class::Class;
use tikv_parity::command::{ClientId, Command, Hello, KeyArg, TxnMode, PROTOCOL_VERSION};
use tikv_parity::driver::{closed_stream, greeting, Response};
use tikv_parity::json::{object_of, Json};
use tikv_parity::observation::Observation;
use tikv_parity::project::Divergence;
use tikv_parity::run::{
    after_run, cmd_op, compare, divergence_report, first_run, provenance_from, read_provenance,
    report_text, substitute, Action, Binaries, Execution, Halt, Inadmissible, Next, Setting,
};
use tikv_parity::scenario::{Assert, Run, Scenario, Step};
use tikv_parity::sorted::SortedMap;
use tikv_parity::trace::Trace;

fn text(s: &str) -> KeyArg {
    KeyArg::Utf8 { s: s.to_owned() }
}

fn hello(driver: &str) -> Hello {
    Hello {
        driver: driver.to_owned(),
        protocol: PROTOCOL_VERSION.to_owned(),
        client: ClientId {
            name: "c".to_owned(),
            version: "1".to_owned(),
            replaced: false,
        },
        features: vec!["f".to_owned()],
        config: vec![],
    }
}

fn step(id: &str, role: Option<&str>, op: &str, command: Result<Command, String>) -> Step {
    Step {
        id: id.to_owned(),
        role: role.map(str::to_owned),
        cmd: object_of("op", Json::Str(op.to_owned())),
        command,
        expect: None,
        why: None,
    }
}

fn read(id: &str) -> Step {
    step(
        id,
        Some("reader"),
        "snapshot_get",
        Ok(Command::SnapshotGet { client: "c".to_owned(), key: text("{P}k") }),
    )
}

fn wait(id: &str, ms: &str) -> Step {
    let mut s = step(id, None, "sleep", Err("no such op".to_owned()));
    s.cmd = Json::Object(vec![
        ("op".to_owned(), Json::Str("sleep".to_owned())),
        ("ms".to_owned(), Json::Number(ms.to_owned())),
    ]);
    s
}

fn scenario(steps: Vec<Step>) -> Scenario {
    Scenario {
        schema: "parity-scenario/v1".to_owned(),
        name: "orphan".to_owned(),
        doc: "d".to_owned(),
        gap: Some("G-0001".to_owned()),
        roles: vec!["writer".to_owned(), "reader".to_owned()],
        runs: vec![],
        compare: vec!["oracle".to_owned(), "subject".to_owned()],
        also_compare: vec![],
        steps,
    }
}

fn bound(name: &str, driver: &str) -> Run {
    let mut bind = SortedMap::new();
    bind.insert("writer".to_owned(), "go".to_owned());
    bind.insert("reader".to_owned(), driver.to_owned());
    Run { name: name.to_owned(), bind }
}

fn bins() -> Binaries {
    Binaries { rust: "/bin/r".to_owned(), go: "/bin/g".to_owned() }
}

/// Drive a run to its end with canned observations.
fn drive(setting: &Setting, mut replies: Vec<Observation>) -> Result<Trace, String> {
    let mut e = Execution::new();
    replies.reverse();
    loop {
        match e.action(setting) {
            Action::Spawn { driver, .. } => e = e.spawned(setting, hello(&driver)),
            Action::Sleep { .. } => e = e.slept(setting),
            Action::Send { .. } => {
                let reply = Response::observation(replies.pop().unwrap());
                match e.replied(setting, reply) {
                    Ok(next) => e = next,
                    Err(Halt::Refused(bad)) => return Err(format!("{}: {}", bad.run, bad.why)),
                    Err(Halt::Failed(why)) => return Err(why),
                }
            }
            Action::Finish => {
                return e.finish(setting).map_err(|bad| format!("{}: {}", bad.run, bad.why))
            }
            Action::Fail { why } => return Err(why),
        }
    }
}

#[test]
fn a_run_takes_its_steps_in_order_and_records_them() {
    let s = scenario(vec![read("a"), wait("w", "7"), read("b")]);
    let run = bound("subject", "rust");
    let bins = bins();
    let world = object_of("rev", Json::Str("abc".to_owned()));
    let setting = Setting {
        scenario: &s,
        run: &run,
        bins: &bins,
        provenance: &world,
        prefix: "gate/orphan/1/",
    };
    let trace = drive(&setting, vec![Observation::ok(), Observation::new(Class::NotFound)]).unwrap();
    assert_eq!(trace.schema, "parity-trace/v1");
    assert_eq!((trace.scenario.as_str(), trace.run.as_str()), ("orphan", "subject"));
    assert_eq!(trace.provenance, world);
    assert_eq!(trace.prefix, "gate/orphan/1/");
    let ids: Vec<(&str, &str, &str)> = trace
        .steps
        .iter()
        .map(|t| (t.id.as_str(), t.role.as_str(), t.op.as_str()))
        .collect();
    assert_eq!(
        ids,
        vec![("a", "reader", "snapshot_get"), ("b", "reader", "snapshot_get")]
    );
    assert_eq!(trace.steps[1].observation.class, Class::NotFound);
    let roles: Vec<(&str, &str)> = trace
        .roles
        .iter()
        .map(|r| (r.role.as_str(), r.driver.as_str()))
        .collect();
    assert_eq!(roles, vec![("writer", "go"), ("reader", "rust")]);
    assert_eq!(trace.roles[1].hello, hello("rust"));
}

#[test]
fn what_is_sent_is_namespaced_and_goes_to_the_role() {
    let s = scenario(vec![read("a")]);
    let run = bound("subject", "rust");
    let bins = bins();
    let setting = Setting {
        scenario: &s,
        run: &run,
        bins: &bins,
        provenance: &Json::Null,
        prefix: "p/",
    };
    let e = Execution::new();
    match e.action(&setting) {
        Action::Spawn { role, driver, binary } => {
            assert_eq!((role.as_str(), driver.as_str()), ("writer", "go"));
            assert_eq!(binary, "/bin/g");
        }
        other => panic!("{other:?}"),
    }
    let e = e.spawned(&setting, hello("go")).spawned(&setting, hello("rust"));
    match e.action(&setting) {
        Action::Send { role, command } => {
            assert_eq!(role, "reader");
            assert_eq!(
                command,
                Command::SnapshotGet { client: "c".to_owned(), key: text("p/k") }
            );
        }
        other => panic!("{other:?}"),
    }
}

#[test]
fn a_failed_precondition_ends_the_run_at_once() {
    let mut first = read("a");
    first.expect = Some(Assert { lock_count: None, class: Some("ok".to_owned()) });
    let s = scenario(vec![first, read("b")]);
    let run = bound("oracle", "go");
    let bins = bins();
    let setting = Setting {
        scenario: &s,
        run: &run,
        bins: &bins,
        provenance: &Json::Null,
        prefix: "p/",
    };
    let why = drive(&setting, vec![Observation::new(Class::NotFound)]).unwrap_err();
    assert_eq!(
        why,
        "oracle: step `a` precondition failed: expected class `ok`, observed `not_found`. The \
         scenario's SETUP did not hold, so nothing downstream of it is evidence about either \
         client."
    );
}

#[test]
fn a_run_with_an_inadmissible_observation_is_refused() {
    let s = scenario(vec![read("a"), read("b")]);
    let run = bound("oracle", "go");
    let bins = bins();
    let setting = Setting {
        scenario: &s,
        run: &run,
        bins: &bins,
        provenance: &Json::Null,
        prefix: "p/",
    };
    let why = drive(
        &setting,
        vec![Observation::driver_error("x"), Observation::driver_error("y")],
    )
    .unwrap_err();
    assert_eq!(
        why,
        "oracle: step `a` (snapshot_get): the harness itself failed: x; step `b` (snapshot_get): \
         the harness itself failed: y"
    );
}

#[test]
fn what_cannot_be_run_fails_with_its_reason() {
    let bins = bins();
    let fail = |steps: Vec<Step>, run: &Run| {
        let s = scenario(steps);
        let setting = Setting {
            scenario: &s,
            run,
            bins: &bins,
            provenance: &Json::Null,
            prefix: "p/",
        };
        drive(&setting, vec![]).unwrap_err()
    };
    let ok = bound("r", "rust");
    assert_eq!(
        fail(vec![], &Run { name: "r".to_owned(), bind: SortedMap::new() }),
        "run `r` does not bind role `writer`"
    );
    assert_eq!(
        fail(vec![], &bound("r", "java")),
        "unknown driver `java` (expected rust|go)"
    );
    assert_eq!(fail(vec![wait("w", "-1")], &ok), "step `w`: sleep needs `ms`");
    assert_eq!(fail(vec![wait("w", "1.5")], &ok), "step `w`: sleep needs `ms`");
    assert_eq!(
        fail(vec![step("s", None, "hello", Ok(Command::Hello))], &ok),
        "step `s`: only `sleep` may omit a role"
    );
    assert_eq!(
        fail(vec![step("s", Some("ghost"), "hello", Ok(Command::Hello))], &ok),
        "step `s`: no driver for role `ghost`"
    );
    assert_eq!(
        fail(vec![step("s", Some("reader"), "fly", Err("unknown".to_owned()))], &ok),
        "step `s`: bad command: unknown"
    );
}

#[test]
fn a_reply_without_an_observation_fails_the_run() {
    let s = scenario(vec![read("a")]);
    let run = bound("r", "rust");
    let bins = bins();
    let setting = Setting {
        scenario: &s,
        run: &run,
        bins: &bins,
        provenance: &Json::Null,
        prefix: "p/",
    };
    let e = Execution::new()
        .spawned(&setting, hello("go"))
        .spawned(&setting, hello("rust"));
    match e.replied(&setting, Response::hello(hello("rust"))) {
        Err(Halt::Failed(why)) => assert_eq!(why, "step `a`: driver returned no observation"),
        other => panic!("{other:?}"),
    }
}

#[test]
fn the_length_of_a_wait_is_read_exactly() {
    let s = scenario(vec![wait("w", "18446744073709551615")]);
    let run = bound("r", "rust");
    let bins = bins();
    let setting = Setting {
        scenario: &s,
        run: &run,
        bins: &bins,
        provenance: &Json::Null,
        prefix: "p/",
    };
    let e = Execution::new()
        .spawned(&setting, hello("go"))
        .spawned(&setting, hello("rust"));
    match e.action(&setting) {
        Action::Sleep { ms } => assert_eq!(ms, u64::MAX),
        other => panic!("{other:?}"),
    }
    assert_eq!(Json::Number("18446744073709551616".to_owned()).as_u64(), None);
    assert_eq!(Json::Number("0".to_owned()).as_u64(), Some(0));
    assert_eq!(Json::Number("".to_owned()).as_u64(), None);
    assert_eq!(Json::Str("1".to_owned()).as_u64(), None);
}

#[test]
fn of_a_repeated_role_the_last_driver_plays_it() {
    let mut s = scenario(vec![]);
    s.roles = vec!["writer".to_owned(), "reader".to_owned(), "writer".to_owned()];
    let run = bound("r", "rust");
    let bins = bins();
    let setting = Setting {
        scenario: &s,
        run: &run,
        bins: &bins,
        provenance: &Json::Null,
        prefix: "p/",
    };
    let e = Execution::new()
        .spawned(&setting, hello("first"))
        .spawned(&setting, hello("second"))
        .spawned(&setting, hello("third"));
    let trace = e.finish(&setting).unwrap();
    let drivers: Vec<&str> = trace.roles.iter().map(|r| r.driver.as_str()).collect();
    assert_eq!(drivers, vec!["third", "second", "third"]);
}

#[test]
fn substitution_namespaces_keys_and_leaves_binary_values() {
    let binary = KeyArg::B64 { b64: b64_encode(&[0xff]) };
    assert_eq!(
        substitute(
            &Command::Put {
                session: "t".to_owned(),
                key: binary.clone(),
                value: binary.clone(),
            },
            "p/",
        ),
        Command::Put {
            session: "t".to_owned(),
            key: KeyArg::B64 { b64: b64_encode(b"p/\xff") },
            value: binary,
        }
    );
    assert_eq!(
        substitute(
            &Command::PrewriteOnly {
                session: "t".to_owned(),
                primary: text("a"),
                keys: vec![text("{P}b"), text("c")],
            },
            "p/",
        ),
        Command::PrewriteOnly {
            session: "t".to_owned(),
            primary: text("p/a"),
            keys: vec![text("p/b"), text("p/c")],
        }
    );
    assert_eq!(
        substitute(
            &Command::ScanLocks {
                client: "c".to_owned(),
                start: text("{P}"),
                end: text("{P}z"),
                batch_size: 9,
            },
            "p/",
        ),
        Command::ScanLocks {
            client: "c".to_owned(),
            start: text("p/"),
            end: text("p/z"),
            batch_size: 9,
        }
    );
    let begin = Command::Begin {
        session: "t".to_owned(),
        client: "c".to_owned(),
        mode: TxnMode::Pessimistic,
    };
    assert_eq!(substitute(&begin, "p/"), begin);
}

#[test]
fn the_op_of_a_command_is_shown_to_the_reader() {
    assert_eq!(cmd_op(&object_of("op", Json::Str("get".to_owned()))), "get");
    assert_eq!(cmd_op(&object_of("op", Json::Bool(true))), "?");
    assert_eq!(cmd_op(&Json::Null), "?");
    let twice = Json::Object(vec![
        ("op".to_owned(), Json::Str("a".to_owned())),
        ("op".to_owned(), Json::Str("b".to_owned())),
    ]);
    assert_eq!(cmd_op(&twice), "b");
}

#[test]
fn binaries_know_two_drivers() {
    let b = bins();
    assert_eq!(b.get("rust").unwrap(), "/bin/r");
    assert_eq!(b.get("go").unwrap(), "/bin/g");
    assert_eq!(b.get("Rust").unwrap_err(), "unknown driver `Rust` (expected rust|go)");
}

fn empty_trace(run: &str, prefix: &str, steps: Vec<tikv_parity::trace::Step>) -> Trace {
    Trace {
        schema: "parity-trace/v1".to_owned(),
        scenario: "orphan".to_owned(),
        run: run.to_owned(),
        provenance: Json::Null,
        roles: vec![],
        prefix: prefix.to_owned(),
        steps,
    }
}

fn taken(class: Class) -> tikv_parity::trace::Step {
    tikv_parity::trace::Step {
        id: "a".to_owned(),
        role: "reader".to_owned(),
        op: "get".to_owned(),
        observation: Observation::new(class),
    }
}

#[test]
fn the_named_runs_are_compared() {
    let s = scenario(vec![]);
    let traces = vec![
        empty_trace("oracle", "p/", vec![taken(Class::Deadlock)]),
        empty_trace("subject", "q/", vec![taken(Class::NotFound)]),
        empty_trace("oracle", "p/", vec![taken(Class::Success)]),
    ];
    assert_eq!(
        compare(&s, &traces).unwrap(),
        vec![Divergence {
            step: "a".to_owned(),
            path: "class".to_owned(),
            oracle: "ok".to_owned(),
            subject: "not_found".to_owned(),
        }]
    );
    assert_eq!(compare(&s, &vec![]).unwrap_err(), "no trace for `oracle`");
    let only = vec![empty_trace("oracle", "p/", vec![])];
    assert_eq!(compare(&s, &only).unwrap_err(), "no trace for `subject`");
}

#[test]
fn the_report_carries_its_world() {
    let s = scenario(vec![]);
    let d = vec![Divergence {
        step: "a".to_owned(),
        path: "class".to_owned(),
        oracle: "ok".to_owned(),
        subject: "not_found".to_owned(),
    }];
    let report = divergence_report(&s, &Json::Bool(true), &d);
    let member = |name: &str| report.get(name).unwrap().clone();
    assert_eq!(member("schema"), Json::Str("parity-divergence/v1".to_owned()));
    assert_eq!(member("scenario"), Json::Str("orphan".to_owned()));
    assert_eq!(member("gap"), Json::Str("G-0001".to_owned()));
    assert_eq!(member("provenance"), Json::Bool(true));
    assert_eq!(member("oracle"), Json::Str("oracle".to_owned()));
    assert_eq!(member("subject"), Json::Str("subject".to_owned()));
    match member("divergences") {
        Json::Array(entries) => {
            assert_eq!(entries.len(), 1);
            assert_eq!(entries[0].get("path").unwrap().as_str(), Some("class"));
            assert_eq!(entries[0].get("subject").unwrap().as_str(), Some("not_found"));
        }
        other => panic!("{other:?}"),
    }
}

#[test]
fn a_driver_must_greet_in_the_same_protocol() {
    assert_eq!(
        greeting("go", Response::hello(hello("go"))).unwrap(),
        hello("go")
    );
    assert_eq!(
        greeting("go", Response::observation(Observation::ok())).unwrap_err(),
        "go: driver did not answer `hello` with a hello"
    );
    let mut other = hello("go");
    other.protocol = "parity-cmd/v0".to_owned();
    assert_eq!(
        greeting("go", Response::hello(other)).unwrap_err(),
        "go: driver speaks protocol `parity-cmd/v0`, runner speaks `parity-cmd/v1`. The schema's \
         two halves have drifted."
    );
    assert_eq!(
        closed_stream("go"),
        "go: driver closed its stream (it probably crashed — see its stderr above)"
    );
}

/// Drive a run to a refusal with canned observations.
fn refused(steps: Vec<Step>, mut replies: Vec<Observation>) -> Inadmissible {
    let s = scenario(steps);
    let run = bound("subject", "rust");
    let bins = bins();
    let setting = Setting {
        scenario: &s,
        run: &run,
        bins: &bins,
        provenance: &Json::Null,
        prefix: "p/",
    };
    let mut e = Execution::new().spawned(&setting, hello("go")).spawned(&setting, hello("rust"));
    replies.reverse();
    while let Action::Send { .. } = e.action(&setting) {
        match e.replied(&setting, Response::observation(replies.pop().unwrap())) {
            Ok(next) => e = next,
            Err(Halt::Refused(bad)) => return bad,
            Err(other) => panic!("{other:?}"),
        }
    }
    e.finish(&setting).unwrap_err()
}

#[test]
fn a_refusal_says_whether_only_the_cluster_moved() {
    let two = || vec![read("a"), read("b")];
    let moved = || Observation::new(Class::RegionError);
    assert!(refused(two(), vec![Observation::ok(), moved()]).cluster_moved);
    assert!(refused(two(), vec![moved(), moved()]).cluster_moved);
    assert!(!refused(two(), vec![moved(), Observation::driver_error("x")]).cluster_moved);
    assert!(!refused(two(), vec![Observation::ok(), Observation::driver_error("x")]).cluster_moved);
    let mixed = |other: Class| {
        Observation::new(Class::Mixed { parts: vec![Class::RegionError, other] })
    };
    assert!(refused(two(), vec![Observation::ok(), mixed(Class::WriteConflict)]).cluster_moved);
    let hole = Class::Internal { detail: "?".to_owned() };
    assert!(!refused(two(), vec![Observation::ok(), mixed(hole)]).cluster_moved);

    let expecting = || {
        let mut first = read("a");
        first.expect = Some(Assert { lock_count: None, class: Some("ok".to_owned()) });
        vec![first]
    };
    assert!(refused(expecting(), vec![moved()]).cluster_moved);
    assert!(!refused(expecting(), vec![Observation::new(Class::NotFound)]).cluster_moved);
}

#[test]
fn what_follows_a_run_is_the_next_a_repeat_a_refusal_or_the_report() {
    let mut s = scenario(vec![]);
    assert!(matches!(first_run(&s), Next::Report));
    s.runs = vec![bound("oracle", "go"), bound("subject", "rust")];
    assert!(matches!(first_run(&s), Next::Run(0)));
    assert!(matches!(after_run(&s, 0, Ok(()), 0), Next::Run(1)));
    assert!(matches!(after_run(&s, 1, Ok(()), 3), Next::Report));
    let bad = |cluster_moved: bool| {
        Err(Inadmissible {
            run: "oracle".to_owned(),
            why: "w".to_owned(),
            cluster_moved,
        })
    };
    assert!(matches!(after_run(&s, 1, bad(true), 1), Next::Again));
    match after_run(&s, 0, bad(true), 0) {
        Next::Refused(b) => assert_eq!((b.run.as_str(), b.why.as_str()), ("oracle", "w")),
        other => panic!("{other:?}"),
    }
    assert!(matches!(after_run(&s, 1, bad(false), 3), Next::Refused(_)));
}

#[test]
fn the_record_of_the_world_is_read_as_json() {
    let world = read_provenance(r#" {"rev": "abc", "n": [1, -2, 1.5, true, null], "e": {}} "#).unwrap();
    assert_eq!(world.get("rev").unwrap().as_str(), Some("abc"));
    let number = |n: &str| Json::Number(n.to_owned());
    assert_eq!(
        world.get("n"),
        Some(&Json::Array(vec![
            number("1"),
            number("-2"),
            number("1.5"),
            Json::Bool(true),
            Json::Null,
        ]))
    );
    assert_eq!(world.get("e"), Some(&Json::Object(vec![])));

    let why = serde_json::from_str::<serde_json::Value>("{").unwrap_err().to_string();
    assert_eq!(
        read_provenance("{").unwrap_err(),
        format!("results/provenance.json is not valid JSON: {why}")
    );
    assert_eq!(
        provenance_from(Err("w".to_owned())).unwrap_err(),
        "results/provenance.json is not valid JSON: w"
    );
    assert_eq!(provenance_from(Ok(Json::Null)).unwrap(), Json::Null);
}

#[test]
fn a_report_is_written_with_indentation() {
    let report = object_of("a", Json::Array(vec![Json::Number("1".to_owned()), Json::Null]));
    assert_eq!(
        report_text(&report),
        "{\n  \"a\": [\n    1,\n    null\n  ]\n}"
    );
    assert_eq!(read_provenance(&report_text(&report)).unwrap(), report);
}
