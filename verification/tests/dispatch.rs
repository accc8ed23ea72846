use tikv_parity::class::Class;
use tikv_parity::command::{Command, KeyArg, TxnMode, PROTOCOL_VERSION};
use tikv_parity::dispatch::{
    committed, done, failed, found_locks, lock_kind, malformed, no_session, no_timestamp, read,
    Driver, Failure, LockInfo, Plan, Request,
};
use tikv_parity::driver::Response;
use tikv_parity::mapping::ClientError;
use tikv_parity::observation::Observation;
use tikv_parity::paging::LockScan;

fn text(s: &str) -> KeyArg {
    KeyArg::Utf8 { s: s.to_owned() }
}

fn obs(reply: Response) -> Observation {
    assert!(reply.hello.is_none());
    reply.observation.unwrap()
}

fn reply(plan: Plan) -> Observation {
    match plan {
        Plan::Reply(r) => obs(r),
        Plan::Ask(request) => panic!("{request:?}"),
    }
}

fn ask(plan: Plan) -> Request {
    match plan {
        Plan::Ask(request) => request,
        Plan::Reply(r) => panic!("{r:?}"),
    }
}

fn broke(o: Observation) -> String {
    match o.class {
        Class::DriverError { detail } => detail,
        other => panic!("{other:?}"),
    }
}

fn failure() -> Failure {
    Failure { error: ClientError::TxnNotFound, display: "TxnNotFound(..)".to_owned() }
}

fn open_driver() -> Driver {
    let mut d = Driver::new();
    assert_eq!(obs(d.connected("c", Ok(()))).class, Class::Success);
    assert_eq!(obs(d.began("t", Ok(42))).start_ts, Some(42));
    d
}

#[test]
fn the_driver_greets_with_what_it_is() {
    let mut d = Driver::new();
    match d.execute(&Command::Hello) {
        Plan::Reply(r) => {
            let h = r.hello.unwrap();
            assert!(r.observation.is_none());
            assert_eq!(h.driver, "rust");
            assert_eq!(h.protocol, PROTOCOL_VERSION);
            assert_eq!(h.client.name, "tikv-client");
            assert_eq!(h.client.version, "path:../client-rust (see results/provenance.json)");
            assert!(!h.client.replaced);
            assert_eq!(h.features, vec!["scan_locks".to_owned()]);
            assert_eq!(h.config, vec!["drop_check=warn (stock default is panic)".to_owned()]);
        }
        Plan::Ask(request) => panic!("{request:?}"),
    }
}

#[test]
fn what_is_not_held_breaks_the_harness_not_the_client() {
    let mut d = Driver::new();
    let begin = Command::Begin {
        session: "t".to_owned(),
        client: "c".to_owned(),
        mode: TxnMode::Optimistic,
    };
    assert_eq!(broke(reply(d.execute(&begin))), "begin: no such client c");
    let get = Command::SnapshotGet { client: "c".to_owned(), key: text("k") };
    assert_eq!(broke(reply(d.execute(&get))), "snapshot_get: no such client c");
    let scan = Command::ScanLocks {
        client: "c".to_owned(),
        start: text("a"),
        end: text("b"),
        batch_size: 1,
    };
    assert_eq!(broke(reply(d.execute(&scan))), "scan_locks: no such client c");
    for cmd in [
        Command::Put { session: "t".to_owned(), key: text("k"), value: text("v") },
        Command::Get { session: "t".to_owned(), key: text("k") },
        Command::Commit { session: "t".to_owned() },
        Command::Rollback { session: "t".to_owned() },
    ] {
        assert_eq!(broke(reply(d.execute(&cmd))), "no such session: t");
    }
    assert_eq!(broke(obs(no_session("s"))), "no such session: s");
    assert_eq!(broke(obs(malformed("eof"))), "malformed command: eof");
    assert_eq!(
        broke(obs(no_timestamp("scan_locks", "pd is down"))),
        "scan_locks: current_timestamp: pd is down"
    );
    assert_eq!(
        broke(obs(d.connected("c", Err("refused".to_owned())))),
        "open_client: refused"
    );
    assert!(matches!(reply(d.execute(&begin)).class, Class::DriverError { .. }));
}

#[test]
fn commands_become_requests() {
    let mut d = open_driver();
    match ask(d.execute(&Command::OpenClient { name: "x".to_owned() })) {
        Request::Connect { name } => assert_eq!(name, "x"),
        other => panic!("{other:?}"),
    }
    match ask(d.execute(&Command::Put {
        session: "t".to_owned(),
        key: text("k"),
        value: KeyArg::B64 { b64: "/w==".to_owned() },
    })) {
        Request::Put { session, key, value } => {
            assert_eq!((session.as_str(), key, value), ("t", b"k".to_vec(), vec![0xff]));
        }
        other => panic!("{other:?}"),
    }
    match ask(d.execute(&Command::ScanLocks {
        client: "c".to_owned(),
        start: text("a"),
        end: text("b"),
        batch_size: 3,
    })) {
        Request::ScanLocks { client, start, end, batch_size } => {
            assert_eq!(client, "c");
            assert_eq!((start, end, batch_size), (b"a".to_vec(), b"b".to_vec(), 3));
        }
        other => panic!("{other:?}"),
    }
    match ask(d.execute(&Command::Begin {
        session: "u".to_owned(),
        client: "c".to_owned(),
        mode: TxnMode::Pessimistic,
    })) {
        Request::Begin { session, client, mode } => {
            assert_eq!((session.as_str(), client.as_str()), ("u", "c"));
            assert_eq!(mode, TxnMode::Pessimistic);
        }
        other => panic!("{other:?}"),
    }
    assert!(matches!(
        ask(d.execute(&Command::Get { session: "t".to_owned(), key: text("k") })),
        Request::Get { .. }
    ));
    assert!(matches!(
        ask(d.execute(&Command::SnapshotGet { client: "c".to_owned(), key: text("k") })),
        Request::SnapshotGet { .. }
    ));
}

#[test]
fn a_resolved_session_is_gone() {
    for last in [
        Command::Commit { session: "t".to_owned() },
        Command::Rollback { session: "t".to_owned() },
        Command::Abandon { session: "t".to_owned() },
    ] {
        let mut d = open_driver();
        ask(d.execute(&last));
        let get = Command::Get { session: "t".to_owned(), key: text("k") };
        assert_eq!(broke(reply(d.execute(&get))), "no such session: t");
    }
    let mut d = open_driver();
    ask(d.execute(&Command::CloseClient { name: "c".to_owned() }));
    let get = Command::SnapshotGet { client: "c".to_owned(), key: text("k") };
    assert_eq!(broke(reply(d.execute(&get))), "snapshot_get: no such client c");
    // Abandoning what is not held is no error.
    assert!(matches!(
        ask(d.execute(&Command::Abandon { session: "nobody".to_owned() })),
        Request::Drop { .. }
    ));
}

#[test]
fn a_missing_probe_is_stated_as_a_gap() {
    let mut d = open_driver();
    let o = reply(d.execute(&Command::PrewriteOnly {
        session: "t".to_owned(),
        primary: text("p"),
        keys: vec![],
    }));
    match o.class {
        Class::Unsupported { detail } => assert_eq!(
            detail,
            "client-rust exposes no test probes (its mocks are #[cfg(test)]), so a caller cannot \
             drive 2PC phase-by-phase. client-go exports CommitterProbe from a non-test file. The \
             driver does NOT emulate this: the gap is the finding."
        ),
        other => panic!("{other:?}"),
    }
}

#[test]
fn answers_become_observations() {
    assert_eq!(obs(done(Ok(()))).class, Class::Success);
    assert_eq!(obs(done(Err(failure()))).class, Class::TxnNotFound);
    assert_eq!(obs(failed(failure())).native.unwrap().display, "TxnNotFound(..)");
    assert_eq!(obs(read(Ok(None))).class, Class::NotFound);
    let o = obs(read(Ok(Some(b"v".to_vec()))));
    assert_eq!((o.class, o.value.unwrap().as_slice()), (Class::Success, b"v".to_vec()));
    assert_eq!(obs(read(Err(failure()))).class, Class::TxnNotFound);
    assert_eq!(obs(committed(Ok(Some(9)))).commit_ts, Some(9));
    assert_eq!(obs(committed(Ok(None))).commit_ts, None);
    assert_eq!(obs(committed(Err(failure()))).class, Class::TxnNotFound);
    let mut d = Driver::new();
    assert_eq!(obs(d.began("t", Err(failure()))).class, Class::TxnNotFound);
    assert!(matches!(
        reply(d.execute(&Command::Commit { session: "t".to_owned() })).class,
        Class::DriverError { .. }
    ));
    assert_eq!(obs(found_locks(Err(failure()))).class, Class::TxnNotFound);
}

fn lock(key: &str) -> LockInfo {
    LockInfo {
        key: key.as_bytes().to_vec(),
        primary: b"pri".to_vec(),
        op: 5,
        ttl_ms: 3000,
        txn_start_ts: 7,
    }
}

#[test]
fn locks_are_recorded_in_order() {
    let o = obs(found_locks(Ok(vec![lock("b"), lock("a")])));
    assert_eq!(o.class, Class::Success);
    assert_eq!(o.locks.len(), 2);
    assert_eq!(o.locks[0].key.as_slice(), b"b".to_vec());
    assert_eq!(o.locks[1].key.utf8.as_deref(), Some("a"));
    assert_eq!(o.locks[0].primary.as_slice(), b"pri".to_vec());
    assert_eq!(o.locks[0].kind, "pessimistic_lock");
    assert_eq!((o.locks[0].ttl_ms, o.locks[0].txn_start_ts), (3000, 7));
}

#[test]
fn operations_have_names() {
    let names = [
        "put",
        "del",
        "lock",
        "rollback",
        "insert",
        "pessimistic_lock",
        "check_not_exists",
    ];
    for (op, name) in names.iter().enumerate() {
        assert_eq!(lock_kind(op as i32), *name);
    }
    assert_eq!(lock_kind(7), "op_7");
    assert_eq!(lock_kind(-3), "op_-3");
    assert_eq!(lock_kind(i32::MIN), format!("op_{}", i32::MIN));
    assert_eq!(lock_kind(i32::MAX), format!("op_{}", i32::MAX));
}

/// The page that a client returns: up to a batch of each region, in order of the keys.
fn page(regions: &[Vec<&str>], cursor: &[u8], batch: usize) -> Vec<LockInfo> {
    regions
        .iter()
        .flat_map(|r| r.iter().filter(|k| k.as_bytes() >= cursor).take(batch))
        .map(|k| lock(k))
        .collect()
}

#[test]
fn a_lock_scan_pages_to_exhaustion() {
    let regions = [vec!["a", "b", "c", "d", "e"], vec!["m"], vec!["x", "y", "z"]];
    let all: Vec<&str> = regions.iter().flatten().copied().collect();
    for batch in 0..12u32 {
        let mut scan = LockScan::new(b"a", batch);
        let mut pages = 0;
        while !scan.done {
            let next = page(&regions, &scan.cursor, scan.size as usize);
            scan = scan.take_page(next);
            pages += 1;
            assert!(pages < 20);
        }
        let keys: Vec<&str> = scan
            .found
            .iter()
            .map(|l| std::str::from_utf8(&l.key).unwrap())
            .collect();
        assert_eq!(keys, all, "batch {batch}");
    }
}
