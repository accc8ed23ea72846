use tikv_parity::commit::{
    CommitOutcome, CommitRun, Phase, Progress, Reply, TxnStep, Verdict, WriteBatch,
};
use tikv_parity::mapping::{ClientError, ConflictInfo, KeyErrorInfo};
use tikv_parity::store::{prefix_upper_bound, LockMode, Scan, SCAN_PAGE};

#[test]
fn prefix_upper_bound_increments_last_byte() {
    assert_eq!(prefix_upper_bound(b"abc"), Some(b"abd".to_vec()));
    assert_eq!(
        prefix_upper_bound(b"dirent:p/"),
        Some(b"dirent:p0".to_vec())
    );
}

#[test]
fn prefix_upper_bound_carries_over_trailing_0xff() {
    assert_eq!(prefix_upper_bound(b"a\xff"), Some(b"b".to_vec()));
    assert_eq!(prefix_upper_bound(b"a\xff\xff"), Some(b"b".to_vec()));
}

#[test]
fn prefix_upper_bound_is_unbounded_when_no_successor_exists() {
    assert_eq!(prefix_upper_bound(b""), None);
    assert_eq!(prefix_upper_bound(b"\xff\xff"), None);
}

#[test]
fn the_bounds_hold_exactly_the_keys_under_the_prefix() {
    let keys: Vec<Vec<u8>> = (0u16..0x400)
        .map(|n| n.to_be_bytes().to_vec())
        .chain((0u8..=255).map(|b| vec![b]))
        .chain((0u8..=255).map(|b| vec![1, 0xff, b]))
        .collect();
    for prefix in [vec![], vec![1], vec![1, 0xff], vec![0xff], vec![0, 7]] {
        let upper = prefix_upper_bound(&prefix);
        for key in &keys {
            let within = *key >= prefix && upper.as_ref().map_or(true, |u| key < u);
            assert_eq!(within, key.starts_with(&prefix), "{prefix:?} {key:?}");
        }
    }
}

fn pairs(n: usize) -> Vec<(Vec<u8>, Vec<u8>)> {
    (0..n)
        .map(|i| (format!("p/{i:04}").into_bytes(), vec![(i % 256) as u8]))
        .collect()
}

#[test]
fn a_scan_pages_beyond_one_batch() {
    for n in [0, 1, 255, 256, 257, 512, 1000] {
        let all = pairs(n);
        let mut scan = Scan::new(b"p/");
        assert_eq!(scan.upper.as_deref(), Some(&b"p0"[..]));
        let mut pages = 0;
        while !scan.done {
            let page: Vec<_> = all
                .iter()
                .filter(|(k, _)| *k >= scan.cursor)
                .take(SCAN_PAGE as usize)
                .cloned()
                .collect();
            scan = scan.take_page(page);
            pages += 1;
        }
        assert_eq!(scan.found, all);
        assert_eq!(pages, n / SCAN_PAGE as usize + 1);
    }
    assert_eq!(SCAN_PAGE, 256);
    assert!(Scan::new(b"\xff").upper.is_none());
}

fn conflict() -> ClientError {
    ClientError::KeyError(KeyErrorInfo {
        conflict: Some(ConflictInfo {
            start_ts: 0,
            conflict_ts: 0,
            conflict_commit_ts: 0,
            reason: String::new(),
        }),
        already_exist: false,
        txn_not_found: None,
        locked: false,
        deadlock: false,
        assertion_failed: false,
        commit_ts_expired: false,
        commit_ts_too_large: false,
        retryable: String::new(),
        abort: String::new(),
        debug: String::new(),
    })
}

fn rename() -> WriteBatch {
    WriteBatch::new()
        .require(b"old".to_vec(), b"7".to_vec())
        .require_absent(b"new".to_vec())
        .put(b"new".to_vec(), b"7".to_vec())
        .delete(b"old".to_vec())
}

/// The steps that a commit takes when every one of them is answered as expected.
fn steps(mode: LockMode, batch: &WriteBatch) -> Vec<String> {
    let mut run = CommitRun::new(mode, batch);
    let mut out = vec![];
    loop {
        match run.progress() {
            Progress::Next(n) => {
                let (name, answer) = match run.step(n) {
                    TxnStep::GetForUpdate { key, expected } => (format!("get_for_update {}", name(key)), expected.clone()),
                    TxnStep::LockKey { key } => (format!("lock {}", name(key)), None),
                    TxnStep::Get { key, expected } => (format!("get {}", name(key)), expected.clone()),
                    TxnStep::Put { key, value } => (format!("put {}={}", name(key), name(value)), None),
                    TxnStep::Delete { key } => (format!("delete {}", name(key)), None),
                    TxnStep::Commit => ("commit".to_owned(), None),
                };
                out.push(name);
                run = run.advance(Reply::Answered(answer));
            }
            Progress::Ended(verdict) => {
                assert_eq!(verdict, Verdict::Committed);
                return out;
            }
            Progress::RollBack(_) => panic!("rolled back"),
        }
    }
}

fn name(bytes: &[u8]) -> String {
    String::from_utf8(bytes.to_vec()).unwrap()
}

#[test]
fn a_batch_is_checked_then_written_then_committed() {
    assert_eq!(
        steps(LockMode::Pessimistic, &rename()),
        ["get_for_update old", "get_for_update new", "put new=7", "delete old", "commit"]
    );
    assert_eq!(
        steps(LockMode::OptimisticLocked, &rename()),
        ["lock old", "get old", "lock new", "get new", "put new=7", "delete old", "commit"]
    );
    assert_eq!(
        steps(LockMode::OptimisticUnlocked, &rename()),
        ["get old", "get new", "put new=7", "delete old", "commit"]
    );
    assert_eq!(steps(LockMode::Pessimistic, &WriteBatch::new()), ["commit"]);
}

#[test]
fn a_precondition_that_does_not_hold_is_a_conflict_and_is_rolled_back() {
    for wrong in [None, Some(b"8".to_vec()), Some(b"77".to_vec())] {
        let run = CommitRun::new(LockMode::Pessimistic, &rename());
        let run = run.advance(Reply::Answered(wrong));
        let verdict = Verdict::Conflict { masked: None };
        assert_eq!(run.progress(), Progress::RollBack(verdict));
        assert_eq!(verdict.outcome(), Some(CommitOutcome::Conflict));
        let run = run.advance(Reply::Failed(ClientError::Grpc));
        assert_eq!(run.progress(), Progress::Ended(verdict));
        let run = run.advance(Reply::Answered(None));
        assert_eq!(run.progress(), Progress::Ended(verdict));
    }
    let run = CommitRun::new(LockMode::Pessimistic, &rename())
        .advance(Reply::Answered(Some(b"7".to_vec())))
        .advance(Reply::Answered(Some(b"taken".to_vec())));
    assert_eq!(
        run.progress(),
        Progress::RollBack(Verdict::Conflict { masked: None })
    );
}

fn at_commit() -> CommitRun {
    CommitRun::new(LockMode::Pessimistic, &WriteBatch::new().put(b"k".to_vec(), b"v".to_vec()))
        .advance(Reply::Answered(None))
}

#[test]
fn an_undetermined_commit_is_a_fault_and_is_never_rolled_back() {
    let run = at_commit().advance(Reply::Failed(ClientError::UndeterminedError));
    assert_eq!(run.progress(), Progress::Ended(Verdict::Fault));
    assert_eq!(Verdict::Fault.outcome(), None);
}

#[test]
fn a_lost_race_is_a_conflict_wherever_it_is_lost() {
    let lost = at_commit().advance(Reply::Failed(conflict()));
    assert_eq!(
        lost.progress(),
        Progress::RollBack(Verdict::Conflict { masked: None })
    );
    let masked = at_commit().advance(Reply::Failed(ClientError::MultipleKeyErrors(vec![
        conflict(),
        ClientError::StringError,
    ])));
    assert_eq!(
        masked.progress(),
        Progress::RollBack(Verdict::Conflict { masked: Some(Phase::Committing) })
    );
    let staging = CommitRun::new(LockMode::Pessimistic, &rename()).advance(Reply::Failed(
        ClientError::ExtractedErrors(vec![conflict(), ClientError::Io]),
    ));
    assert_eq!(
        staging.progress(),
        Progress::RollBack(Verdict::Conflict { masked: Some(Phase::Staging) })
    );
}

#[test]
fn a_fault_stays_a_fault_and_is_rolled_back() {
    let run = at_commit().advance(Reply::Failed(ClientError::Grpc));
    assert_eq!(run.progress(), Progress::RollBack(Verdict::Fault));
    let run = CommitRun::new(LockMode::OptimisticLocked, &rename())
        .advance(Reply::Failed(ClientError::UndeterminedError));
    assert_eq!(run.progress(), Progress::RollBack(Verdict::Fault));
    assert_eq!(Verdict::Committed.outcome(), Some(CommitOutcome::Committed));
}

#[test]
fn only_one_mode_begins_pessimistically() {
    assert!(LockMode::Pessimistic.pessimistic());
    assert!(!LockMode::OptimisticLocked.pessimistic());
    assert!(!LockMode::OptimisticUnlocked.pessimistic());
}
