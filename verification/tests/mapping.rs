use tikv_parity::class::Class;
use tikv_parity::commit::{is_lost_race, masks_fault};
use tikv_parity::json::{object_of, Json};
use tikv_parity::mapping::{
    classify, classify_inner, error_count, variant_name, ClientError, ConflictInfo, KeyErrorInfo,
};

fn info() -> KeyErrorInfo {
    KeyErrorInfo {
        conflict: None,
        already_exist: false,
        txn_not_found: None,
        locked: false,
        deadlock: false,
        assertion_failed: false,
        commit_ts_expired: false,
        commit_ts_too_large: false,
        retryable: String::new(),
        abort: String::new(),
        debug: "KeyError {}".to_owned(),
    }
}

fn conflict_info(start_ts: u64, conflict_ts: u64) -> ConflictInfo {
    ConflictInfo {
        start_ts,
        conflict_ts,
        conflict_commit_ts: 0,
        reason: "Unknown".to_owned(),
    }
}

fn key_error(f: impl FnOnce(&mut KeyErrorInfo)) -> ClientError {
    let mut ke = info();
    f(&mut ke);
    ClientError::KeyError(ke)
}

fn conflict() -> ClientError {
    key_error(|ke| ke.conflict = Some(conflict_info(0, 0)))
}

fn wrapped(inner: ClientError) -> ClientError {
    ClientError::PessimisticLockError { inner: Box::new(inner) }
}

fn empty() -> Json {
    Json::Object(vec![])
}

fn proto(message: &str, payload: Json) -> Option<Json> {
    Some(object_of("key_error", object_of(message, payload)))
}

#[test]
fn a_write_conflict_is_classified_from_the_proto() {
    let e = key_error(|ke| ke.conflict = Some(conflict_info(5, 7)));
    let obs = classify(&e, "KeyError(..)");
    assert_eq!(obs.class, Class::WriteConflict);
    assert!(
        obs.proto.is_some(),
        "the kvproto must be preserved as evidence"
    );
    assert_eq!(obs.native.unwrap().kind, "KeyError");
}

#[test]
fn multiple_and_extracted_share_a_class_but_not_a_native_type() {
    let inner = || key_error(|ke| ke.txn_not_found = Some(0));

    let multi = classify(&ClientError::MultipleKeyErrors(vec![inner()]), "m");
    let extracted = classify(&ClientError::ExtractedErrors(vec![inner()]), "e");

    assert_eq!(multi.class, Class::TxnNotFound);
    assert_eq!(extracted.class, Class::TxnNotFound, "same fact, same class");

    assert_eq!(multi.native.unwrap().kind, "MultipleKeyErrors");
    assert_eq!(extracted.native.unwrap().kind, "ExtractedErrors");
}

#[test]
fn a_homogeneous_multi_key_error_keeps_its_cardinality() {
    let one = classify(&ClientError::MultipleKeyErrors(vec![conflict()]), "1");
    let three = classify(
        &ClientError::MultipleKeyErrors(vec![conflict(), conflict(), conflict()]),
        "3",
    );

    assert_eq!(one.class, Class::WriteConflict);
    assert_eq!(three.class, Class::WriteConflict, "same fact, same class");
    assert_eq!(one.error_count, Some(1));
    assert_eq!(three.error_count, Some(3), "cardinality must survive");
}

#[test]
fn a_multi_key_error_whose_members_disagree_stays_mixed() {
    let e = ClientError::MultipleKeyErrors(vec![
        conflict(),
        key_error(|ke| ke.txn_not_found = Some(0)),
    ]);
    match classify(&e, "m").class {
        Class::Mixed { parts } => {
            assert!(parts.contains(&Class::WriteConflict));
            assert!(parts.contains(&Class::TxnNotFound));
        }
        other => panic!("expected Mixed, got {other:?}"),
    }
}

#[test]
fn a_pessimistic_lock_wrapper_is_unwrapped_to_the_inner_fact() {
    let e = wrapped(conflict());
    assert_eq!(classify(&e, "p").class, Class::WriteConflict);
}

#[test]
fn an_unrecognized_key_error_is_inadmissible_never_ok() {
    let obs = classify(&key_error(|_| {}), "k");
    assert!(matches!(obs.class, Class::Internal { .. }));
    assert!(!obs.class.is_admissible());
}

#[test]
fn an_unmapped_client_error_is_inadmissible() {
    let obs = classify(&ClientError::StringError, "StringError(\"who knows\")");
    assert!(
        !obs.class.is_admissible(),
        "an unmapped error must never settle a claim"
    );
}

#[test]
fn undetermined_is_never_confused_with_a_failure() {
    let e = ClientError::UndeterminedError;
    assert_eq!(classify(&e, "rpc died").class, Class::Undetermined);
}

#[test]
fn every_field_of_a_key_error_has_its_class_and_message() {
    let cases = [
        (key_error(|k| k.already_exist = true), Class::KeyExists, proto("already_exist", empty())),
        (
            key_error(|k| k.txn_not_found = Some(449)),
            Class::TxnNotFound,
            proto("txn_not_found", object_of("start_ts", Json::Number("449".to_owned()))),
        ),
        (key_error(|k| k.locked = true), Class::UnresolvedLock, proto("locked", empty())),
        (key_error(|k| k.deadlock = true), Class::Deadlock, proto("deadlock", empty())),
        (
            key_error(|k| k.assertion_failed = true),
            Class::AssertionFailed,
            proto("assertion_failed", empty()),
        ),
        (
            key_error(|k| k.commit_ts_expired = true),
            Class::CommitTsTooLarge,
            proto("commit_ts_too_large", empty()),
        ),
        (
            key_error(|k| k.commit_ts_too_large = true),
            Class::CommitTsTooLarge,
            proto("commit_ts_too_large", empty()),
        ),
        (
            key_error(|k| k.retryable = "again".to_owned()),
            Class::Retryable,
            proto("retryable", Json::Str("again".to_owned())),
        ),
        (
            key_error(|k| k.abort = "over".to_owned()),
            Class::Aborted,
            proto("abort", Json::Str("over".to_owned())),
        ),
        (
            key_error(|_| {}),
            Class::Internal {
                detail: "a kvrpcpb::KeyError with no recognized field: KeyError {}".to_owned(),
            },
            None,
        ),
    ];
    for (err, class, message) in cases {
        assert_eq!(classify_inner(&err), (class, message));
    }
    let (class, message) =
        classify_inner(&key_error(|k| k.conflict = Some(conflict_info(5, 7))));
    assert_eq!(class, Class::WriteConflict);
    let message = message.unwrap();
    let payload = message.get("key_error").unwrap().get("conflict").unwrap();
    assert_eq!(payload.get("start_ts").unwrap().as_u64(), Some(5));
    assert_eq!(payload.get("conflict_ts").unwrap().as_u64(), Some(7));
    assert_eq!(payload.get("conflict_commit_ts").unwrap().as_u64(), Some(0));
    assert_eq!(payload.get("reason").unwrap().as_str(), Some("Unknown"));
}

#[test]
fn every_error_has_its_class_and_name() {
    let region = || Class::RegionError;
    let rpc = || Class::RpcError;
    let unmapped = |name: &str| Class::Internal {
        detail: format!(
            "client-rust {name} has no arm in the parity vocabulary. Extend it deliberately \
             (both halves of the mapping table) — do NOT let it fall through to a plausible class."
        ),
    };
    let unsupported = |detail: &str| Class::Unsupported { detail: detail.to_owned() };
    let cases = [
        (
            ClientError::Unimplemented,
            "Unimplemented",
            unsupported("client-rust returned Error::Unimplemented"),
        ),
        (ClientError::DuplicateKeyInsertion, "DuplicateKeyInsertion", Class::KeyExists),
        (ClientError::ResolveLockError, "ResolveLockError", Class::UnresolvedLock),
        (
            ClientError::InvalidTransactionType,
            "InvalidTransactionType",
            unmapped("InvalidTransactionType"),
        ),
        (
            ClientError::OperationAfterCommitError,
            "OperationAfterCommitError",
            unmapped("OperationAfterCommitError"),
        ),
        (ClientError::OnePcFailure, "OnePcFailure", unmapped("OnePcFailure")),
        (ClientError::NoPrimaryKey, "NoPrimaryKey", unmapped("NoPrimaryKey")),
        (
            ClientError::UnsupportedMode,
            "UnsupportedMode",
            unsupported("client-rust returned Error::UnsupportedMode (raw atomic-mode gating)"),
        ),
        (ClientError::NoCurrentRegions, "NoCurrentRegions", region()),
        (ClientError::EntryNotFoundInRegionCache, "EntryNotFoundInRegionCache", region()),
        (ClientError::Io, "Io", rpc()),
        (ClientError::Channel, "Channel", rpc()),
        (ClientError::Grpc, "Grpc", rpc()),
        (ClientError::GrpcAPI, "GrpcAPI", rpc()),
        (ClientError::Url, "Url", rpc()),
        (ClientError::Canceled, "Canceled", rpc()),
        (ClientError::RegionError, "RegionError", region()),
        (ClientError::UndeterminedError, "UndeterminedError", Class::Undetermined),
        (ClientError::ColumnFamilyError, "ColumnFamilyError", unmapped("ColumnFamilyError")),
        (ClientError::JoinError, "JoinError", unmapped("JoinError")),
        (ClientError::RegionForKeyNotFound, "RegionForKeyNotFound", region()),
        (ClientError::RegionForRangeNotFound, "RegionForRangeNotFound", region()),
        (ClientError::RegionNotFoundInResponse, "RegionNotFoundInResponse", region()),
        (ClientError::LeaderNotFound, "LeaderNotFound", region()),
        (
            ClientError::MaxScanLimitExceeded,
            "MaxScanLimitExceeded",
            unmapped("MaxScanLimitExceeded"),
        ),
        (ClientError::InvalidSemver, "InvalidSemver", unmapped("InvalidSemver")),
        (ClientError::KvError, "KvError", unmapped("KvError")),
        (ClientError::InternalError, "InternalError", unmapped("InternalError")),
        (ClientError::StringError, "StringError", unmapped("StringError")),
        (ClientError::KeyspaceNotFound, "KeyspaceNotFound", unmapped("KeyspaceNotFound")),
        (ClientError::TxnNotFound, "TxnNotFound", Class::TxnNotFound),
        (
            ClientError::NestedRuntimeError,
            "NestedRuntimeError",
            unmapped("NestedRuntimeError"),
        ),
    ];
    for (err, name, class) in cases {
        assert_eq!(variant_name(&err), name);
        let obs = classify(&err, "display");
        assert_eq!(obs.class, class, "{name}");
        let native = obs.native.unwrap();
        assert_eq!((native.lang.as_str(), native.kind.as_str()), ("rust", name));
        assert_eq!(native.display, "display");
        assert_eq!(obs.error_count, None);
        assert!(!is_lost_race(&err));
        assert!(!masks_fault(&err));
    }
    assert_eq!(classify_inner(&ClientError::TxnNotFound).1, proto("txn_not_found", empty()));
    assert_eq!(classify_inner(&ClientError::ResolveLockError).1, proto("locked", empty()));
    assert_eq!(variant_name(&wrapped(ClientError::Io)), "PessimisticLockError");
}

#[test]
fn sets_of_errors_at_the_edges() {
    let none = ClientError::MultipleKeyErrors(vec![]);
    assert_eq!(
        classify_inner(&none),
        (
            Class::Internal {
                detail: "an empty multi-key error carries no fact at all".to_owned()
            },
            None
        )
    );
    assert_eq!(error_count(&none), Some(0));
    // The first message stands for a set that agrees.
    let agreed = ClientError::ExtractedErrors(vec![
        key_error(|k| k.txn_not_found = Some(1)),
        key_error(|k| k.txn_not_found = Some(2)),
    ]);
    assert_eq!(
        classify_inner(&agreed).1,
        proto("txn_not_found", object_of("start_ts", Json::Number("1".to_owned())))
    );
    assert_eq!(error_count(&wrapped(agreed)), Some(2));
    // One member that cannot be evidence taints the set.
    let tainted = ClientError::MultipleKeyErrors(vec![conflict(), ClientError::StringError]);
    assert!(!classify(&tainted, "t").class.is_admissible());
}

#[test]
fn write_conflict_key_error_is_a_lost_race() {
    assert!(is_lost_race(&conflict()));
}

#[test]
fn lost_race_is_found_through_pessimistic_lock_wrapper() {
    let err = wrapped(conflict());
    assert!(is_lost_race(&err));
}

#[test]
fn other_key_errors_and_faults_are_not_conflicts() {
    let retry = key_error(|k| k.retryable = "restart".to_owned());
    assert!(!is_lost_race(&retry));
    let fault = ClientError::StringError;
    assert!(!is_lost_race(&fault));
}

#[test]
fn a_txn_not_found_is_not_a_lost_race() {
    let poison = ClientError::MultipleKeyErrors(vec![key_error(|k| k.txn_not_found = Some(0))]);
    assert!(!is_lost_race(&poison));
}

#[test]
fn one_conflict_in_a_set_is_a_lost_race_that_may_mask_a_fault() {
    let mixed = ClientError::ExtractedErrors(vec![ClientError::StringError, conflict()]);
    assert!(is_lost_race(&mixed));
    assert!(masks_fault(&mixed));
    let pure = ClientError::MultipleKeyErrors(vec![conflict(), wrapped(conflict())]);
    assert!(is_lost_race(&pure));
    assert!(!masks_fault(&pure));
    assert!(!masks_fault(&wrapped(mixed)));
}
