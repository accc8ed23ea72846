use tikv_parity::class::Class;

#[test]
fn the_three_inadmissible_classes_are_inadmissible() {
    let d = "x".to_owned();
    assert!(!Class::Internal { detail: d.clone() }.is_admissible());
    assert!(!Class::DriverError { detail: d }.is_admissible());
    assert!(!Class::RegionError.is_admissible());
}

#[test]
fn unsupported_is_a_real_answer_not_a_failure() {
    let c = Class::Unsupported {
        detail: "client-rust has no RawKV checksum".to_owned(),
    };
    assert!(c.is_admissible());
    assert!(c.inadmissible_reason().is_none());
}

#[test]
fn a_mixed_error_hiding_an_unmapped_part_is_inadmissible() {
    let c = Class::Mixed {
        parts: vec![
            Class::WriteConflict,
            Class::Internal {
                detail: "???".to_owned(),
            },
        ],
    };
    assert!(!c.is_admissible());
    assert!(c.inadmissible_reason().unwrap().contains("mapping table"));
}

#[test]
fn every_refusal_has_its_reason() {
    assert_eq!(
        Class::Internal { detail: "d".to_owned() }.inadmissible_reason().unwrap(),
        "an error with no arm in the driver's mapping table: d. The taxonomy must be EXTENDED \
         (a reviewed act), not silently widened — an unmapped error that became `ok` would be a \
         false green."
    );
    assert_eq!(
        Class::DriverError { detail: "d".to_owned() }.inadmissible_reason().unwrap(),
        "the harness itself failed: d"
    );
    assert_eq!(
        Class::RegionError.inadmissible_reason().unwrap(),
        "a region error — a CLUSTER event, not client behaviour. The run says nothing about \
         either client."
    );
}

#[test]
fn the_first_bad_part_gives_the_reason_of_a_mixed_error() {
    let c = Class::Mixed {
        parts: vec![
            Class::Deadlock,
            Class::DriverError { detail: "first".to_owned() },
            Class::RegionError,
        ],
    };
    assert_eq!(c.inadmissible_reason().unwrap(), "the harness itself failed: first");
    assert!(Class::Mixed { parts: vec![] }.is_admissible());
}

#[test]
fn tags_are_stable_and_distinct() {
    let all = [
        (Class::Success, "ok"),
        (Class::NotFound, "not_found"),
        (Class::WriteConflict, "write_conflict"),
        (Class::KeyExists, "key_exists"),
        (Class::TxnNotFound, "txn_not_found"),
        (Class::UnresolvedLock, "unresolved_lock"),
        (Class::Deadlock, "deadlock"),
        (Class::AssertionFailed, "assertion_failed"),
        (Class::Retryable, "retryable"),
        (Class::Aborted, "aborted"),
        (Class::CommitTsTooLarge, "commit_ts_too_large"),
        (Class::LockWaitTimeout, "lock_wait_timeout"),
        (Class::Undetermined, "undetermined"),
        (Class::RegionError, "region_error"),
        (Class::PdError, "pd_error"),
        (Class::RpcError, "rpc_error"),
        (Class::Mixed { parts: vec![] }, "mixed"),
        (Class::Unsupported { detail: String::new() }, "unsupported"),
        (Class::DriverError { detail: String::new() }, "driver_error"),
        (Class::Internal { detail: String::new() }, "internal"),
    ];
    for (i, (class, tag)) in all.iter().enumerate() {
        assert_eq!(class.tag(), *tag);
        for (j, (other, _)) in all.iter().enumerate() {
            assert_eq!(class.tag() == other.tag(), i == j);
            assert_eq!(class.same(other), i == j);
        }
        assert_eq!(&class.clone(), class);
    }
}

#[test]
fn classes_of_one_kind_may_still_differ() {
    let a = Class::Mixed { parts: vec![Class::Success, Class::NotFound] };
    let b = Class::Mixed { parts: vec![Class::NotFound, Class::Success] };
    assert!(!a.same(&b));
    assert!(a.same(&a.clone()));
    assert!(!Class::Internal { detail: "a".to_owned() }
        .same(&Class::Internal { detail: "b".to_owned() }));
}
