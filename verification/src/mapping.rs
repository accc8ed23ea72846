//! The mapping table: what a client's error means in the canonical vocabulary.
//!
//! The class is a projection of what the server said. The client's own error is always carried
//! beside it, so that a call made here can be overturned from the evidence. An error that has no
//! place in the table is inadmissible: it never becomes a success or a plausible failure.

use vstd::prelude::*;
use vstd::string::*;

use crate::class::{class_views, Class, ClassView};
use crate::json::{member, member_views, object_of, singleton, Json, JsonView};
use crate::observation::{NativeObs, Observation};
use crate::order::text_same;
use crate::text::{decimal, decimal_text};

verus! {

/// An error of the client, reduced to what the table reads.
#[derive(Debug)]
pub enum ClientError {
    Unimplemented,
    DuplicateKeyInsertion,
    ResolveLockError,
    InvalidTransactionType,
    OperationAfterCommitError,
    OnePcFailure,
    NoPrimaryKey,
    UnsupportedMode,
    NoCurrentRegions,
    EntryNotFoundInRegionCache,
    Io,
    Channel,
    Grpc,
    GrpcAPI,
    Url,
    Canceled,
    RegionError,
    /// The outcome of a commit is unknown.
    UndeterminedError,
    KeyError(KeyErrorInfo),
    ExtractedErrors(Vec<ClientError>),
    MultipleKeyErrors(Vec<ClientError>),
    ColumnFamilyError,
    JoinError,
    RegionForKeyNotFound,
    RegionForRangeNotFound,
    RegionNotFoundInResponse,
    LeaderNotFound,
    MaxScanLimitExceeded,
    InvalidSemver,
    KvError,
    InternalError,
    StringError,
    /// Acquiring a pessimistic lock failed, for the reason inside.
    PessimisticLockError { inner: Box<ClientError> },
    KeyspaceNotFound,
    TxnNotFound,
    NestedRuntimeError,
}

/// What the server said of a key.
#[derive(Debug)]
pub struct KeyErrorInfo {
    pub conflict: Option<ConflictInfo>,
    pub already_exist: bool,
    /// The start timestamp of the transaction that was not found.
    pub txn_not_found: Option<u64>,
    pub locked: bool,
    pub deadlock: bool,
    pub assertion_failed: bool,
    pub commit_ts_expired: bool,
    pub commit_ts_too_large: bool,
    pub retryable: String,
    pub abort: String,
    /// The message as the client prints it.
    pub debug: String,
}

/// A lost write-write race.
#[derive(Debug)]
pub struct ConflictInfo {
    pub start_ts: u64,
    pub conflict_ts: u64,
    pub conflict_commit_ts: u64,
    pub reason: String,
}

/// The value `{"key_error": {message: payload}}`.
pub open spec fn key_error(message: Seq<char>, payload: JsonView) -> JsonView {
    singleton("key_error"@, singleton(message, payload))
}

/// The empty object.
pub open spec fn no_payload() -> JsonView {
    JsonView::Object(Seq::empty())
}

/// What is carried of a lost race.
pub open spec fn conflict_payload(c: ConflictInfo) -> JsonView {
    JsonView::Object(
        seq![
            ("start_ts"@, JsonView::Number(decimal(c.start_ts as nat))),
            ("conflict_ts"@, JsonView::Number(decimal(c.conflict_ts as nat))),
            ("conflict_commit_ts"@, JsonView::Number(decimal(c.conflict_commit_ts as nat))),
            ("reason"@, JsonView::Str(c.reason@)),
        ],
    )
}

impl KeyErrorInfo {
    /// The class of what the server said of a key: the first field that it set.
    pub open spec fn class(self) -> ClassView {
        if self.conflict is Some {
            ClassView::WriteConflict
        } else if self.already_exist {
            ClassView::KeyExists
        } else if self.txn_not_found is Some {
            ClassView::TxnNotFound
        } else if self.locked {
            ClassView::UnresolvedLock
        } else if self.deadlock {
            ClassView::Deadlock
        } else if self.assertion_failed {
            ClassView::AssertionFailed
        } else if self.commit_ts_expired || self.commit_ts_too_large {
            ClassView::CommitTsTooLarge
        } else if self.retryable@.len() > 0 {
            ClassView::Retryable
        } else if self.abort@.len() > 0 {
            ClassView::Aborted
        } else {
            ClassView::Internal {
                detail: "a kvrpcpb::KeyError with no recognized field: "@ + self.debug@,
            }
        }
    }

    /// The message that carried it.
    pub open spec fn proto(self) -> Option<JsonView> {
        if self.conflict is Some {
            Some(key_error("conflict"@, conflict_payload(self.conflict->0)))
        } else if self.already_exist {
            Some(key_error("already_exist"@, no_payload()))
        } else if self.txn_not_found is Some {
            Some(
                key_error(
                    "txn_not_found"@,
                    singleton(
                        "start_ts"@,
                        JsonView::Number(decimal(self.txn_not_found->0 as nat)),
                    ),
                ),
            )
        } else if self.locked {
            Some(key_error("locked"@, no_payload()))
        } else if self.deadlock {
            Some(key_error("deadlock"@, no_payload()))
        } else if self.assertion_failed {
            Some(key_error("assertion_failed"@, no_payload()))
        } else if self.commit_ts_expired || self.commit_ts_too_large {
            Some(key_error("commit_ts_too_large"@, no_payload()))
        } else if self.retryable@.len() > 0 {
            Some(key_error("retryable"@, JsonView::Str(self.retryable@)))
        } else if self.abort@.len() > 0 {
            Some(key_error("abort"@, JsonView::Str(self.abort@)))
        } else {
            None
        }
    }
}

/// Every part is like the first.
pub open spec fn unanimous(parts: Seq<ClassView>) -> bool {
    forall|i: int| 0 <= i < parts.len() ==> #[trigger] parts[i] == parts[0]
}

/// The class of a set of errors: the one that its members agree on, or all of theirs.
pub open spec fn combined(parts: Seq<ClassView>) -> ClassView {
    if parts.len() == 0 {
        ClassView::Internal { detail: "an empty multi-key error carries no fact at all"@ }
    } else if unanimous(parts) {
        parts[0]
    } else {
        ClassView::Mixed { parts }
    }
}

/// Why an error that is not in the table cannot be evidence.
pub open spec fn unmapped_text(name: Seq<char>) -> Seq<char> {
    "client-rust "@ + name
        + " has no arm in the parity vocabulary. Extend it deliberately (both halves of the mapping table) — do NOT let it fall through to a plausible class."@
}

/// The classes of the errors.
pub open spec fn error_classes(errs: Seq<ClientError>) -> Seq<ClassView>
    decreases errs,
{
    Seq::new(
        errs.len(),
        |i: int|
            if 0 <= i < errs.len() {
                error_class(errs[i])
            } else {
                ClassView::Success
            },
    )
}

/// The class of an error.
pub open spec fn error_class(err: ClientError) -> ClassView
    decreases err,
{
    match err {
        ClientError::KeyError(info) => info.class(),
        ClientError::MultipleKeyErrors(errs) => combined(error_classes(errs@)),
        ClientError::ExtractedErrors(errs) => combined(error_classes(errs@)),
        ClientError::PessimisticLockError { inner } => error_class(*inner),
        ClientError::UndeterminedError => ClassView::Undetermined,
        ClientError::TxnNotFound => ClassView::TxnNotFound,
        ClientError::ResolveLockError => ClassView::UnresolvedLock,
        ClientError::DuplicateKeyInsertion => ClassView::KeyExists,
        ClientError::RegionError => ClassView::RegionError,
        ClientError::NoCurrentRegions => ClassView::RegionError,
        ClientError::EntryNotFoundInRegionCache => ClassView::RegionError,
        ClientError::RegionForKeyNotFound => ClassView::RegionError,
        ClientError::RegionForRangeNotFound => ClassView::RegionError,
        ClientError::RegionNotFoundInResponse => ClassView::RegionError,
        ClientError::LeaderNotFound => ClassView::RegionError,
        ClientError::Io => ClassView::RpcError,
        ClientError::Channel => ClassView::RpcError,
        ClientError::Grpc => ClassView::RpcError,
        ClientError::GrpcAPI => ClassView::RpcError,
        ClientError::Url => ClassView::RpcError,
        ClientError::Canceled => ClassView::RpcError,
        ClientError::Unimplemented => ClassView::Unsupported {
            detail: "client-rust returned Error::Unimplemented"@,
        },
        ClientError::UnsupportedMode => ClassView::Unsupported {
            detail: "client-rust returned Error::UnsupportedMode (raw atomic-mode gating)"@,
        },
        ClientError::InvalidTransactionType
        | ClientError::OperationAfterCommitError
        | ClientError::OnePcFailure
        | ClientError::NoPrimaryKey
        | ClientError::ColumnFamilyError
        | ClientError::JoinError
        | ClientError::MaxScanLimitExceeded
        | ClientError::InvalidSemver
        | ClientError::KvError
        | ClientError::InternalError
        | ClientError::StringError
        | ClientError::KeyspaceNotFound
        | ClientError::NestedRuntimeError => ClassView::Internal {
            detail: unmapped_text(error_name(err)),
        },
    }
}

/// The message that an error carried.
pub open spec fn error_proto(err: ClientError) -> Option<JsonView>
    decreases err,
{
    match err {
        ClientError::KeyError(info) => info.proto(),
        ClientError::MultipleKeyErrors(errs) => if errs@.len() > 0 && unanimous(
            error_classes(errs@),
        ) {
            error_proto(errs@[0])
        } else {
            None
        },
        ClientError::ExtractedErrors(errs) => if errs@.len() > 0 && unanimous(
            error_classes(errs@),
        ) {
            error_proto(errs@[0])
        } else {
            None
        },
        ClientError::PessimisticLockError { inner } => error_proto(*inner),
        ClientError::TxnNotFound => Some(key_error("txn_not_found"@, no_payload())),
        ClientError::ResolveLockError => Some(key_error("locked"@, no_payload())),
        _ => None,
    }
}

/// How many per-key errors there are, where the error is a set of them.
pub open spec fn per_key_errors(err: ClientError) -> Option<nat>
    decreases err,
{
    match err {
        ClientError::MultipleKeyErrors(errs) => Some(errs@.len()),
        ClientError::ExtractedErrors(errs) => Some(errs@.len()),
        ClientError::PessimisticLockError { inner } => per_key_errors(*inner),
        _ => None,
    }
}

/// The client's own name of the error.
pub open spec fn error_name(err: ClientError) -> Seq<char> {
    match err {
        ClientError::Unimplemented => "Unimplemented"@,
        ClientError::DuplicateKeyInsertion => "DuplicateKeyInsertion"@,
        ClientError::ResolveLockError => "ResolveLockError"@,
        ClientError::InvalidTransactionType => "InvalidTransactionType"@,
        ClientError::OperationAfterCommitError => "OperationAfterCommitError"@,
        ClientError::OnePcFailure => "OnePcFailure"@,
        ClientError::NoPrimaryKey => "NoPrimaryKey"@,
        ClientError::UnsupportedMode => "UnsupportedMode"@,
        ClientError::NoCurrentRegions => "NoCurrentRegions"@,
        ClientError::EntryNotFoundInRegionCache => "EntryNotFoundInRegionCache"@,
        ClientError::Io => "Io"@,
        ClientError::Channel => "Channel"@,
        ClientError::Grpc => "Grpc"@,
        ClientError::GrpcAPI => "GrpcAPI"@,
        ClientError::Url => "Url"@,
        ClientError::Canceled => "Canceled"@,
        ClientError::RegionError => "RegionError"@,
        ClientError::UndeterminedError => "UndeterminedError"@,
        ClientError::KeyError(_) => "KeyError"@,
        ClientError::ExtractedErrors(_) => "ExtractedErrors"@,
        ClientError::MultipleKeyErrors(_) => "MultipleKeyErrors"@,
        ClientError::ColumnFamilyError => "ColumnFamilyError"@,
        ClientError::JoinError => "JoinError"@,
        ClientError::RegionForKeyNotFound => "RegionForKeyNotFound"@,
        ClientError::RegionForRangeNotFound => "RegionForRangeNotFound"@,
        ClientError::RegionNotFoundInResponse => "RegionNotFoundInResponse"@,
        ClientError::LeaderNotFound => "LeaderNotFound"@,
        ClientError::MaxScanLimitExceeded => "MaxScanLimitExceeded"@,
        ClientError::InvalidSemver => "InvalidSemver"@,
        ClientError::KvError => "KvError"@,
        ClientError::InternalError => "InternalError"@,
        ClientError::StringError => "StringError"@,
        ClientError::PessimisticLockError { .. } => "PessimisticLockError"@,
        ClientError::KeyspaceNotFound => "KeyspaceNotFound"@,
        ClientError::TxnNotFound => "TxnNotFound"@,
        ClientError::NestedRuntimeError => "NestedRuntimeError"@,
    }
}

/// The client's own name of the error.
pub fn variant_name(err: &ClientError) -> (r: &'static str)
    ensures
        r@ == error_name(*err),
{
    match err {
        ClientError::Unimplemented => "Unimplemented",
        ClientError::DuplicateKeyInsertion => "DuplicateKeyInsertion",
        ClientError::ResolveLockError => "ResolveLockError",
        ClientError::InvalidTransactionType => "InvalidTransactionType",
        ClientError::OperationAfterCommitError => "OperationAfterCommitError",
        ClientError::OnePcFailure => "OnePcFailure",
        ClientError::NoPrimaryKey => "NoPrimaryKey",
        ClientError::UnsupportedMode => "UnsupportedMode",
        ClientError::NoCurrentRegions => "NoCurrentRegions",
        ClientError::EntryNotFoundInRegionCache => "EntryNotFoundInRegionCache",
        ClientError::Io => "Io",
        ClientError::Channel => "Channel",
        ClientError::Grpc => "Grpc",
        ClientError::GrpcAPI => "GrpcAPI",
        ClientError::Url => "Url",
        ClientError::Canceled => "Canceled",
        ClientError::RegionError => "RegionError",
        ClientError::UndeterminedError => "UndeterminedError",
        ClientError::KeyError(_) => "KeyError",
        ClientError::ExtractedErrors(_) => "ExtractedErrors",
        ClientError::MultipleKeyErrors(_) => "MultipleKeyErrors",
        ClientError::ColumnFamilyError => "ColumnFamilyError",
        ClientError::JoinError => "JoinError",
        ClientError::RegionForKeyNotFound => "RegionForKeyNotFound",
        ClientError::RegionForRangeNotFound => "RegionForRangeNotFound",
        ClientError::RegionNotFoundInResponse => "RegionNotFoundInResponse",
        ClientError::LeaderNotFound => "LeaderNotFound",
        ClientError::MaxScanLimitExceeded => "MaxScanLimitExceeded",
        ClientError::InvalidSemver => "InvalidSemver",
        ClientError::KvError => "KvError",
        ClientError::InternalError => "InternalError",
        ClientError::StringError => "StringError",
        ClientError::PessimisticLockError { .. } => "PessimisticLockError",
        ClientError::KeyspaceNotFound => "KeyspaceNotFound",
        ClientError::TxnNotFound => "TxnNotFound",
        ClientError::NestedRuntimeError => "NestedRuntimeError",
    }
}

/// How many per-key errors the client surfaced, if it surfaced a set of them.
pub fn error_count(err: &ClientError) -> (r: Option<usize>)
    ensures
        match r {
            Some(n) => per_key_errors(*err) == Some(n as nat),
            None => per_key_errors(*err) is None,
        },
    decreases err,
{
    match err {
        ClientError::MultipleKeyErrors(errs) => Some(errs.len()),
        ClientError::ExtractedErrors(errs) => Some(errs.len()),
        ClientError::PessimisticLockError { inner } => error_count(inner),
        _ => None,
    }
}

/// What a value says, where there is one.
pub open spec fn opt_json(json: Option<Json>) -> Option<JsonView> {
    match json {
        Some(j) => Some(j@),
        None => None,
    }
}

/// The value `{"key_error": {message: payload}}`.
fn key_error_json(message: &str, payload: Json) -> (r: Option<Json>)
    ensures
        opt_json(r) == Some(key_error(message@, payload@)),
{
    Some(object_of("key_error", object_of(message, payload)))
}

/// The empty object.
fn no_fields() -> (r: Json)
    ensures
        r@ == no_payload(),
{
    let members: Vec<(String, Json)> = Vec::new();
    proof {
        assert(member_views(members@) =~= Seq::empty());
    }
    Json::Object(members)
}

/// The number `n`.
fn number(n: u64) -> (r: Json)
    ensures
        r@ == JsonView::Number(decimal(n as nat)),
{
    Json::Number(decimal_text(n as u128))
}

/// What is carried of a lost race.
fn conflict_fields(c: &ConflictInfo) -> (r: Json)
    ensures
        r@ == conflict_payload(*c),
{
    let reason: Json = Json::Str(c.reason.clone());
    let mut members: Vec<(String, Json)> = Vec::new();
    members.push(("start_ts".to_owned(), number(c.start_ts)));
    members.push(("conflict_ts".to_owned(), number(c.conflict_ts)));
    members.push(("conflict_commit_ts".to_owned(), number(c.conflict_commit_ts)));
    members.push(("reason".to_owned(), reason));
    proof {
        assert(reason@ == JsonView::Str(c.reason@));
        assert(member_views(members@) =~= conflict_payload(*c)->Object_0);
    }
    Json::Object(members)
}

/// Is the text empty?
fn no_text(s: &str) -> (r: bool)
    ensures
        r == (s@.len() == 0),
{
    let r: bool = text_same(s, "");
    proof {
        reveal_strlit("");
        assert(""@.len() == 0);
        if s@.len() == 0 {
            assert(s@ =~= ""@);
        }
    }
    r
}

/// Read the fact straight off what the server said of a key.
pub fn classify_key_error(info: &KeyErrorInfo) -> (r: (Class, Option<Json>))
    ensures
        r.0@ == info.class(),
        opt_json(r.1) == info.proto(),
{
    if let Some(c) = &info.conflict {
        return (Class::WriteConflict, key_error_json("conflict", conflict_fields(c)));
    }
    if info.already_exist {
        return (Class::KeyExists, key_error_json("already_exist", no_fields()));
    }
    if let Some(start_ts) = info.txn_not_found {
        return (
            Class::TxnNotFound,
            key_error_json("txn_not_found", object_of("start_ts", number(start_ts))),
        );
    }
    if info.locked {
        return (Class::UnresolvedLock, key_error_json("locked", no_fields()));
    }
    if info.deadlock {
        return (Class::Deadlock, key_error_json("deadlock", no_fields()));
    }
    if info.assertion_failed {
        return (Class::AssertionFailed, key_error_json("assertion_failed", no_fields()));
    }
    if info.commit_ts_expired || info.commit_ts_too_large {
        return (Class::CommitTsTooLarge, key_error_json("commit_ts_too_large", no_fields()));
    }
    if !no_text(info.retryable.as_str()) {
        return (
            Class::Retryable,
            key_error_json("retryable", Json::Str(info.retryable.clone())),
        );
    }
    if !no_text(info.abort.as_str()) {
        return (Class::Aborted, key_error_json("abort", Json::Str(info.abort.clone())));
    }
    let mut detail: String = "a kvrpcpb::KeyError with no recognized field: ".to_owned();
    detail.append(info.debug.as_str());
    (Class::Internal { detail }, None)
}

/// What is said of an error with no place in the table.
fn unmapped(err: &ClientError) -> (r: Class)
    ensures
        r@ == (ClassView::Internal { detail: unmapped_text(error_name(*err)) }),
{
    let mut detail: String = "client-rust ".to_owned();
    detail.append(variant_name(err));
    detail.append(
        " has no arm in the parity vocabulary. Extend it deliberately (both halves of the mapping table) — do NOT let it fall through to a plausible class.",
    );
    Class::Internal { detail }
}

/// Does every class say what the first says?
fn all_same(parts: &Vec<Class>) -> (r: bool)
    requires
        parts@.len() > 0,
    ensures
        r == unanimous(class_views(parts@)),
{
    let ghost views = class_views(parts@);
    let mut i: usize = 1;
    while i < parts.len()
        invariant
            views == class_views(parts@),
            1 <= i <= parts@.len(),
            forall|j: int| 0 <= j < i ==> #[trigger] views[j] == views[0],
        decreases parts@.len() - i,
    {
        if !parts[i].same(&parts[0]) {
            assert(views[i as int] != views[0]);
            return false;
        }
        i = i + 1;
    }
    true
}

/// The class of a set of errors, with the message of the first where all agree.
fn classify_set(errs: &Vec<ClientError>) -> (r: (Class, Option<Json>))
    ensures
        r.0@ == combined(error_classes(errs@)),
        opt_json(r.1) == if errs@.len() > 0 && unanimous(error_classes(errs@)) {
            error_proto(errs@[0])
        } else {
            None
        },
    decreases errs@,
{
    let mut parts: Vec<Class> = Vec::new();
    let mut first_proto: Option<Json> = None;
    let mut i: usize = 0;
    while i < errs.len()
        invariant
            i <= errs@.len(),
            parts@.len() == i,
            forall|j: int| 0 <= j < i ==> (#[trigger] parts@[j])@ == error_class(errs@[j]),
            i > 0 ==> opt_json(first_proto) == error_proto(errs@[0]),
        decreases errs@, errs@.len() - i,
    {
        let (class, proto): (Class, Option<Json>) = classify_inner(&errs[i]);
        if i == 0 {
            first_proto = proto;
        }
        parts.push(class);
        i = i + 1;
    }
    proof {
        assert(class_views(parts@) =~= error_classes(errs@));
    }
    if parts.len() == 0 {
        return (
            Class::Internal {
                detail: "an empty multi-key error carries no fact at all".to_owned(),
            },
            None,
        );
    }
    if all_same(&parts) {
        // All members agree: report the single fact, not a one-element set.
        let first: Class = parts[0].clone();
        proof {
            assert(error_classes(errs@)[0] == parts@[0]@);
        }
        return (first, first_proto);
    }
    (Class::Mixed { parts }, None)
}

/// The class of an error, and the message that it came from.
pub fn classify_inner(err: &ClientError) -> (r: (Class, Option<Json>))
    ensures
        r.0@ == error_class(*err),
        opt_json(r.1) == error_proto(*err),
    decreases err,
{
    match err {
        ClientError::KeyError(info) => classify_key_error(info),
        // Not flattened to a primary error: one of three is not three of three.
        ClientError::MultipleKeyErrors(errs) => classify_set(errs),
        ClientError::ExtractedErrors(errs) => classify_set(errs),
        // The error inside is the fact.
        ClientError::PessimisticLockError { inner } => classify_inner(inner),
        // The commit may have landed. Never roll back on this.
        ClientError::UndeterminedError => (Class::Undetermined, None),
        ClientError::TxnNotFound => (
            Class::TxnNotFound,
            key_error_json("txn_not_found", no_fields()),
        ),
        ClientError::ResolveLockError => (
            Class::UnresolvedLock,
            key_error_json("locked", no_fields()),
        ),
        // A check in the client's own buffer: no server said it, so there is no message.
        ClientError::DuplicateKeyInsertion => (Class::KeyExists, None),
        // The cluster moved: the runner runs the scenario again rather than report it.
        ClientError::RegionError
        | ClientError::NoCurrentRegions
        | ClientError::EntryNotFoundInRegionCache
        | ClientError::RegionForKeyNotFound
        | ClientError::RegionForRangeNotFound
        | ClientError::RegionNotFoundInResponse
        | ClientError::LeaderNotFound => (Class::RegionError, None),
        ClientError::Io
        | ClientError::Channel
        | ClientError::Grpc
        | ClientError::GrpcAPI
        | ClientError::Url
        | ClientError::Canceled => (Class::RpcError, None),
        ClientError::Unimplemented => (
            Class::Unsupported { detail: "client-rust returned Error::Unimplemented".to_owned() },
            None,
        ),
        ClientError::UnsupportedMode => (
            Class::Unsupported {
                detail: "client-rust returned Error::UnsupportedMode (raw atomic-mode gating)".to_owned(),
            },
            None,
        ),
        ClientError::InvalidTransactionType
        | ClientError::OperationAfterCommitError
        | ClientError::OnePcFailure
        | ClientError::NoPrimaryKey
        | ClientError::ColumnFamilyError
        | ClientError::JoinError
        | ClientError::MaxScanLimitExceeded
        | ClientError::InvalidSemver
        | ClientError::KvError
        | ClientError::InternalError
        | ClientError::StringError
        | ClientError::KeyspaceNotFound
        | ClientError::NestedRuntimeError => (unmapped(err), None),
    }
}

/// The observation of an error that the client prints as `display`.
pub open spec fn observed_error(err: ClientError, display: Seq<char>, obs: Observation) -> bool {
    &&& obs.class@ == error_class(err)
    &&& opt_json(obs.proto) == error_proto(err)
    &&& obs.native matches Some(native) && native.lang@ == "rust"@ && native.kind@ == error_name(err)
        && native.display@ == display
    &&& match obs.error_count {
        Some(n) => per_key_errors(err) == Some(n as nat),
        None => per_key_errors(err) is None,
    }
    &&& obs.value is None
    &&& obs.locks@.len() == 0
    &&& obs.start_ts is None
    &&& obs.commit_ts is None
}

/// Map a client's error onto the canonical vocabulary, and keep the error beside it.
///
/// How many errors a set held survives beside the class that they agree on: one conflict and
/// three conflicts are one class and two counts.
pub fn classify(err: &ClientError, display: &str) -> (r: Observation)
    ensures
        observed_error(*err, display@, r),
{
    let native: NativeObs = NativeObs::new("rust", variant_name(err), display);
    let (class, proto): (Class, Option<Json>) = classify_inner(err);
    let mut obs: Observation = Observation::new(class).with_native(native);
    if let Some(p) = proto {
        obs = obs.with_proto(p);
    }
    if let Some(n) = error_count(err) {
        obs = obs.with_error_count(n);
    }
    obs
}

/// The two names of a set of errors are one fact: the class, the message and the count are the
/// same, and only the client's own name of the error tells them apart.
pub proof fn multiple_and_extracted_are_one_fact(errs: Vec<ClientError>)
    ensures
        ({
            let m = ClientError::MultipleKeyErrors(errs);
            let e = ClientError::ExtractedErrors(errs);
            &&& error_class(m) == error_class(e)
            &&& error_proto(m) == error_proto(e)
            &&& per_key_errors(m) == per_key_errors(e)
            &&& error_name(m) != error_name(e)
        }),
{
    reveal_strlit("MultipleKeyErrors");
    reveal_strlit("ExtractedErrors");
    assert("MultipleKeyErrors"@[0] == 'M');
    assert("ExtractedErrors"@[0] == 'E');
}

/// The lock request that an error was met in is transparent: the class, the message and the count
/// are those of the error inside. Only the client's own name of the error tells that it was there.
pub proof fn a_lock_request_is_transparent(inner: ClientError)
    ensures
        ({
            let outer = ClientError::PessimisticLockError { inner: Box::new(inner) };
            &&& error_class(outer) == error_class(inner)
            &&& error_proto(outer) == error_proto(inner)
            &&& per_key_errors(outer) == per_key_errors(inner)
            &&& error_name(outer) == "PessimisticLockError"@
        }),
{
}

/// The class of a key error is decided by the first field that the server set, in this order, and by
/// nothing else.
pub proof fn the_first_field_decides_the_class(info: KeyErrorInfo)
    ensures
        ({
            let class = info.class();
            let a = info.conflict is Some;
            let b = a || info.already_exist;
            let c = b || info.txn_not_found is Some;
            let d = c || info.locked;
            let e = d || info.deadlock;
            let f = e || info.assertion_failed;
            let g = f || info.commit_ts_expired || info.commit_ts_too_large;
            let h = g || info.retryable@.len() > 0;
            let i = h || info.abort@.len() > 0;
            &&& class is WriteConflict <==> a
            &&& class is KeyExists <==> b && !a
            &&& class is TxnNotFound <==> c && !b
            &&& class is UnresolvedLock <==> d && !c
            &&& class is Deadlock <==> e && !d
            &&& class is AssertionFailed <==> f && !e
            &&& class is CommitTsTooLarge <==> g && !f
            &&& class is Retryable <==> h && !g
            &&& class is Aborted <==> i && !h
            &&& class is Internal <==> !i
            &&& class is Internal ==> class->Internal_detail
                == "a kvrpcpb::KeyError with no recognized field: "@ + info.debug@
            &&& info.proto() is Some <==> i
            &&& error_class(ClientError::KeyError(info)) == class
            &&& error_proto(ClientError::KeyError(info)) == info.proto()
            &&& per_key_errors(ClientError::KeyError(info)) is None
            &&& error_name(ClientError::KeyError(info)) == "KeyError"@
        }),
{
}

/// The message of an error is this one: it is the one message in the one container.
pub open spec fn message_is(proto: Option<JsonView>, message: Seq<char>) -> bool {
    &&& proto matches Some(JsonView::Object(outer))
    &&& outer.len() == 1
    &&& outer[0].0 == "key_error"@
    &&& outer[0].1 matches JsonView::Object(inner)
    &&& inner.len() == 1
    &&& inner[0].0 == message
}

proof fn lemma_messages_differ()
    ensures
        "conflict"@.len() == 8 && "conflict"@[0] == 'c',
        "already_exist"@.len() == 13 && "already_exist"@[0] == 'a',
        "txn_not_found"@.len() == 13 && "txn_not_found"@[0] == 't',
        "locked"@.len() == 6,
        "deadlock"@.len() == 8 && "deadlock"@[0] == 'd',
        "assertion_failed"@.len() == 16,
        "commit_ts_too_large"@.len() == 19,
        "retryable"@.len() == 9,
        "abort"@.len() == 5,
{
    reveal_strlit("conflict");
    reveal_strlit("already_exist");
    reveal_strlit("txn_not_found");
    reveal_strlit("locked");
    reveal_strlit("deadlock");
    reveal_strlit("assertion_failed");
    reveal_strlit("commit_ts_too_large");
    reveal_strlit("retryable");
    reveal_strlit("abort");
}

/// The class of an error and the message that it carries agree, through lock requests and in sets:
/// each message comes with its class, and each class but two with its message. A key that exists by
/// the client's own buffer carries none, and what has no message has no class of the server's.
pub proof fn the_class_and_the_message_agree(err: ClientError)
    ensures
        error_class(err) is WriteConflict <==> message_is(error_proto(err), "conflict"@),
        message_is(error_proto(err), "already_exist"@) ==> error_class(err) is KeyExists,
        error_class(err) is TxnNotFound <==> message_is(error_proto(err), "txn_not_found"@),
        error_class(err) is UnresolvedLock <==> message_is(error_proto(err), "locked"@),
        error_class(err) is Deadlock <==> message_is(error_proto(err), "deadlock"@),
        error_class(err) is AssertionFailed <==> message_is(
            error_proto(err),
            "assertion_failed"@,
        ),
        error_class(err) is CommitTsTooLarge <==> message_is(
            error_proto(err),
            "commit_ts_too_large"@,
        ),
        error_class(err) is Retryable <==> message_is(error_proto(err), "retryable"@),
        error_class(err) is Aborted <==> message_is(error_proto(err), "abort"@),
        error_class(err) is KeyExists ==> error_proto(err) is None || message_is(
            error_proto(err),
            "already_exist"@,
        ),
        error_class(err) is Mixed || error_class(err) is Internal || error_class(err) is RegionError
            || error_class(err) is RpcError || error_class(err) is Undetermined || error_class(
            err,
        ) is Unsupported ==> error_proto(err) is None,
    decreases err,
{
    lemma_messages_differ();
    match err {
        ClientError::MultipleKeyErrors(errs) => {
            if errs@.len() > 0 && unanimous(error_classes(errs@)) {
                the_class_and_the_message_agree(errs@[0]);
                assert(error_classes(errs@)[0] == error_class(errs@[0]));
            }
        },
        ClientError::ExtractedErrors(errs) => {
            if errs@.len() > 0 && unanimous(error_classes(errs@)) {
                the_class_and_the_message_agree(errs@[0]);
                assert(error_classes(errs@)[0] == error_class(errs@[0]));
            }
        },
        ClientError::PessimisticLockError { inner } => the_class_and_the_message_agree(*inner),
        _ => {},
    }
}

proof fn lemma_get_only(name: Seq<char>, value: JsonView, asked: Seq<char>)
    ensures
        singleton(name, value).get(asked) == if asked == name {
            Some(value)
        } else {
            None
        },
{
    reveal_with_fuel(member, 2);
    let members = seq![(name, value)];
    assert(members.last() == (name, value));
    assert(members.drop_last().len() == 0);
}

proof fn lemma_empty_message(message: Seq<char>)
    ensures
        key_error(message, no_payload()).get("key_error"@)->0.get(message) == Some(
            JsonView::Object(Seq::empty()),
        ),
{
    lemma_get_only(message, no_payload(), message);
    lemma_get_only("key_error"@, singleton(message, no_payload()), "key_error"@);
}

/// The message carries what the server said: the timestamps and the reason of a conflict, the start
/// of the transaction that was not found, and the texts of what may be retried and what was aborted.
/// The other messages carry nothing but their name.
pub proof fn the_message_carries_what_was_said(info: KeyErrorInfo)
    ensures
        info.class() is WriteConflict ==> {
            let c = info.conflict->0;
            let said = info.proto()->0.get("key_error"@)->0.get("conflict"@)->0;
            &&& said.get("start_ts"@) == Some(JsonView::Number(decimal(c.start_ts as nat)))
            &&& said.get("conflict_ts"@) == Some(JsonView::Number(decimal(c.conflict_ts as nat)))
            &&& said.get("conflict_commit_ts"@) == Some(
                JsonView::Number(decimal(c.conflict_commit_ts as nat)),
            )
            &&& said.get("reason"@) == Some(JsonView::Str(c.reason@))
        },
        info.class() is TxnNotFound ==> info.proto()->0.get("key_error"@)->0.get(
            "txn_not_found"@,
        )->0.get("start_ts"@) == Some(JsonView::Number(decimal(info.txn_not_found->0 as nat))),
        info.class() is Retryable ==> info.proto()->0.get("key_error"@)->0.get("retryable"@) == Some(
            JsonView::Str(info.retryable@),
        ),
        info.class() is Aborted ==> info.proto()->0.get("key_error"@)->0.get("abort"@) == Some(
            JsonView::Str(info.abort@),
        ),
        info.class() is KeyExists ==> info.proto()->0.get("key_error"@)->0.get("already_exist"@)
            == Some(JsonView::Object(Seq::empty())),
        info.class() is UnresolvedLock ==> info.proto()->0.get("key_error"@)->0.get("locked"@)
            == Some(JsonView::Object(Seq::empty())),
        info.class() is Deadlock ==> info.proto()->0.get("key_error"@)->0.get("deadlock"@) == Some(
            JsonView::Object(Seq::empty()),
        ),
        info.class() is AssertionFailed ==> info.proto()->0.get("key_error"@)->0.get(
            "assertion_failed"@,
        ) == Some(JsonView::Object(Seq::empty())),
        info.class() is CommitTsTooLarge ==> info.proto()->0.get("key_error"@)->0.get(
            "commit_ts_too_large"@,
        ) == Some(JsonView::Object(Seq::empty())),
        error_proto(ClientError::TxnNotFound)->0.get("key_error"@)->0.get("txn_not_found"@) == Some(
            JsonView::Object(Seq::empty()),
        ),
        error_proto(ClientError::ResolveLockError)->0.get("key_error"@)->0.get("locked"@) == Some(
            JsonView::Object(Seq::empty()),
        ),
{
    lemma_messages_differ();
    lemma_empty_message("already_exist"@);
    lemma_empty_message("locked"@);
    lemma_empty_message("deadlock"@);
    lemma_empty_message("assertion_failed"@);
    lemma_empty_message("commit_ts_too_large"@);
    lemma_empty_message("txn_not_found"@);
    if info.conflict is Some {
        let c = info.conflict->0;
        let payload = conflict_payload(c);
        lemma_get_only("conflict"@, payload, "conflict"@);
        lemma_get_only("key_error"@, singleton("conflict"@, payload), "key_error"@);
        reveal_strlit("start_ts");
        reveal_strlit("conflict_ts");
        reveal_strlit("conflict_commit_ts");
        reveal_strlit("reason");
        assert("start_ts"@.len() == 8);
        assert("conflict_ts"@.len() == 11);
        assert("conflict_commit_ts"@.len() == 18);
        assert("reason"@.len() == 6);
        reveal_with_fuel(member, 5);
        let m4 = payload->Object_0;
        let m3 = m4.drop_last();
        let m2 = m3.drop_last();
        let m1 = m2.drop_last();
        assert(m4.last().0 == "reason"@);
        assert(m3.last() == m4[2]);
        assert(m2.last() == m4[1]);
        assert(m1.last() == m4[0]);
    } else {
        let start = JsonView::Number(decimal(info.txn_not_found->0 as nat));
        lemma_get_only("start_ts"@, start, "start_ts"@);
        let payload = singleton("start_ts"@, start);
        lemma_get_only("txn_not_found"@, payload, "txn_not_found"@);
        lemma_get_only("key_error"@, singleton("txn_not_found"@, payload), "key_error"@);
        let retry = JsonView::Str(info.retryable@);
        lemma_get_only("retryable"@, retry, "retryable"@);
        lemma_get_only("key_error"@, singleton("retryable"@, retry), "key_error"@);
        let abort = JsonView::Str(info.abort@);
        lemma_get_only("abort"@, abort, "abort"@);
        lemma_get_only("key_error"@, singleton("abort"@, abort), "key_error"@);
    }
}

/// What a set of errors says: how many they are, and the one fact that its members agree on with the
/// message of the first, or what each of them says, in order and without a message. An empty set
/// says nothing and cannot be evidence.
pub proof fn what_a_set_of_errors_says(errs: Vec<ClientError>, extracted: bool)
    ensures
        ({
            let set = if extracted {
                ClientError::ExtractedErrors(errs)
            } else {
                ClientError::MultipleKeyErrors(errs)
            };
            let n = errs@.len() as int;
            &&& per_key_errors(set) == Some(errs@.len())
            &&& error_name(set) == if extracted {
                "ExtractedErrors"@
            } else {
                "MultipleKeyErrors"@
            }
            &&& n == 0 ==> !error_class(set).admissible() && error_proto(set) is None
            &&& n > 0 && (forall|i: int|
                0 <= i < n ==> error_class(#[trigger] errs@[i]) == error_class(errs@[0]))
                ==> error_class(set) == error_class(errs@[0]) && error_proto(set) == error_proto(
                errs@[0],
            )
            &&& (exists|i: int|
                0 <= i < n && error_class(#[trigger] errs@[i]) != error_class(errs@[0])) ==> {
                &&& error_class(set) is Mixed
                &&& error_class(set)->Mixed_parts.len() == n
                &&& forall|i: int|
                    0 <= i < n ==> #[trigger] error_class(set)->Mixed_parts[i] == error_class(
                        errs@[i],
                    )
                &&& error_proto(set) is None
            }
        }),
{
    let parts = error_classes(errs@);
    assert forall|i: int| 0 <= i < errs@.len() implies #[trigger] parts[i] == error_class(
        errs@[i],
    ) by {}
    if errs@.len() > 0 {
        if forall|i: int|
            0 <= i < errs@.len() ==> error_class(#[trigger] errs@[i]) == error_class(errs@[0]) {
            assert forall|i: int| 0 <= i < parts.len() implies #[trigger] parts[i] == parts[0] by {
                assert(error_class(errs@[i]) == error_class(errs@[0]));
            }
        } else {
            let i = choose|i: int|
                0 <= i < errs@.len() && error_class(#[trigger] errs@[i]) != error_class(errs@[0]);
            assert(parts[i] != parts[0]);
        }
    }
}

/// What the errors that are neither a key error nor hold other errors mean: which are of the cluster,
/// which of the transport, which say that a capability is missing, and which are not in the table.
pub proof fn what_a_plain_error_means(err: ClientError)
    requires
        !(err is KeyError || err is MultipleKeyErrors || err is ExtractedErrors || err
            is PessimisticLockError),
    ensures
        error_class(err) is Undetermined <==> err is UndeterminedError,
        error_class(err) is TxnNotFound <==> err is TxnNotFound,
        error_class(err) is UnresolvedLock <==> err is ResolveLockError,
        error_class(err) is KeyExists <==> err is DuplicateKeyInsertion,
        error_class(err) is RegionError <==> err is RegionError || err is NoCurrentRegions || err
            is EntryNotFoundInRegionCache || err is RegionForKeyNotFound || err
            is RegionForRangeNotFound || err is RegionNotFoundInResponse || err is LeaderNotFound,
        error_class(err) is RpcError <==> err is Io || err is Channel || err is Grpc || err
            is GrpcAPI || err is Url || err is Canceled,
        error_class(err) is Unsupported <==> err is Unimplemented || err is UnsupportedMode,
        error_class(err) is Undetermined || error_class(err) is TxnNotFound || error_class(err)
            is UnresolvedLock || error_class(err) is KeyExists || error_class(err) is RegionError
            || error_class(err) is RpcError || error_class(err) is Unsupported || error_class(err)
            is Internal,
        error_proto(err) is Some <==> err is TxnNotFound || err is ResolveLockError,
        per_key_errors(err) is None,
{
}

/// The observation of an error keeps all of it: the class, the message and the count, and the
/// client's own name of the error and its print beside them, whatever the class.
pub proof fn an_observation_keeps_the_error(err: ClientError, display: Seq<char>, obs: Observation)
    requires
        observed_error(err, display, obs),
    ensures
        obs.class@ == error_class(err),
        match (obs.proto, error_proto(err)) {
            (Some(seen), Some(carried)) => seen@ == carried,
            (None, None) => true,
            _ => false,
        },
        match (obs.error_count, per_key_errors(err)) {
            (Some(seen), Some(n)) => seen == n,
            (None, None) => true,
            _ => false,
        },
        obs.native is Some,
        obs.native->0.lang@ == "rust"@,
        obs.native->0.kind@ == error_name(err),
        obs.native->0.display@ == display,
        obs.value is None && obs.locks@.len() == 0 && obs.start_ts is None && obs.commit_ts is None,
{
}

/// An error is told to be of unknown outcome exactly when the client said so, itself, through the
/// lock request that it was met in, or in every member of a set.
pub proof fn undetermined_is_never_confused_with_a_failure(err: ClientError)
    ensures
        error_class(err) is Undetermined <==> says_undetermined(err),
    decreases err,
{
    match err {
        ClientError::MultipleKeyErrors(errs) => lemma_set_undetermined(errs@),
        ClientError::ExtractedErrors(errs) => lemma_set_undetermined(errs@),
        ClientError::PessimisticLockError { inner } => undetermined_is_never_confused_with_a_failure(
            *inner,
        ),
        _ => {},
    }
}

/// The client said that the outcome is unknown.
pub open spec fn says_undetermined(err: ClientError) -> bool
    decreases err,
{
    match err {
        ClientError::UndeterminedError => true,
        ClientError::PessimisticLockError { inner } => says_undetermined(*inner),
        ClientError::MultipleKeyErrors(errs) => errs@.len() > 0 && forall|i: int|
            0 <= i < errs@.len() ==> says_undetermined(#[trigger] errs@[i]),
        ClientError::ExtractedErrors(errs) => errs@.len() > 0 && forall|i: int|
            0 <= i < errs@.len() ==> says_undetermined(#[trigger] errs@[i]),
        _ => false,
    }
}

proof fn lemma_set_undetermined(errs: Seq<ClientError>)
    ensures
        combined(error_classes(errs)) is Undetermined <==> errs.len() > 0 && forall|i: int|
            0 <= i < errs.len() ==> says_undetermined(#[trigger] errs[i]),
    decreases errs,
{
    let parts = error_classes(errs);
    assert forall|i: int| 0 <= i < errs.len() implies (says_undetermined(#[trigger] errs[i])
        <==> parts[i] is Undetermined) by {
        undetermined_is_never_confused_with_a_failure(errs[i]);
    }
    if combined(parts) is Undetermined {
        assert forall|i: int| 0 <= i < errs.len() implies says_undetermined(
            #[trigger] errs[i],
        ) by {
            assert(parts[i] == parts[0]);
        }
    } else if errs.len() > 0 && forall|i: int|
        0 <= i < errs.len() ==> says_undetermined(#[trigger] errs[i]) {
        assert forall|i: int| 0 <= i < parts.len() implies #[trigger] parts[i] == parts[0] by {
            assert(says_undetermined(errs[i]));
            assert(says_undetermined(errs[0]));
        }
    }
}

/// No error ever reads as a success, nor as a key that is merely absent.
pub proof fn no_error_is_a_success(err: ClientError)
    ensures
        !(error_class(err) is Success),
        !(error_class(err) is NotFound),
    decreases err,
{
    match err {
        ClientError::MultipleKeyErrors(errs) => {
            if errs@.len() > 0 {
                no_error_is_a_success(errs@[0]);
                assert(error_classes(errs@)[0] == error_class(errs@[0]));
            }
        },
        ClientError::ExtractedErrors(errs) => {
            if errs@.len() > 0 {
                no_error_is_a_success(errs@[0]);
                assert(error_classes(errs@)[0] == error_class(errs@[0]));
            }
        },
        ClientError::PessimisticLockError { inner } => no_error_is_a_success(*inner),
        _ => {},
    }
}

/// A set of errors can be evidence exactly when it has members and each of them can: no member is
/// laundered by the others.
pub proof fn a_set_is_as_admissible_as_its_members(parts: Seq<ClassView>)
    ensures
        combined(parts).admissible() <==> parts.len() > 0 && forall|i: int|
            0 <= i < parts.len() ==> (#[trigger] parts[i]).admissible(),
{
    let mixed = ClassView::Mixed { parts };
    assert(mixed->Mixed_parts == parts);
    if parts.len() > 0 && unanimous(parts) {
        if parts[0].admissible() {
            assert forall|i: int| 0 <= i < parts.len() implies (
            #[trigger] parts[i]).admissible() by {
                assert(parts[i] == parts[0]);
            }
        }
    } else if parts.len() > 0 {
        if mixed.admissible() {
            assert forall|i: int| 0 <= i < parts.len() implies (
            #[trigger] parts[i]).admissible() by {}
        } else {
            let i = choose|i: int| 0 <= i < parts.len() && !(#[trigger] parts[i]).admissible();
            assert(!parts[i].admissible());
        }
    }
}

/// An error that is not in the table, and a message with no field that the table knows, cannot be
/// evidence.
pub proof fn the_unmapped_is_inadmissible(err: ClientError)
    requires
        match err {
            ClientError::KeyError(info) => info.proto() is None,
            ClientError::InvalidTransactionType
            | ClientError::OperationAfterCommitError
            | ClientError::OnePcFailure
            | ClientError::NoPrimaryKey
            | ClientError::ColumnFamilyError
            | ClientError::JoinError
            | ClientError::MaxScanLimitExceeded
            | ClientError::InvalidSemver
            | ClientError::KvError
            | ClientError::InternalError
            | ClientError::StringError
            | ClientError::KeyspaceNotFound
            | ClientError::NestedRuntimeError => true,
            _ => false,
        },
    ensures
        !error_class(err).admissible(),
{
}

} // verus!
