//! Committing a batch: one transaction, in a fixed order, and what becomes of it.

use vstd::prelude::*;

use crate::mapping::{error_class, error_classes, ClientError, KeyErrorInfo};
use crate::order::bytes_same;
use crate::store::LockMode;
use crate::text::copy_bytes;

verus! {

/// A key and what it must hold for a batch to be committed: these bytes, or nothing.
#[derive(Debug, Clone)]
pub struct Precondition {
    pub key: Vec<u8>,
    pub expected: Option<Vec<u8>>,
}

/// Writes that happen together, if their preconditions hold.
#[derive(Debug, Clone)]
pub struct WriteBatch {
    pub preconditions: Vec<Precondition>,
    pub puts: Vec<(Vec<u8>, Vec<u8>)>,
    pub deletes: Vec<Vec<u8>>,
}

/// What became of a batch.
#[derive(Debug, Clone, Copy, PartialEq, Eq)]
pub enum CommitOutcome {
    /// Every write happened.
    Committed,
    /// Nothing changed: a precondition did not hold, or a race was lost.
    Conflict,
}

impl WriteBatch {
    /// The batch that writes nothing.
    pub fn new() -> (r: Self)
        ensures
            r.preconditions@.len() == 0,
            r.puts@.len() == 0,
            r.deletes@.len() == 0,
    {
        WriteBatch { preconditions: Vec::new(), puts: Vec::new(), deletes: Vec::new() }
    }

    /// With the value of a key set.
    pub fn put(self, key: Vec<u8>, value: Vec<u8>) -> (r: Self)
        ensures
            r.preconditions == self.preconditions,
            r.puts@ == self.puts@.push((key, value)),
            r.deletes == self.deletes,
    {
        let mut puts: Vec<(Vec<u8>, Vec<u8>)> = self.puts;
        puts.push((key, value));
        WriteBatch { preconditions: self.preconditions, puts, deletes: self.deletes }
    }

    /// With a key deleted.
    pub fn delete(self, key: Vec<u8>) -> (r: Self)
        ensures
            r.preconditions == self.preconditions,
            r.puts == self.puts,
            r.deletes@ == self.deletes@.push(key),
    {
        let mut deletes: Vec<Vec<u8>> = self.deletes;
        deletes.push(key);
        WriteBatch { preconditions: self.preconditions, puts: self.puts, deletes }
    }

    /// Only if the key holds exactly these bytes.
    pub fn require(self, key: Vec<u8>, expected: Vec<u8>) -> (r: Self)
        ensures
            r.preconditions@ == self.preconditions@.push(
                Precondition { key, expected: Some(expected) },
            ),
            r.puts == self.puts,
            r.deletes == self.deletes,
    {
        let mut preconditions: Vec<Precondition> = self.preconditions;
        preconditions.push(Precondition { key, expected: Some(expected) });
        WriteBatch { preconditions, puts: self.puts, deletes: self.deletes }
    }

    /// Only if the key holds nothing.
    pub fn require_absent(self, key: Vec<u8>) -> (r: Self)
        ensures
            r.preconditions@ == self.preconditions@.push(Precondition { key, expected: None }),
            r.puts == self.puts,
            r.deletes == self.deletes,
    {
        let mut preconditions: Vec<Precondition> = self.preconditions;
        preconditions.push(Precondition { key, expected: None });
        WriteBatch { preconditions, puts: self.puts, deletes: self.deletes }
    }
}

/// The transaction lost a race, as opposed to meeting a fault: some key reports a write conflict.
pub open spec fn lost_race(err: ClientError) -> bool
    decreases err,
{
    match err {
        ClientError::KeyError(info) => info.conflict is Some,
        ClientError::PessimisticLockError { inner } => lost_race(*inner),
        ClientError::MultipleKeyErrors(errs) => exists|i: int|
            0 <= i < errs@.len() && lost_race(#[trigger] errs@[i]),
        ClientError::ExtractedErrors(errs) => exists|i: int|
            0 <= i < errs@.len() && lost_race(#[trigger] errs@[i]),
        _ => false,
    }
}

/// Did some member lose a race?
fn any_lost_race(errs: &Vec<ClientError>) -> (r: bool)
    ensures
        r == exists|i: int| 0 <= i < errs@.len() && lost_race(#[trigger] errs@[i]),
    decreases errs@,
{
    let mut i: usize = 0;
    while i < errs.len()
        invariant
            i <= errs@.len(),
            forall|j: int| 0 <= j < i ==> !lost_race(#[trigger] errs@[j]),
        decreases errs@, errs@.len() - i,
    {
        if is_lost_race(&errs[i]) {
            return true;
        }
        i = i + 1;
    }
    false
}

/// Did the transaction lose a race, as opposed to meeting a fault?
///
/// Of a set of errors one member is enough: whatever produces a set fails before the commit
/// point, so nothing changed, and a conflict commonly comes beside harmless siblings.
pub fn is_lost_race(err: &ClientError) -> (r: bool)
    ensures
        r == lost_race(*err),
    decreases err,
{
    match err {
        ClientError::KeyError(info) => info.conflict.is_some(),
        ClientError::PessimisticLockError { inner } => is_lost_race(inner),
        ClientError::MultipleKeyErrors(errs) => any_lost_race(errs),
        ClientError::ExtractedErrors(errs) => any_lost_race(errs),
        _ => false,
    }
}

/// The error is a set with a member that is no lost race.
pub open spec fn masks(err: ClientError) -> bool {
    match err {
        ClientError::MultipleKeyErrors(errs) => exists|i: int|
            0 <= i < errs@.len() && !lost_race(#[trigger] errs@[i]),
        ClientError::ExtractedErrors(errs) => exists|i: int|
            0 <= i < errs@.len() && !lost_race(#[trigger] errs@[i]),
        _ => false,
    }
}

/// Is some member no lost race?
fn any_other(errs: &Vec<ClientError>) -> (r: bool)
    ensures
        r == exists|i: int| 0 <= i < errs@.len() && !lost_race(#[trigger] errs@[i]),
{
    let mut i: usize = 0;
    while i < errs.len()
        invariant
            i <= errs@.len(),
            forall|j: int| 0 <= j < i ==> lost_race(#[trigger] errs@[j]),
        decreases errs@.len() - i,
    {
        if !is_lost_race(&errs[i]) {
            return true;
        }
        i = i + 1;
    }
    false
}

/// Would folding this error into a conflict hide a fault beside it?
pub fn masks_fault(err: &ClientError) -> (r: bool)
    ensures
        r == masks(*err),
{
    match err {
        ClientError::MultipleKeyErrors(errs) => any_other(errs),
        ClientError::ExtractedErrors(errs) => any_other(errs),
        _ => false,
    }
}

/// An error whose class is a write conflict is a lost race.
pub proof fn a_write_conflict_is_a_lost_race(err: ClientError)
    requires
        error_class(err) is WriteConflict,
    ensures
        lost_race(err),
    decreases err,
{
    match err {
        ClientError::PessimisticLockError { inner } => a_write_conflict_is_a_lost_race(*inner),
        ClientError::MultipleKeyErrors(errs) => {
            assert(error_classes(errs@)[0] == error_class(errs@[0]));
            a_write_conflict_is_a_lost_race(errs@[0]);
        },
        ClientError::ExtractedErrors(errs) => {
            assert(error_classes(errs@)[0] == error_class(errs@[0]));
            a_write_conflict_is_a_lost_race(errs@[0]);
        },
        _ => {},
    }
}

/// `leaf` is one of the single errors that `err` is made of.
pub open spec fn made_of(err: ClientError, leaf: ClientError) -> bool
    decreases err,
{
    match err {
        ClientError::MultipleKeyErrors(errs) => exists|i: int|
            0 <= i < errs@.len() && made_of(#[trigger] errs@[i], leaf),
        ClientError::ExtractedErrors(errs) => exists|i: int|
            0 <= i < errs@.len() && made_of(#[trigger] errs@[i], leaf),
        ClientError::PessimisticLockError { inner } => made_of(*inner, leaf),
        _ => leaf == err,
    }
}

/// `leaf` is one of the single errors in `err`, and says that a write conflict was met.
pub open spec fn conflicts_in(err: ClientError, leaf: ClientError) -> bool {
    made_of(err, leaf) && leaf is KeyError && leaf->KeyError_0.conflict is Some
}

/// A race is lost exactly where one of the single errors reports a write conflict, however deep it
/// stands: a deadlock, a lock, a message to retry and every fault are none.
pub proof fn a_race_is_lost_exactly_by_a_write_conflict(err: ClientError)
    ensures
        lost_race(err) <==> exists|leaf: ClientError| #[trigger]
            made_of(err, leaf) && leaf is KeyError && leaf->KeyError_0.conflict is Some,
        lost_race(err) <==> exists|leaf: ClientError| #[trigger]
            made_of(err, leaf) && error_class(leaf) is WriteConflict,
{
    lemma_lost_by_conflict(err);
    if lost_race(err) {
        let leaf = choose|leaf: ClientError| #[trigger] conflicts_in(err, leaf);
        assert(made_of(err, leaf) && error_class(leaf) is WriteConflict);
    }
    if exists|leaf: ClientError| #[trigger]
        made_of(err, leaf) && leaf is KeyError && leaf->KeyError_0.conflict is Some {
        let leaf = choose|leaf: ClientError| #[trigger]
            made_of(err, leaf) && leaf is KeyError && leaf->KeyError_0.conflict is Some;
        assert(conflicts_in(err, leaf));
    }
    if exists|leaf: ClientError| #[trigger]
        made_of(err, leaf) && error_class(leaf) is WriteConflict {
        let leaf = choose|leaf: ClientError| #[trigger]
            made_of(err, leaf) && error_class(leaf) is WriteConflict;
        lemma_leaf_is_single(err, leaf);
        assert(conflicts_in(err, leaf));
    }
}

proof fn lemma_leaf_is_single(err: ClientError, leaf: ClientError)
    requires
        made_of(err, leaf),
    ensures
        !(leaf is MultipleKeyErrors) && !(leaf is ExtractedErrors) && !(leaf
            is PessimisticLockError),
    decreases err,
{
    match err {
        ClientError::MultipleKeyErrors(errs) => {
            let i = choose|i: int| 0 <= i < errs@.len() && made_of(#[trigger] errs@[i], leaf);
            lemma_leaf_is_single(errs@[i], leaf);
        },
        ClientError::ExtractedErrors(errs) => {
            let i = choose|i: int| 0 <= i < errs@.len() && made_of(#[trigger] errs@[i], leaf);
            lemma_leaf_is_single(errs@[i], leaf);
        },
        ClientError::PessimisticLockError { inner } => lemma_leaf_is_single(*inner, leaf),
        _ => {},
    }
}

proof fn lemma_lost_by_conflict(err: ClientError)
    ensures
        lost_race(err) <==> exists|leaf: ClientError| #[trigger] conflicts_in(err, leaf),
    decreases err,
{
    match err {
        ClientError::MultipleKeyErrors(errs) => lemma_set_lost_by_conflict(err, errs@),
        ClientError::ExtractedErrors(errs) => lemma_set_lost_by_conflict(err, errs@),
        ClientError::PessimisticLockError { inner } => {
            lemma_lost_by_conflict(*inner);
            if lost_race(err) {
                let leaf = choose|leaf: ClientError| #[trigger] conflicts_in(*inner, leaf);
                assert(conflicts_in(err, leaf));
            }
            if exists|leaf: ClientError| #[trigger] conflicts_in(err, leaf) {
                let leaf = choose|leaf: ClientError| #[trigger] conflicts_in(err, leaf);
                assert(conflicts_in(*inner, leaf));
            }
        },
        _ => {
            if lost_race(err) {
                assert(conflicts_in(err, err));
            }
        },
    }
}

proof fn lemma_set_lost_by_conflict(err: ClientError, errs: Seq<ClientError>)
    requires
        (err is MultipleKeyErrors && err->MultipleKeyErrors_0@ == errs) || (err is ExtractedErrors
            && err->ExtractedErrors_0@ == errs),
    ensures
        lost_race(err) <==> exists|leaf: ClientError| #[trigger] conflicts_in(err, leaf),
    decreases errs,
{
    if lost_race(err) {
        let i = choose|i: int| 0 <= i < errs.len() && lost_race(#[trigger] errs[i]);
        lemma_lost_by_conflict(errs[i]);
        let leaf = choose|leaf: ClientError| #[trigger] conflicts_in(errs[i], leaf);
        assert(made_of(errs[i], leaf));
        assert(conflicts_in(err, leaf));
    }
    if exists|leaf: ClientError| #[trigger] conflicts_in(err, leaf) {
        let leaf = choose|leaf: ClientError| #[trigger] conflicts_in(err, leaf);
        let i = choose|i: int| 0 <= i < errs.len() && made_of(#[trigger] errs[i], leaf);
        lemma_lost_by_conflict(errs[i]);
        assert(conflicts_in(errs[i], leaf));
        assert(lost_race(errs[i]));
    }
}

/// A key error is a lost race exactly where it carries a write conflict, whatever else it carries,
/// and so is the lock request that met it. For both, the class says the same.
pub proof fn a_key_error_is_lost_only_by_a_conflict(info: KeyErrorInfo, err: ClientError)
    ensures
        lost_race(ClientError::KeyError(info)) <==> info.conflict is Some,
        lost_race(ClientError::KeyError(info)) <==> error_class(
            ClientError::KeyError(info),
        ) is WriteConflict,
        lost_race(ClientError::PessimisticLockError { inner: Box::new(err) }) <==> lost_race(err),
        !(err is MultipleKeyErrors) && !(err is ExtractedErrors) && !(err
            is PessimisticLockError) ==> (lost_race(err) <==> error_class(err) is WriteConflict),
        !masks(ClientError::KeyError(info)),
        !masks(ClientError::PessimisticLockError { inner: Box::new(err) }),
{
}

proof fn lemma_set_lost(err: ClientError, errs: Seq<ClientError>)
    requires
        (err is MultipleKeyErrors && err->MultipleKeyErrors_0@ == errs) || (err is ExtractedErrors
            && err->ExtractedErrors_0@ == errs),
    ensures
        lost_race(err) <==> exists|i: int| 0 <= i < errs.len() && lost_race(#[trigger] errs[i]),
        masks(err) <==> exists|i: int| 0 <= i < errs.len() && !lost_race(#[trigger] errs[i]),
{
    if exists|i: int| 0 <= i < errs.len() && lost_race(#[trigger] errs[i]) {
        let i = choose|i: int| 0 <= i < errs.len() && lost_race(#[trigger] errs[i]);
        assert(lost_race(errs[i]));
    }
    if lost_race(err) {
        match err {
            ClientError::MultipleKeyErrors(v) => {
                let i = choose|i: int| 0 <= i < v@.len() && lost_race(#[trigger] v@[i]);
                assert(lost_race(errs[i]));
            },
            ClientError::ExtractedErrors(v) => {
                let i = choose|i: int| 0 <= i < v@.len() && lost_race(#[trigger] v@[i]);
                assert(lost_race(errs[i]));
            },
            _ => {},
        }
    }
}

/// One more member: a set is a lost race where it was one or the member is one, and hides a fault
/// where it did or the member is none. The empty set is neither.
pub proof fn one_more_error_in_a_set(
    errs: Vec<ClientError>,
    more: Vec<ClientError>,
    err: ClientError,
)
    requires
        more@ == errs@.push(err),
    ensures
        ({
            let before = ClientError::MultipleKeyErrors(errs);
            let after = ClientError::MultipleKeyErrors(more);
            &&& lost_race(after) <==> lost_race(before) || lost_race(err)
            &&& masks(after) <==> masks(before) || !lost_race(err)
            &&& errs@.len() == 0 ==> !lost_race(before) && !masks(before)
        }),
        lost_race(ClientError::ExtractedErrors(errs)) == lost_race(
            ClientError::MultipleKeyErrors(errs),
        ),
        masks(ClientError::ExtractedErrors(errs)) == masks(ClientError::MultipleKeyErrors(errs)),
{
    let n = errs@.len() as int;
    let before = ClientError::MultipleKeyErrors(errs);
    lemma_set_lost(before, errs@);
    lemma_set_lost(ClientError::ExtractedErrors(errs), errs@);
    lemma_set_lost(ClientError::MultipleKeyErrors(more), more@);
    assert(more@[n] == err);
    assert forall|i: int| 0 <= i < n implies #[trigger] errs@[i] == more@[i] by {}
    if lost_race(before) {
        let i = choose|i: int| 0 <= i < n && lost_race(#[trigger] errs@[i]);
        assert(lost_race(more@[i]));
    }
    if masks(before) {
        let i = choose|i: int| 0 <= i < n && !lost_race(#[trigger] errs@[i]);
        assert(!lost_race(more@[i]));
    }
    if exists|i: int| 0 <= i < more@.len() && lost_race(#[trigger] more@[i]) {
        let i = choose|i: int| 0 <= i < more@.len() && lost_race(#[trigger] more@[i]);
        if i < n {
            assert(lost_race(errs@[i]));
        }
    }
    if exists|i: int| 0 <= i < more@.len() && !lost_race(#[trigger] more@[i]) {
        let i = choose|i: int| 0 <= i < more@.len() && !lost_race(#[trigger] more@[i]);
        if i < n {
            assert(!lost_race(errs@[i]));
        }
    }
}

/// Only a set can hide a fault: it does exactly where some member is no lost race. A single error,
/// and one that was met in a lock request, hides nothing.
pub proof fn only_a_set_hides_a_fault(err: ClientError)
    ensures
        !(err is MultipleKeyErrors || err is ExtractedErrors) ==> !masks(err),
        err is MultipleKeyErrors ==> (masks(err) <==> exists|i: int|
            0 <= i < err->MultipleKeyErrors_0@.len() && !lost_race(
                #[trigger] err->MultipleKeyErrors_0@[i],
            )),
        err is ExtractedErrors ==> (masks(err) <==> exists|i: int|
            0 <= i < err->ExtractedErrors_0@.len() && !lost_race(
                #[trigger] err->ExtractedErrors_0@[i],
            )),
{
}

/// What is asked of the transaction.
#[derive(Debug)]
pub enum TxnStep {
    /// Read with a lock, and expect this.
    GetForUpdate { key: Vec<u8>, expected: Option<Vec<u8>> },
    /// Add a key to the locks of the prewrite.
    LockKey { key: Vec<u8> },
    /// Read, and expect this.
    Get { key: Vec<u8>, expected: Option<Vec<u8>> },
    Put { key: Vec<u8>, value: Vec<u8> },
    Delete { key: Vec<u8> },
    /// The two-phase commit.
    Commit,
}

/// What a [`TxnStep`] says.
pub enum TxnStepView {
    GetForUpdate { key: Seq<u8>, expected: Option<Seq<u8>> },
    LockKey { key: Seq<u8> },
    Get { key: Seq<u8>, expected: Option<Seq<u8>> },
    Put { key: Seq<u8>, value: Seq<u8> },
    Delete { key: Seq<u8> },
    Commit,
}

/// The bytes, where there are any.
pub open spec fn opt_bytes(b: Option<Vec<u8>>) -> Option<Seq<u8>> {
    match b {
        Some(v) => Some(v@),
        None => None,
    }
}

impl View for TxnStep {
    type V = TxnStepView;

    open spec fn view(&self) -> TxnStepView {
        match *self {
            TxnStep::GetForUpdate { key, expected } => TxnStepView::GetForUpdate {
                key: key@,
                expected: opt_bytes(expected),
            },
            TxnStep::LockKey { key } => TxnStepView::LockKey { key: key@ },
            TxnStep::Get { key, expected } => TxnStepView::Get {
                key: key@,
                expected: opt_bytes(expected),
            },
            TxnStep::Put { key, value } => TxnStepView::Put { key: key@, value: value@ },
            TxnStep::Delete { key } => TxnStepView::Delete { key: key@ },
            TxnStep::Commit => TxnStepView::Commit,
        }
    }
}

/// What each of the steps says.
pub open spec fn step_views(steps: Seq<TxnStep>) -> Seq<TxnStepView> {
    steps.map_values(|s: TxnStep| s@)
}

/// How a precondition is checked in a mode.
pub open spec fn check_of(mode: LockMode, pre: Precondition) -> Seq<TxnStepView> {
    let key = pre.key@;
    let expected = opt_bytes(pre.expected);
    match mode {
        LockMode::Pessimistic => seq![TxnStepView::GetForUpdate { key, expected }],
        LockMode::OptimisticLocked => seq![
            TxnStepView::LockKey { key },
            TxnStepView::Get { key, expected },
        ],
        LockMode::OptimisticUnlocked => seq![TxnStepView::Get { key, expected }],
    }
}

/// How the preconditions are checked in a mode, in order.
pub open spec fn checks(mode: LockMode, pres: Seq<Precondition>) -> Seq<TxnStepView>
    decreases pres.len(),
{
    if pres.len() == 0 {
        Seq::empty()
    } else {
        checks(mode, pres.drop_last()) + check_of(mode, pres.last())
    }
}

/// The writes of the batch, in order: what it puts, and then what it deletes.
pub open spec fn writes(batch: WriteBatch) -> Seq<TxnStepView> {
    batch.puts@.map_values(
        |p: (Vec<u8>, Vec<u8>)| TxnStepView::Put { key: p.0@, value: p.1@ },
    ) + batch.deletes@.map_values(|k: Vec<u8>| TxnStepView::Delete { key: k@ })
}

/// Everything that is asked of the transaction when nothing goes wrong: the checks, the writes,
/// and the commit.
pub open spec fn script(mode: LockMode, batch: WriteBatch) -> Seq<TxnStepView> {
    (checks(mode, batch.preconditions@) + writes(batch)).push(TxnStepView::Commit)
}

/// Where an error was met.
#[derive(Debug, Clone, Copy, PartialEq, Eq)]
pub enum Phase {
    Staging,
    Committing,
}

/// What a commit comes to.
#[derive(Debug, Clone, Copy, PartialEq, Eq)]
pub enum Verdict {
    Committed,
    /// Nothing changed. A fault beside the conflict may be hidden, where one was met.
    Conflict { masked: Option<Phase> },
    /// The error that was met last is surfaced.
    Fault,
}

impl Verdict {
    /// What the caller is told, unless the error is surfaced.
    pub fn outcome(self) -> (r: Option<CommitOutcome>)
        ensures
            r == match self {
                Verdict::Committed => Some(CommitOutcome::Committed),
                Verdict::Conflict { .. } => Some(CommitOutcome::Conflict),
                Verdict::Fault => None,
            },
    {
        match self {
            Verdict::Committed => Some(CommitOutcome::Committed),
            Verdict::Conflict { .. } => Some(CommitOutcome::Conflict),
            Verdict::Fault => None,
        }
    }
}

/// Where a commit stands.
#[derive(Debug, Clone, Copy, PartialEq, Eq)]
pub enum Progress {
    /// The step at this position is to be taken.
    Next(usize),
    /// The transaction is to be rolled back, and then this is the verdict.
    RollBack(Verdict),
    Ended(Verdict),
}

/// What the transaction answered.
#[derive(Debug)]
pub enum Reply {
    /// It did as asked; a read returned this.
    Answered(Option<Vec<u8>>),
    Failed(ClientError),
}

impl TxnStepView {
    /// What a read expects to find.
    pub open spec fn expects(self) -> Option<Option<Seq<u8>>> {
        match self {
            TxnStepView::GetForUpdate { expected, .. } => Some(expected),
            TxnStepView::Get { expected, .. } => Some(expected),
            _ => None,
        }
    }

    /// The answer is as expected: exactly the bytes, or nothing where nothing is expected.
    pub open spec fn satisfied_by(self, answer: Option<Seq<u8>>) -> bool {
        self.expects() matches Some(expected) ==> answer == expected
    }

    /// The step writes.
    pub open spec fn writes(self) -> bool {
        self is Put || self is Delete
    }
}

/// What an error in a phase comes to, where the outcome is known.
pub open spec fn verdict_of(phase: Phase, err: ClientError) -> Verdict {
    if lost_race(err) {
        Verdict::Conflict {
            masked: if masks(err) {
                Some(phase)
            } else {
                None
            },
        }
    } else {
        Verdict::Fault
    }
}

/// Where a commit stands after a reply.
pub open spec fn moved(steps: Seq<TxnStepView>, at: Progress, reply: Reply) -> Progress {
    match at {
        Progress::Next(n) => match reply {
            Reply::Answered(answer) => if !steps[n as int].satisfied_by(opt_bytes(answer)) {
                Progress::RollBack(Verdict::Conflict { masked: None })
            } else if steps[n as int] is Commit {
                Progress::Ended(Verdict::Committed)
            } else {
                Progress::Next((n + 1) as usize)
            },
            Reply::Failed(err) => if steps[n as int] is Commit {
                if err is UndeterminedError {
                    Progress::Ended(Verdict::Fault)
                } else {
                    Progress::RollBack(verdict_of(Phase::Committing, err))
                }
            } else {
                Progress::RollBack(verdict_of(Phase::Staging, err))
            },
        },
        // A failed rollback leaves locks for the client to resolve; the verdict stands.
        Progress::RollBack(verdict) => Progress::Ended(verdict),
        Progress::Ended(verdict) => Progress::Ended(verdict),
    }
}

/// A batch on its way through one transaction.
#[derive(Debug)]
pub struct CommitRun {
    steps: Vec<TxnStep>,
    at: Progress,
}

/// Are the bytes what is expected?
fn as_expected(expected: &Option<Vec<u8>>, actual: &Option<Vec<u8>>) -> (r: bool)
    ensures
        r == (opt_bytes(*actual) == opt_bytes(*expected)),
{
    match (expected, actual) {
        (Some(want), Some(got)) => bytes_same(want.as_slice(), got.as_slice()),
        (None, None) => true,
        _ => false,
    }
}

/// A copy of the bytes, where there are any.
fn copy_opt(b: &Option<Vec<u8>>) -> (r: Option<Vec<u8>>)
    ensures
        opt_bytes(r) == opt_bytes(*b),
{
    match b {
        Some(v) => Some(copy_bytes(v.as_slice())),
        None => None,
    }
}

/// What an error in a phase comes to.
fn judge(phase: Phase, err: &ClientError) -> (r: Verdict)
    ensures
        r == verdict_of(phase, *err),
{
    if is_lost_race(err) {
        let masked: Option<Phase> = if masks_fault(err) {
            Some(phase)
        } else {
            None
        };
        Verdict::Conflict { masked }
    } else {
        Verdict::Fault
    }
}

impl CommitRun {
    #[verifier::type_invariant]
    spec fn wf(self) -> bool {
        &&& self.steps@.len() > 0
        &&& self.steps@.last() is Commit
        &&& self.at matches Progress::Next(n) ==> n < self.steps@.len()
    }

    /// Everything that is asked when nothing goes wrong.
    pub closed spec fn steps(self) -> Seq<TxnStepView> {
        step_views(self.steps@)
    }

    /// Where the commit stands.
    pub closed spec fn at(self) -> Progress {
        self.at
    }

    /// A batch that is about to be staged in a mode.
    pub fn new(mode: LockMode, batch: &WriteBatch) -> (r: Self)
        ensures
            r.steps() == script(mode, *batch),
            r.at() == Progress::Next(0),
    {
        let mut steps: Vec<TxnStep> = Vec::new();
        let ghost pres = batch.preconditions@;
        let mut i: usize = 0;
        proof {
            assert(pres.take(0) =~= Seq::<Precondition>::empty());
            assert(step_views(steps@) =~= Seq::<TxnStepView>::empty());
        }
        while i < batch.preconditions.len()
            invariant
                pres == batch.preconditions@,
                i <= pres.len(),
                step_views(steps@) == checks(mode, pres.take(i as int)),
            decreases pres.len() - i,
        {
            let pre: &Precondition = &batch.preconditions[i];
            let ghost before = step_views(steps@);
            let key: Vec<u8> = copy_bytes(pre.key.as_slice());
            let expected: Option<Vec<u8>> = copy_opt(&pre.expected);
            match mode {
                LockMode::Pessimistic => {
                    steps.push(TxnStep::GetForUpdate { key, expected });
                },
                LockMode::OptimisticLocked => {
                    steps.push(TxnStep::LockKey { key: copy_bytes(pre.key.as_slice()) });
                    steps.push(TxnStep::Get { key, expected });
                },
                LockMode::OptimisticUnlocked => {
                    steps.push(TxnStep::Get { key, expected });
                },
            }
            proof {
                let next = pres.take(i + 1);
                assert(next.drop_last() =~= pres.take(i as int));
                assert(next.last() == pre);
                assert(step_views(steps@) =~= before + check_of(mode, *pre));
            }
            i = i + 1;
        }
        proof {
            assert(pres.take(i as int) =~= pres);
        }
        let ghost checked = step_views(steps@);
        let ghost put_views = batch.puts@.map_values(
            |p: (Vec<u8>, Vec<u8>)| TxnStepView::Put { key: p.0@, value: p.1@ },
        );
        let mut i: usize = 0;
        proof {
            assert(checked + put_views.take(0) =~= checked);
        }
        while i < batch.puts.len()
            invariant
                put_views == batch.puts@.map_values(
                    |p: (Vec<u8>, Vec<u8>)| TxnStepView::Put { key: p.0@, value: p.1@ },
                ),
                i <= batch.puts@.len(),
                step_views(steps@) == checked + put_views.take(i as int),
            decreases batch.puts@.len() - i,
        {
            let ghost before = step_views(steps@);
            steps.push(
                TxnStep::Put {
                    key: copy_bytes(batch.puts[i].0.as_slice()),
                    value: copy_bytes(batch.puts[i].1.as_slice()),
                },
            );
            proof {
                assert(step_views(steps@) =~= before.push(put_views[i as int]));
                assert(put_views.take(i + 1) =~= put_views.take(i as int).push(
                    put_views[i as int],
                ));
                assert(step_views(steps@) =~= checked + put_views.take(i + 1));
            }
            i = i + 1;
        }
        let ghost put = step_views(steps@);
        let ghost delete_views = batch.deletes@.map_values(
            |k: Vec<u8>| TxnStepView::Delete { key: k@ },
        );
        let mut j: usize = 0;
        proof {
            assert(put_views.take(i as int) =~= put_views);
            assert(put + delete_views.take(0) =~= put);
        }
        while j < batch.deletes.len()
            invariant
                delete_views == batch.deletes@.map_values(
                    |k: Vec<u8>| TxnStepView::Delete { key: k@ },
                ),
                j <= batch.deletes@.len(),
                step_views(steps@) == put + delete_views.take(j as int),
            decreases batch.deletes@.len() - j,
        {
            let ghost before = step_views(steps@);
            steps.push(TxnStep::Delete { key: copy_bytes(batch.deletes[j].as_slice()) });
            proof {
                assert(step_views(steps@) =~= before.push(delete_views[j as int]));
                assert(delete_views.take(j + 1) =~= delete_views.take(j as int).push(
                    delete_views[j as int],
                ));
                assert(step_views(steps@) =~= put + delete_views.take(j + 1));
            }
            j = j + 1;
        }
        let ghost before = step_views(steps@);
        steps.push(TxnStep::Commit);
        proof {
            assert(delete_views.take(j as int) =~= delete_views);
            assert(step_views(steps@) =~= before.push(TxnStepView::Commit));
            assert(before =~= checked + (put_views + delete_views));
        }
        CommitRun { steps, at: Progress::Next(0) }
    }

    /// Where the commit stands.
    pub fn progress(&self) -> (r: Progress)
        ensures
            r == self.at(),
            r matches Progress::Next(n) ==> n < self.steps().len(),
    {
        proof {
            use_type_invariant(self);
            assert(self.steps().len() == self.steps@.len());
        }
        self.at
    }

    /// What is asked of the transaction at a position.
    pub fn step(&self, n: usize) -> (r: &TxnStep)
        requires
            n < self.steps().len(),
        ensures
            r@ == self.steps()[n as int],
    {
        proof {
            assert(self.steps().len() == self.steps@.len());
        }
        &self.steps[n]
    }

    /// The transaction replied.
    ///
    /// A commit whose outcome is unknown is never rolled back, since the batch may have been
    /// committed: a rollback could tear it.
    pub fn advance(self, reply: Reply) -> (r: Self)
        ensures
            r.steps() == self.steps(),
            r.at() == moved(self.steps(), self.at(), reply),
    {
        proof {
            use_type_invariant(&self);
            assert(self.steps().len() == self.steps@.len());
        }
        let at: Progress = match self.at {
            Progress::Next(n) => {
                let step: &TxnStep = &self.steps[n];
                proof {
                    assert(self.steps()[n as int] == step@);
                    assert(n < self.steps.len());
                }
                match &reply {
                    Reply::Answered(answer) => {
                        let fine: bool = match step {
                            TxnStep::GetForUpdate { expected, .. } => as_expected(expected, answer),
                            TxnStep::Get { expected, .. } => as_expected(expected, answer),
                            _ => true,
                        };
                        if !fine {
                            Progress::RollBack(Verdict::Conflict { masked: None })
                        } else {
                            match step {
                                TxnStep::Commit => Progress::Ended(Verdict::Committed),
                                _ => Progress::Next(n + 1),
                            }
                        }
                    },
                    Reply::Failed(err) => match step {
                        TxnStep::Commit => match err {
                            ClientError::UndeterminedError => Progress::Ended(Verdict::Fault),
                            _ => Progress::RollBack(judge(Phase::Committing, err)),
                        },
                        _ => Progress::RollBack(judge(Phase::Staging, err)),
                    },
                }
            },
            Progress::RollBack(verdict) => Progress::Ended(verdict),
            Progress::Ended(verdict) => Progress::Ended(verdict),
        };
        CommitRun { steps: self.steps, at }
    }
}

/// Where a commit stands after a sequence of replies.
pub open spec fn after(steps: Seq<TxnStepView>, replies: Seq<Reply>) -> Progress
    decreases replies.len(),
{
    if replies.len() == 0 {
        Progress::Next(0)
    } else {
        moved(steps, after(steps, replies.drop_last()), replies.last())
    }
}

/// The reply lets the commit go on past the step.
pub open spec fn passes(step: TxnStepView, reply: Reply) -> bool {
    reply matches Reply::Answered(answer) && step.satisfied_by(opt_bytes(answer))
}

/// Only the last step commits.
pub open spec fn commits_last(steps: Seq<TxnStepView>) -> bool {
    &&& steps.len() > 0
    &&& forall|i: int| 0 <= i < steps.len() ==> (#[trigger] steps[i] is Commit <==> i == steps.len()
        - 1)
}

proof fn lemma_checks(mode: LockMode, pres: Seq<Precondition>)
    ensures
        forall|i: int|
            0 <= i < checks(mode, pres).len() ==> !(#[trigger] checks(mode, pres)[i]).writes()
                && !(checks(mode, pres)[i] is Commit),
    decreases pres.len(),
{
    if pres.len() > 0 {
        lemma_checks(mode, pres.drop_last());
    }
}

/// What a script is made of: its checks come first, then its writes, then the commit, and there
/// is only one commit.
pub proof fn a_script_checks_then_writes_then_commits(mode: LockMode, batch: WriteBatch)
    ensures
        commits_last(script(mode, batch)),
        forall|i: int, j: int|
            0 <= i < script(mode, batch).len() && 0 <= j < script(mode, batch).len() && (
            #[trigger] script(mode, batch)[i]).expects() is Some && (
            #[trigger] script(mode, batch)[j]).writes() ==> i < j,
{
    let c = checks(mode, batch.preconditions@);
    let w = writes(batch);
    let s = script(mode, batch);
    lemma_checks(mode, batch.preconditions@);
    assert forall|i: int| 0 <= i < s.len() implies (#[trigger] s[i] is Commit <==> i == s.len()
        - 1) by {
        if i < c.len() {
            assert(s[i] == c[i]);
        } else if i < c.len() + w.len() {
            assert(s[i] == w[i - c.len()]);
        }
    }
    assert forall|i: int, j: int|
        0 <= i < s.len() && 0 <= j < s.len() && (#[trigger] s[i]).expects() is Some && (
        #[trigger] s[j]).writes() implies i < j by {
        if c.len() <= i < c.len() + w.len() {
            assert(s[i] == w[i - c.len()]);
        }
        if j < c.len() {
            assert(s[j] == c[j]);
        }
    }
}

/// A precondition that does not hold ends the commit before anything was written, with a rollback.
pub proof fn a_failed_precondition_writes_nothing(
    mode: LockMode,
    batch: WriteBatch,
    n: usize,
    answer: Option<Vec<u8>>,
)
    requires
        n < script(mode, batch).len(),
        !script(mode, batch)[n as int].satisfied_by(opt_bytes(answer)),
    ensures
        moved(script(mode, batch), Progress::Next(n), Reply::Answered(answer))
            == Progress::RollBack(Verdict::Conflict { masked: None }),
        forall|i: int| 0 <= i <= n ==> !(#[trigger] script(mode, batch)[i]).writes(),
{
    a_script_checks_then_writes_then_commits(mode, batch);
    let s = script(mode, batch);
    assert forall|i: int| 0 <= i <= n implies !(#[trigger] s[i]).writes() by {
        if s[i].writes() {
            assert(s[n as int].expects() is Some);
        }
    }
}

/// A commit whose outcome is unknown is never rolled back and never called a conflict: nobody can
/// promise that nothing changed.
pub proof fn an_undetermined_commit_is_never_rolled_back(mode: LockMode, batch: WriteBatch, n: usize)
    requires
        n == script(mode, batch).len() - 1,
    ensures
        moved(
            script(mode, batch),
            Progress::Next(n),
            Reply::Failed(ClientError::UndeterminedError),
        ) == Progress::Ended(Verdict::Fault),
{
    a_script_checks_then_writes_then_commits(mode, batch);
}

proof fn lemma_after(steps: Seq<TxnStepView>, replies: Seq<Reply>)
    requires
        commits_last(steps),
        steps.len() <= usize::MAX,
    ensures
        match after(steps, replies) {
            Progress::Next(n) => {
                &&& n == replies.len()
                &&& n < steps.len()
                &&& forall|i: int| 0 <= i < n ==> passes(steps[i], #[trigger] replies[i])
            },
            Progress::Ended(Verdict::Committed) => {
                &&& steps.len() <= replies.len()
                &&& forall|i: int| 0 <= i < steps.len() ==> passes(steps[i], #[trigger] replies[i])
            },
            Progress::RollBack(verdict) => !(verdict is Committed),
            Progress::Ended(_) => true,
        },
    decreases replies.len(),
{
    if replies.len() > 0 {
        let init = replies.drop_last();
        let m = replies.len() - 1;
        lemma_after(steps, init);
        match after(steps, init) {
            Progress::Next(n) => {
                assert(steps[n as int] is Commit <==> n == steps.len() - 1);
                assert forall|i: int|
                    0 <= i < n && passes(steps[i], init[i]) implies passes(
                    steps[i],
                    #[trigger] replies[i],
                ) by {}
                assert forall|i: int| 0 <= i < n implies passes(steps[i], #[trigger] replies[i]) by {
                    assert(passes(steps[i], init[i]));
                }
                assert(replies[m] == replies.last());
            },
            Progress::Ended(Verdict::Committed) => {
                assert forall|i: int| 0 <= i < steps.len() implies passes(
                    steps[i],
                    #[trigger] replies[i],
                ) by {
                    assert(passes(steps[i], init[i]));
                }
            },
            _ => {},
        }
    }
}

/// A batch is committed only where the transaction did everything that the script asks, and every
/// read found exactly what its precondition expects.
pub proof fn a_committed_batch_passed_every_check(
    mode: LockMode,
    batch: WriteBatch,
    replies: Seq<Reply>,
)
    requires
        script(mode, batch).len() <= usize::MAX,
        after(script(mode, batch), replies) == Progress::Ended(Verdict::Committed),
    ensures
        script(mode, batch).len() <= replies.len(),
        forall|i: int|
            0 <= i < script(mode, batch).len() ==> passes(
                script(mode, batch)[i],
                #[trigger] replies[i],
            ),
{
    a_script_checks_then_writes_then_commits(mode, batch);
    lemma_after(script(mode, batch), replies);
}

/// Where the transaction does everything that the script asks, and every read finds what its
/// precondition expects, the batch is committed.
pub proof fn a_batch_that_passes_is_committed(
    mode: LockMode,
    batch: WriteBatch,
    replies: Seq<Reply>,
)
    requires
        script(mode, batch).len() <= usize::MAX,
        replies.len() == script(mode, batch).len(),
        forall|i: int|
            0 <= i < replies.len() ==> passes(script(mode, batch)[i], #[trigger] replies[i]),
    ensures
        after(script(mode, batch), replies) == Progress::Ended(Verdict::Committed),
{
    let steps = script(mode, batch);
    a_script_checks_then_writes_then_commits(mode, batch);
    let init = replies.drop_last();
    lemma_passing(steps, init);
    assert(passes(steps[init.len() as int], replies[init.len() as int]));
    assert(steps[init.len() as int] is Commit);
}

proof fn lemma_passing(steps: Seq<TxnStepView>, replies: Seq<Reply>)
    requires
        commits_last(steps),
        replies.len() < steps.len() <= usize::MAX,
        forall|i: int| 0 <= i < replies.len() ==> passes(steps[i], #[trigger] replies[i]),
    ensures
        after(steps, replies) == Progress::Next(replies.len() as usize),
    decreases replies.len(),
{
    if replies.len() > 0 {
        let init = replies.drop_last();
        assert forall|i: int| 0 <= i < init.len() implies passes(steps[i], #[trigger] init[i]) by {
            assert(passes(steps[i], replies[i]));
        }
        lemma_passing(steps, init);
        assert(passes(steps[init.len() as int], replies[init.len() as int]));
        assert(!(steps[init.len() as int] is Commit));
    }
}

proof fn lemma_checks_at(mode: LockMode, pres: Seq<Precondition>, k: int)
    requires
        0 <= k < pres.len(),
    ensures
        checks(mode, pres).len() == if mode is OptimisticLocked {
            2 * pres.len()
        } else {
            pres.len()
        },
        mode is Pessimistic ==> checks(mode, pres)[k] == check_of(mode, pres[k])[0],
        mode is OptimisticUnlocked ==> checks(mode, pres)[k] == check_of(mode, pres[k])[0],
        mode is OptimisticLocked ==> checks(mode, pres)[2 * k] == check_of(mode, pres[k])[0]
            && checks(mode, pres)[2 * k + 1] == check_of(mode, pres[k])[1],
    decreases pres.len(),
{
    let init = pres.drop_last();
    if pres.len() > 1 {
        lemma_checks_at(
            mode,
            init,
            if k < init.len() {
                k
            } else {
                0
            },
        );
    }
    assert(init.len() == 0 ==> checks(mode, init).len() == 0);
    assert(check_of(mode, pres.last()).len() == if mode is OptimisticLocked {
        2int
    } else {
        1int
    });
    if k < init.len() {
        assert(init[k] == pres[k]);
    } else {
        assert(pres.last() == pres[k]);
    }
}

proof fn lemma_checks_len(mode: LockMode, pres: Seq<Precondition>)
    ensures
        checks(mode, pres).len() == if mode is OptimisticLocked {
            2 * pres.len()
        } else {
            pres.len()
        },
{
    if pres.len() > 0 {
        lemma_checks_at(mode, pres, 0);
    }
}

/// The script of a batch holds every precondition, every put and every delete of the batch, each
/// once and in order, then the commit, and nothing else. A precondition is a read of its key: a
/// locking read in the pessimistic mode, a plain read behind a lock on the key in the locked
/// optimistic mode, and a plain read in the unlocked one.
pub proof fn the_script_of_a_batch(mode: LockMode, batch: WriteBatch)
    ensures
        ({
            let s = script(mode, batch);
            let n = batch.preconditions@.len() as int;
            let c = if mode is OptimisticLocked {
                2 * n
            } else {
                n
            };
            let p = batch.puts@.len() as int;
            let d = batch.deletes@.len() as int;
            &&& s.len() == c + p + d + 1
            &&& forall|k: int|
                0 <= k < n ==> {
                    let key = (#[trigger] batch.preconditions@[k]).key@;
                    match mode {
                        LockMode::Pessimistic => s[k] is GetForUpdate && s[k]->GetForUpdate_key
                            == key,
                        LockMode::OptimisticLocked => s[2 * k] == (TxnStepView::LockKey { key })
                            && s[2 * k + 1] is Get && s[2 * k + 1]->Get_key == key,
                        LockMode::OptimisticUnlocked => s[k] is Get && s[k]->Get_key == key,
                    }
                }
            &&& forall|i: int|
                0 <= i < p ==> s[c + i] == (TxnStepView::Put {
                    key: (#[trigger] batch.puts@[i]).0@,
                    value: batch.puts@[i].1@,
                })
            &&& forall|j: int|
                0 <= j < d ==> s[c + p + j] == (TxnStepView::Delete {
                    key: (#[trigger] batch.deletes@[j])@,
                })
            &&& s.last() is Commit
        }),
{
    let pres = batch.preconditions@;
    let s = script(mode, batch);
    let c = checks(mode, pres);
    let w = writes(batch);
    lemma_checks_len(mode, pres);
    assert forall|k: int| 0 <= k < pres.len() implies {
        let key = (#[trigger] pres[k]).key@;
        match mode {
            LockMode::Pessimistic => s[k] is GetForUpdate && s[k]->GetForUpdate_key == key,
            LockMode::OptimisticLocked => s[2 * k] == (TxnStepView::LockKey { key }) && s[2 * k
                + 1] is Get && s[2 * k + 1]->Get_key == key,
            LockMode::OptimisticUnlocked => s[k] is Get && s[k]->Get_key == key,
        }
    } by {
        lemma_checks_at(mode, pres, k);
    }
    assert forall|i: int| 0 <= i < batch.puts@.len() implies s[c.len() + i] == (TxnStepView::Put {
        key: (#[trigger] batch.puts@[i]).0@,
        value: batch.puts@[i].1@,
    }) by {
        assert(s[c.len() + i] == w[i]);
    }
    assert forall|j: int| 0 <= j < batch.deletes@.len() implies s[c.len() + batch.puts@.len() + j]
        == (TxnStepView::Delete { key: (#[trigger] batch.deletes@[j])@ }) by {
        assert(s[c.len() + batch.puts@.len() + j] == w[batch.puts@.len() + j]);
    }
}

/// A precondition passes on exactly the bytes that it expects, and where it expects nothing, on
/// nothing: neither other bytes nor an empty value will do. An error never passes.
pub proof fn a_precondition_passes_on_exactly_its_bytes(
    mode: LockMode,
    batch: WriteBatch,
    k: int,
    answer: Option<Vec<u8>>,
    err: ClientError,
)
    requires
        0 <= k < batch.preconditions@.len(),
    ensures
        passes(
            script(mode, batch)[if mode is OptimisticLocked {
                2 * k + 1
            } else {
                k
            }],
            Reply::Answered(answer),
        ) <==> match (batch.preconditions@[k].expected, answer) {
            (Some(want), Some(got)) => want@ == got@,
            (None, None) => true,
            _ => false,
        },
        forall|step: TxnStepView| !passes(step, Reply::Failed(err)),
        forall|step: TxnStepView|
            step is LockKey || step is Put || step is Delete || step is Commit ==> #[trigger] passes(
                step,
                Reply::Answered(answer),
            ),
{
    lemma_checks_len(mode, batch.preconditions@);
    lemma_checks_at(mode, batch.preconditions@, k);
}

/// What becomes of a batch when something goes wrong for the first time: bytes that are not
/// expected are a conflict, and a commit of unknown outcome is a fault, never rolled back. Any other
/// error is rolled back, and is a conflict exactly where a race was lost, with a note of where it
/// was met exactly where it hides a fault; else it is a fault.
pub proof fn what_becomes_of_a_batch(
    mode: LockMode,
    batch: WriteBatch,
    replies: Seq<Reply>,
    n: int,
)
    requires
        script(mode, batch).len() <= usize::MAX,
        0 <= n < script(mode, batch).len(),
        n == replies.len() - 1,
        forall|i: int| 0 <= i < n ==> passes(script(mode, batch)[i], #[trigger] replies[i]),
        !passes(script(mode, batch)[n], replies[n]),
    ensures
        ({
            let at = after(script(mode, batch), replies);
            let last = n == script(mode, batch).len() - 1;
            match replies[n] {
                Reply::Answered(_) => at == Progress::RollBack(Verdict::Conflict { masked: None }),
                Reply::Failed(err) => if last && err is UndeterminedError {
                    at == Progress::Ended(Verdict::Fault)
                } else if !lost_race(err) {
                    at == Progress::RollBack(Verdict::Fault)
                } else if !masks(err) {
                    at == Progress::RollBack(Verdict::Conflict { masked: None })
                } else if last {
                    at == Progress::RollBack(Verdict::Conflict { masked: Some(Phase::Committing) })
                } else {
                    at == Progress::RollBack(Verdict::Conflict { masked: Some(Phase::Staging) })
                },
            }
        }),
{
    let steps = script(mode, batch);
    a_script_checks_then_writes_then_commits(mode, batch);
    let init = replies.drop_last();
    assert forall|i: int| 0 <= i < init.len() implies passes(steps[i], #[trigger] init[i]) by {
        assert(passes(steps[i], replies[i]));
    }
    lemma_passing(steps, init);
    assert(replies.last() == replies[n]);
    assert(steps[n] is Commit <==> n == steps.len() - 1);
}

/// A verdict stands: after the rollback, whether it worked or not, and whatever else is replied.
pub proof fn a_verdict_stands(steps: Seq<TxnStepView>, replies: Seq<Reply>, reply: Reply)
    ensures
        match after(steps, replies) {
            Progress::RollBack(verdict) => after(steps, replies.push(reply)) == Progress::Ended(
                verdict,
            ),
            Progress::Ended(verdict) => after(steps, replies.push(reply)) == Progress::Ended(
                verdict,
            ),
            Progress::Next(_) => true,
        },
{
    assert(replies.push(reply).drop_last() =~= replies);
}

/// A step says exactly what it is.
pub proof fn a_step_says_what_it_is(step: TxnStep)
    ensures
        match step {
            TxnStep::GetForUpdate { key, expected } => step@ is GetForUpdate
                && step@->GetForUpdate_key == key@ && same_bytes(
                step@->GetForUpdate_expected,
                expected,
            ),
            TxnStep::LockKey { key } => step@ is LockKey && step@->LockKey_key == key@,
            TxnStep::Get { key, expected } => step@ is Get && step@->Get_key == key@ && same_bytes(
                step@->Get_expected,
                expected,
            ),
            TxnStep::Put { key, value } => step@ is Put && step@->Put_key == key@ && step@->value
                == value@,
            TxnStep::Delete { key } => step@ is Delete && step@->Delete_key == key@,
            TxnStep::Commit => step@ is Commit,
        },
{
}

/// The bytes are there in both and the same, or in neither.
pub open spec fn same_bytes(seen: Option<Seq<u8>>, bytes: Option<Vec<u8>>) -> bool {
    match (seen, bytes) {
        (Some(s), Some(b)) => s == b@,
        (None, None) => true,
        _ => false,
    }
}

/// In every mode but the unsafe one, a precondition is read under a lock: with a locking read, or
/// right after its key joined the locks of the prewrite.
pub proof fn preconditions_are_read_under_a_lock(
    mode: LockMode,
    pres: Seq<Precondition>,
    n: int,
)
    requires
        !(mode is OptimisticUnlocked),
        0 <= n < checks(mode, pres).len(),
        checks(mode, pres)[n] is Get,
    ensures
        n > 0,
        checks(mode, pres)[n - 1] == (TxnStepView::LockKey { key: checks(mode, pres)[n]->Get_key }),
    decreases pres.len(),
{
    let init = checks(mode, pres.drop_last());
    if n < init.len() {
        preconditions_are_read_under_a_lock(mode, pres.drop_last(), n);
    }
}

} // verus!
