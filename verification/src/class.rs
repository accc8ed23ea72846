//! The canonical vocabulary: what the server said, in terms that every driver shares.
//!
//! A driver may normalize presentation, how a fact is spelled in one language's idiom. It may
//! never normalize the fact.

use vstd::prelude::*;
use vstd::string::*;

use crate::order::text_same;
use crate::text::{occurs, where_something_occurs};

verus! {

/// What the server said, in a closed vocabulary shared by both drivers.
#[derive(Debug, PartialEq, Eq)]
pub enum Class {
    /// The operation succeeded.
    Success,
    /// The key does not exist.
    NotFound,
    /// The transaction lost a write-write race.
    WriteConflict,
    /// The key already exists.
    KeyExists,
    /// The transaction that a lock points at is unknown.
    TxnNotFound,
    /// A lock that the client did not resolve.
    UnresolvedLock,
    /// A deadlock.
    Deadlock,
    /// An assertion on the key failed.
    AssertionFailed,
    /// The transaction may be restarted.
    Retryable,
    /// The transaction must be given up.
    Aborted,
    /// The commit timestamp is out of bounds.
    CommitTsTooLarge,
    /// A wait for a lock timed out.
    LockWaitTimeout,
    /// The outcome of the commit is unknown: it may have landed. Never roll back on this.
    Undetermined,
    /// A routing error: an event of the cluster, not behaviour of the client. A trace that carries
    /// one is no evidence, and the runner runs the scenario again.
    RegionError,
    /// A failure of the placement driver.
    PdError,
    /// A failure of the transport.
    RpcError,
    /// A multi-key error whose members disagree.
    Mixed { parts: Vec<Class> },
    /// The client has no such capability: an answer, not an error.
    Unsupported { detail: String },
    /// The harness broke. Never evidence.
    DriverError { detail: String },
    /// An error with no place in the driver's mapping table. Never evidence.
    Internal { detail: String },
}

/// What a [`Class`] says.
pub enum ClassView {
    Success,
    NotFound,
    WriteConflict,
    KeyExists,
    TxnNotFound,
    UnresolvedLock,
    Deadlock,
    AssertionFailed,
    Retryable,
    Aborted,
    CommitTsTooLarge,
    LockWaitTimeout,
    Undetermined,
    RegionError,
    PdError,
    RpcError,
    Mixed { parts: Seq<ClassView> },
    Unsupported { detail: Seq<char> },
    DriverError { detail: Seq<char> },
    Internal { detail: Seq<char> },
}

/// What each of the classes says.
pub open spec fn class_views(parts: Seq<Class>) -> Seq<ClassView>
    decreases parts,
{
    Seq::new(
        parts.len(),
        |i: int|
            if 0 <= i < parts.len() {
                class_view(parts[i])
            } else {
                ClassView::Success
            },
    )
}

/// What a class says.
pub open spec fn class_view(class: Class) -> ClassView
    decreases class,
{
    match class {
        Class::Success => ClassView::Success,
        Class::NotFound => ClassView::NotFound,
        Class::WriteConflict => ClassView::WriteConflict,
        Class::KeyExists => ClassView::KeyExists,
        Class::TxnNotFound => ClassView::TxnNotFound,
        Class::UnresolvedLock => ClassView::UnresolvedLock,
        Class::Deadlock => ClassView::Deadlock,
        Class::AssertionFailed => ClassView::AssertionFailed,
        Class::Retryable => ClassView::Retryable,
        Class::Aborted => ClassView::Aborted,
        Class::CommitTsTooLarge => ClassView::CommitTsTooLarge,
        Class::LockWaitTimeout => ClassView::LockWaitTimeout,
        Class::Undetermined => ClassView::Undetermined,
        Class::RegionError => ClassView::RegionError,
        Class::PdError => ClassView::PdError,
        Class::RpcError => ClassView::RpcError,
        Class::Mixed { parts } => ClassView::Mixed { parts: class_views(parts@) },
        Class::Unsupported { detail } => ClassView::Unsupported { detail: detail@ },
        Class::DriverError { detail } => ClassView::DriverError { detail: detail@ },
        Class::Internal { detail } => ClassView::Internal { detail: detail@ },
    }
}

impl View for Class {
    type V = ClassView;

    open spec fn view(&self) -> ClassView {
        class_view(*self)
    }
}

impl ClassView {
    /// Can a run that observed this settle a claim?
    pub open spec fn admissible(self) -> bool
        decreases self,
    {
        match self {
            ClassView::Internal { .. } => false,
            ClassView::DriverError { .. } => false,
            ClassView::RegionError => false,
            ClassView::Mixed { parts } => forall|i: int|
                0 <= i < parts.len() ==> (#[trigger] parts[i]).admissible(),
            _ => true,
        }
    }

    /// The harness held: where this cannot be evidence, it is because the cluster moved, and neither
    /// because the harness broke nor because the mapping table has a hole.
    pub open spec fn harness_held(self) -> bool
        decreases self,
    {
        match self {
            ClassView::Internal { .. } => false,
            ClassView::DriverError { .. } => false,
            ClassView::Mixed { parts } => forall|i: int|
                0 <= i < parts.len() ==> (#[trigger] parts[i]).harness_held(),
            _ => true,
        }
    }

    /// Why this cannot be evidence.
    pub open spec fn reason(self) -> Option<Seq<char>>
        decreases self, 0nat,
    {
        match self {
            ClassView::Internal { detail } => Some(
                "an error with no arm in the driver's mapping table: "@ + detail
                    + ". The taxonomy must be EXTENDED (a reviewed act), not silently widened — an unmapped error that became `ok` would be a false green."@,
            ),
            ClassView::DriverError { detail } => Some("the harness itself failed: "@ + detail),
            ClassView::RegionError => Some(moved_text()),
            ClassView::Mixed { parts } => first_reason(parts),
            _ => None,
        }
    }

    /// A stable, short tag.
    pub open spec fn tag(self) -> Seq<char> {
        match self {
            ClassView::Success => "ok"@,
            ClassView::NotFound => "not_found"@,
            ClassView::WriteConflict => "write_conflict"@,
            ClassView::KeyExists => "key_exists"@,
            ClassView::TxnNotFound => "txn_not_found"@,
            ClassView::UnresolvedLock => "unresolved_lock"@,
            ClassView::Deadlock => "deadlock"@,
            ClassView::AssertionFailed => "assertion_failed"@,
            ClassView::Retryable => "retryable"@,
            ClassView::Aborted => "aborted"@,
            ClassView::CommitTsTooLarge => "commit_ts_too_large"@,
            ClassView::LockWaitTimeout => "lock_wait_timeout"@,
            ClassView::Undetermined => "undetermined"@,
            ClassView::RegionError => "region_error"@,
            ClassView::PdError => "pd_error"@,
            ClassView::RpcError => "rpc_error"@,
            ClassView::Mixed { .. } => "mixed"@,
            ClassView::Unsupported { .. } => "unsupported"@,
            ClassView::DriverError { .. } => "driver_error"@,
            ClassView::Internal { .. } => "internal"@,
        }
    }
}

/// Why a routing error cannot be evidence.
pub open spec fn moved_text() -> Seq<char> {
    "a region error — a CLUSTER event, not client behaviour. The run says nothing about either client."@
}

/// The two classes are of one kind, whatever their details.
pub open spec fn same_kind(a: ClassView, b: ClassView) -> bool {
    match a {
        ClassView::Success => b is Success,
        ClassView::NotFound => b is NotFound,
        ClassView::WriteConflict => b is WriteConflict,
        ClassView::KeyExists => b is KeyExists,
        ClassView::TxnNotFound => b is TxnNotFound,
        ClassView::UnresolvedLock => b is UnresolvedLock,
        ClassView::Deadlock => b is Deadlock,
        ClassView::AssertionFailed => b is AssertionFailed,
        ClassView::Retryable => b is Retryable,
        ClassView::Aborted => b is Aborted,
        ClassView::CommitTsTooLarge => b is CommitTsTooLarge,
        ClassView::LockWaitTimeout => b is LockWaitTimeout,
        ClassView::Undetermined => b is Undetermined,
        ClassView::RegionError => b is RegionError,
        ClassView::PdError => b is PdError,
        ClassView::RpcError => b is RpcError,
        ClassView::Mixed { .. } => b is Mixed,
        ClassView::Unsupported { .. } => b is Unsupported,
        ClassView::DriverError { .. } => b is DriverError,
        ClassView::Internal { .. } => b is Internal,
    }
}

/// Classes of different kinds have different tags.
pub proof fn tags_tell_classes_apart(a: ClassView, b: ClassView)
    ensures
        a.tag() == b.tag() <==> same_kind(a, b),
{
    lemma_tag_letters(a);
    lemma_tag_letters(b);
}

/// The length of a tag and its first two letters.
spec fn tag_letters(class: ClassView) -> (int, char, char) {
    match class {
        ClassView::Success => (2, 'o', 'k'),
        ClassView::NotFound => (9, 'n', 'o'),
        ClassView::WriteConflict => (14, 'w', 'r'),
        ClassView::KeyExists => (10, 'k', 'e'),
        ClassView::TxnNotFound => (13, 't', 'x'),
        ClassView::UnresolvedLock => (15, 'u', 'n'),
        ClassView::Deadlock => (8, 'd', 'e'),
        ClassView::AssertionFailed => (16, 'a', 's'),
        ClassView::Retryable => (9, 'r', 'e'),
        ClassView::Aborted => (7, 'a', 'b'),
        ClassView::CommitTsTooLarge => (19, 'c', 'o'),
        ClassView::LockWaitTimeout => (17, 'l', 'o'),
        ClassView::Undetermined => (12, 'u', 'n'),
        ClassView::RegionError => (12, 'r', 'e'),
        ClassView::PdError => (8, 'p', 'd'),
        ClassView::RpcError => (9, 'r', 'p'),
        ClassView::Mixed { .. } => (5, 'm', 'i'),
        ClassView::Unsupported { .. } => (11, 'u', 'n'),
        ClassView::DriverError { .. } => (12, 'd', 'r'),
        ClassView::Internal { .. } => (8, 'i', 'n'),
    }
}

proof fn lemma_tag_letters(class: ClassView)
    ensures
        class.tag().len() == tag_letters(class).0,
        class.tag()[0] == tag_letters(class).1,
        class.tag()[1] == tag_letters(class).2,
{
    reveal_strlit("ok");
    reveal_strlit("not_found");
    reveal_strlit("write_conflict");
    reveal_strlit("key_exists");
    reveal_strlit("txn_not_found");
    reveal_strlit("unresolved_lock");
    reveal_strlit("deadlock");
    reveal_strlit("assertion_failed");
    reveal_strlit("retryable");
    reveal_strlit("aborted");
    reveal_strlit("commit_ts_too_large");
    reveal_strlit("lock_wait_timeout");
    reveal_strlit("undetermined");
    reveal_strlit("region_error");
    reveal_strlit("pd_error");
    reveal_strlit("rpc_error");
    reveal_strlit("mixed");
    reveal_strlit("unsupported");
    reveal_strlit("driver_error");
    reveal_strlit("internal");
}

/// A tag begins with a letter, and holds no comma.
pub proof fn a_tag_is_a_word(class: ClassView)
    ensures
        class.tag().len() > 0,
        class.tag()[0] != '<',
        !class.tag().contains(','),
{
    lemma_tag_letters(class);
    lemma_no_comma();
}

proof fn lemma_no_comma()
    ensures
        !"ok"@.contains(','),
        !"not_found"@.contains(','),
        !"write_conflict"@.contains(','),
        !"key_exists"@.contains(','),
        !"txn_not_found"@.contains(','),
        !"unresolved_lock"@.contains(','),
        !"deadlock"@.contains(','),
        !"assertion_failed"@.contains(','),
        !"retryable"@.contains(','),
        !"aborted"@.contains(','),
        !"commit_ts_too_large"@.contains(','),
        !"lock_wait_timeout"@.contains(','),
        !"undetermined"@.contains(','),
        !"region_error"@.contains(','),
        !"pd_error"@.contains(','),
        !"rpc_error"@.contains(','),
        !"mixed"@.contains(','),
        !"unsupported"@.contains(','),
        !"driver_error"@.contains(','),
        !"internal"@.contains(','),
{
    reveal_strlit("ok");
    reveal_strlit("not_found");
    reveal_strlit("write_conflict");
    reveal_strlit("key_exists");
    reveal_strlit("txn_not_found");
    reveal_strlit("unresolved_lock");
    reveal_strlit("deadlock");
    reveal_strlit("assertion_failed");
    reveal_strlit("retryable");
    reveal_strlit("aborted");
    reveal_strlit("commit_ts_too_large");
    reveal_strlit("lock_wait_timeout");
    reveal_strlit("undetermined");
    reveal_strlit("region_error");
    reveal_strlit("pd_error");
    reveal_strlit("rpc_error");
    reveal_strlit("mixed");
    reveal_strlit("unsupported");
    reveal_strlit("driver_error");
    reveal_strlit("internal");
}

/// The reason of the first part that has one.
pub open spec fn first_reason(parts: Seq<ClassView>) -> Option<Seq<char>>
    decreases parts, parts.len(),
{
    if parts.len() == 0 {
        None
    } else if parts[0].reason() is Some {
        parts[0].reason()
    } else {
        first_reason(parts.skip(1))
    }
}

/// An observation is refused with a reason exactly when it cannot be evidence.
pub proof fn refusals_have_reasons(class: ClassView)
    ensures
        class.reason() is Some <==> !class.admissible(),
    decreases class, 0nat,
{
    if class is Mixed {
        lemma_first_reason(class->parts);
    }
}

proof fn lemma_first_reason(parts: Seq<ClassView>)
    ensures
        first_reason(parts) is Some <==> exists|i: int|
            0 <= i < parts.len() && !(#[trigger] parts[i]).admissible(),
    decreases parts, parts.len(),
{
    if parts.len() > 0 {
        refusals_have_reasons(parts[0]);
        if parts[0].reason() is None {
            lemma_first_reason(parts.skip(1));
            if first_reason(parts.skip(1)) is Some {
                let i = choose|i: int|
                    0 <= i < parts.skip(1).len() && !(#[trigger] parts.skip(1)[i]).admissible();
                assert(!parts[i + 1].admissible());
            } else {
                assert forall|i: int| 0 <= i < parts.len() implies (
                #[trigger] parts[i]).admissible() by {
                    if i > 0 {
                        assert(parts.skip(1)[i - 1].admissible());
                    }
                }
            }
        } else {
            assert(!parts[0].admissible());
        }
    }
}

/// The view of a class keeps its kind, its detail and its parts.
pub proof fn a_class_says_what_it_is(class: Class)
    ensures
        class is Success <==> class@ is Success,
        class is NotFound <==> class@ is NotFound,
        class is WriteConflict <==> class@ is WriteConflict,
        class is KeyExists <==> class@ is KeyExists,
        class is TxnNotFound <==> class@ is TxnNotFound,
        class is UnresolvedLock <==> class@ is UnresolvedLock,
        class is Deadlock <==> class@ is Deadlock,
        class is AssertionFailed <==> class@ is AssertionFailed,
        class is Retryable <==> class@ is Retryable,
        class is Aborted <==> class@ is Aborted,
        class is CommitTsTooLarge <==> class@ is CommitTsTooLarge,
        class is LockWaitTimeout <==> class@ is LockWaitTimeout,
        class is Undetermined <==> class@ is Undetermined,
        class is RegionError <==> class@ is RegionError,
        class is PdError <==> class@ is PdError,
        class is RpcError <==> class@ is RpcError,
        class is Mixed <==> class@ is Mixed,
        class is Unsupported <==> class@ is Unsupported,
        class is DriverError <==> class@ is DriverError,
        class is Internal <==> class@ is Internal,
        class is Unsupported ==> class@->Unsupported_detail == class->Unsupported_detail@,
        class is DriverError ==> class@->DriverError_detail == class->DriverError_detail@,
        class is Internal ==> class@->Internal_detail == class->Internal_detail@,
        class is Mixed ==> class@->Mixed_parts.len() == class->Mixed_parts@.len(),
        class is Mixed ==> forall|i: int|
            0 <= i < class->Mixed_parts@.len() ==> (#[trigger] class->Mixed_parts@[i])@
                == class@->Mixed_parts[i],
{
}

/// Three kinds of observation cannot be evidence, and of these only the routing error is the
/// cluster's. A mixture is judged by its parts, all of them.
pub proof fn what_can_be_evidence(class: ClassView)
    ensures
        class !is Mixed ==> (class.admissible() <==> !(class is Internal || class is DriverError
            || class is RegionError)),
        class !is Mixed ==> (class.harness_held() <==> !(class is Internal || class is DriverError)),
        class is Mixed ==> (class.admissible() <==> forall|i: int|
            0 <= i < class->Mixed_parts.len() ==> (#[trigger] class->Mixed_parts[i]).admissible()),
        class is Mixed ==> (class.harness_held() <==> forall|i: int|
            0 <= i < class->Mixed_parts.len() ==> (
            #[trigger] class->Mixed_parts[i]).harness_held()),
        class.admissible() ==> class.harness_held(),
    decreases class,
{
    if class is Mixed {
        let parts = class->Mixed_parts;
        assert forall|i: int| 0 <= i < parts.len() && (
        #[trigger] parts[i]).admissible() implies parts[i].harness_held() by {
            what_can_be_evidence(parts[i]);
        }
    }
}

/// A reason says what was refused: it carries the detail of what broke or has no place in the table,
/// what broke and what has no place are refused for different reasons, and a mixture is refused for
/// the first of its parts that is.
pub proof fn a_reason_says_what_was_refused(class: ClassView)
    ensures
        class is Internal ==> class.reason() is Some && occurs(
            class.reason()->0,
            class->Internal_detail,
        ),
        class is DriverError ==> class.reason() is Some && occurs(
            class.reason()->0,
            class->DriverError_detail,
        ),
        class is RegionError ==> class.reason() is Some,
        class is Internal ==> class.reason() != (ClassView::DriverError {
            detail: class->Internal_detail,
        }).reason(),
        class is Mixed && class.reason() is Some ==> exists|i: int|
            {
                &&& 0 <= i < class->Mixed_parts.len()
                &&& (#[trigger] class->Mixed_parts[i]).reason() == class.reason()
                &&& forall|j: int|
                    0 <= j < i ==> (#[trigger] class->Mixed_parts[j]).reason() is None
            },
        class is Mixed && class.reason() is None ==> forall|i: int|
            0 <= i < class->Mixed_parts.len() ==> (
            #[trigger] class->Mixed_parts[i]).reason() is None,
        !(class is Internal || class is DriverError || class is RegionError || class is Mixed)
            ==> class.reason() is None,
{
    match class {
        ClassView::Internal { detail } => {
            let tail = ". The taxonomy must be EXTENDED (a reviewed act), not silently widened — an unmapped error that became `ok` would be a false green."@;
            where_something_occurs(
                "an error with no arm in the driver's mapping table: "@,
                detail,
                tail,
            );
            let broke = (ClassView::DriverError { detail }).reason()->0;
            reveal_strlit("an error with no arm in the driver's mapping table: ");
            reveal_strlit("the harness itself failed: ");
            assert(class.reason()->0[0] == 'a');
            assert(broke[0] == 't');
        },
        ClassView::DriverError { detail } => {
            let head = "the harness itself failed: "@;
            where_something_occurs(head, detail, Seq::empty());
            assert(head + detail + Seq::<char>::empty() =~= head + detail);
        },
        ClassView::Mixed { parts } => {
            lemma_first_reason_is_first(parts);
        },
        _ => {},
    }
}

proof fn lemma_first_reason_is_first(parts: Seq<ClassView>)
    ensures
        first_reason(parts) is Some ==> exists|i: int|
            {
                &&& 0 <= i < parts.len()
                &&& (#[trigger] parts[i]).reason() == first_reason(parts)
                &&& forall|j: int| 0 <= j < i ==> (#[trigger] parts[j]).reason() is None
            },
        first_reason(parts) is None ==> forall|i: int|
            0 <= i < parts.len() ==> (#[trigger] parts[i]).reason() is None,
    decreases parts.len(),
{
    if parts.len() > 0 && parts[0].reason() is None {
        let rest = parts.skip(1);
        lemma_first_reason_is_first(rest);
        if first_reason(parts) is Some {
            let i = choose|i: int|
                {
                    &&& 0 <= i < rest.len()
                    &&& (#[trigger] rest[i]).reason() == first_reason(rest)
                    &&& forall|j: int| 0 <= j < i ==> (#[trigger] rest[j]).reason() is None
                };
            assert(parts[i + 1].reason() == first_reason(parts));
            assert forall|j: int| 0 <= j < i + 1 implies (#[trigger] parts[j]).reason() is None by {
                if j > 0 {
                    assert(rest[j - 1].reason() is None);
                }
            }
        } else {
            assert forall|i: int| 0 <= i < parts.len() implies (
            #[trigger] parts[i]).reason() is None by {
                if i > 0 {
                    assert(rest[i - 1].reason() is None);
                }
            }
        }
    } else if parts.len() > 0 {
        assert(parts[0].reason() == first_reason(parts));
    }
}

/// Where the harness held and an observation is refused, the reason is that the cluster moved.
pub proof fn a_held_harness_leaves_the_cluster(class: ClassView)
    requires
        class.harness_held(),
    ensures
        class.reason() is Some ==> class.reason() == Some(moved_text()),
    decreases class, 0nat,
{
    if class is Mixed {
        lemma_first_moved(class->parts);
    }
}

proof fn lemma_first_moved(parts: Seq<ClassView>)
    requires
        forall|i: int| 0 <= i < parts.len() ==> (#[trigger] parts[i]).harness_held(),
    ensures
        first_reason(parts) is Some ==> first_reason(parts) == Some(moved_text()),
    decreases parts, parts.len(),
{
    if parts.len() > 0 {
        a_held_harness_leaves_the_cluster(parts[0]);
        lemma_first_moved(parts.skip(1));
    }
}

impl Clone for Class {
    fn clone(&self) -> (r: Self)
        ensures
            r@ == self@,
        decreases self,
    {
        match self {
            Class::Success => Class::Success,
            Class::NotFound => Class::NotFound,
            Class::WriteConflict => Class::WriteConflict,
            Class::KeyExists => Class::KeyExists,
            Class::TxnNotFound => Class::TxnNotFound,
            Class::UnresolvedLock => Class::UnresolvedLock,
            Class::Deadlock => Class::Deadlock,
            Class::AssertionFailed => Class::AssertionFailed,
            Class::Retryable => Class::Retryable,
            Class::Aborted => Class::Aborted,
            Class::CommitTsTooLarge => Class::CommitTsTooLarge,
            Class::LockWaitTimeout => Class::LockWaitTimeout,
            Class::Undetermined => Class::Undetermined,
            Class::RegionError => Class::RegionError,
            Class::PdError => Class::PdError,
            Class::RpcError => Class::RpcError,
            Class::Mixed { parts } => {
                let mut copies: Vec<Class> = Vec::new();
                let mut i: usize = 0;
                while i < parts.len()
                    invariant
                        i <= parts@.len(),
                        copies@.len() == i,
                        forall|j: int| 0 <= j < i ==> (#[trigger] copies@[j])@ == parts@[j]@,
                        decreases_to!(self => parts@),
                    decreases parts@.len() - i,
                {
                    copies.push(parts[i].clone());
                    i = i + 1;
                }
                proof {
                    assert(class_views(copies@) =~= class_views(parts@));
                }
                Class::Mixed { parts: copies }
            },
            Class::Unsupported { detail } => Class::Unsupported { detail: detail.clone() },
            Class::DriverError { detail } => Class::DriverError { detail: detail.clone() },
            Class::Internal { detail } => Class::Internal { detail: detail.clone() },
        }
    }
}

impl Class {
    /// Do the two classes say the same?
    pub fn same(&self, other: &Class) -> (r: bool)
        ensures
            r == (self@ == other@),
        decreases self,
    {
        match (self, other) {
            (Class::Success, Class::Success) => true,
            (Class::NotFound, Class::NotFound) => true,
            (Class::WriteConflict, Class::WriteConflict) => true,
            (Class::KeyExists, Class::KeyExists) => true,
            (Class::TxnNotFound, Class::TxnNotFound) => true,
            (Class::UnresolvedLock, Class::UnresolvedLock) => true,
            (Class::Deadlock, Class::Deadlock) => true,
            (Class::AssertionFailed, Class::AssertionFailed) => true,
            (Class::Retryable, Class::Retryable) => true,
            (Class::Aborted, Class::Aborted) => true,
            (Class::CommitTsTooLarge, Class::CommitTsTooLarge) => true,
            (Class::LockWaitTimeout, Class::LockWaitTimeout) => true,
            (Class::Undetermined, Class::Undetermined) => true,
            (Class::RegionError, Class::RegionError) => true,
            (Class::PdError, Class::PdError) => true,
            (Class::RpcError, Class::RpcError) => true,
            (Class::Mixed { parts: a }, Class::Mixed { parts: b }) => {
                proof {
                    assert(class_views(a@).len() == a@.len());
                    assert(class_views(b@).len() == b@.len());
                }
                if a.len() != b.len() {
                    return false;
                }
                let mut i: usize = 0;
                while i < a.len()
                    invariant
                        i <= a@.len(),
                        a@.len() == b@.len(),
                        forall|j: int| 0 <= j < i ==> (#[trigger] a@[j])@ == b@[j]@,
                        self@ == (ClassView::Mixed { parts: class_views(a@) }),
                        other@ == (ClassView::Mixed { parts: class_views(b@) }),
                        decreases_to!(self => a@),
                    decreases a@.len() - i,
                {
                    if !a[i].same(&b[i]) {
                        proof {
                            assert(class_views(a@)[i as int] != class_views(b@)[i as int]);
                        }
                        return false;
                    }
                    i = i + 1;
                }
                proof {
                    assert(class_views(a@) =~= class_views(b@));
                }
                true
            },
            (Class::Unsupported { detail: a }, Class::Unsupported { detail: b }) => text_same(
                a.as_str(),
                b.as_str(),
            ),
            (Class::DriverError { detail: a }, Class::DriverError { detail: b }) => text_same(
                a.as_str(),
                b.as_str(),
            ),
            (Class::Internal { detail: a }, Class::Internal { detail: b }) => text_same(
                a.as_str(),
                b.as_str(),
            ),
            _ => false,
        }
    }

    /// Can a run that observed this settle a claim?
    ///
    /// Three classes cannot: `Internal` (the mapping table has a hole), `DriverError` (the
    /// harness broke) and `RegionError` (the cluster moved). A `Mixed` can only if every part
    /// can.
    pub fn is_admissible(&self) -> (r: bool)
        ensures
            r == self@.admissible(),
        decreases self,
    {
        match self {
            Class::Internal { .. } => false,
            Class::DriverError { .. } => false,
            Class::RegionError => false,
            Class::Mixed { parts } => {
                let mut i: usize = 0;
                while i < parts.len()
                    invariant
                        i <= parts@.len(),
                        forall|j: int|
                            0 <= j < i ==> (#[trigger] class_views(parts@)[j]).admissible(),
                        self@ == (ClassView::Mixed { parts: class_views(parts@) }),
                        decreases_to!(self => parts@),
                    decreases parts@.len() - i,
                {
                    if !parts[i].is_admissible() {
                        proof {
                            let views = self@->Mixed_parts;
                            assert(!views[i as int].admissible());
                            assert(!self@.admissible());
                        }
                        return false;
                    }
                    i = i + 1;
                }
                true
            },
            _ => true,
        }
    }

    /// Did the harness hold, so that only the cluster can stand against this as evidence?
    pub fn is_harness_held(&self) -> (r: bool)
        ensures
            r == self@.harness_held(),
        decreases self,
    {
        match self {
            Class::Internal { .. } => false,
            Class::DriverError { .. } => false,
            Class::Mixed { parts } => {
                let mut i: usize = 0;
                while i < parts.len()
                    invariant
                        i <= parts@.len(),
                        forall|j: int|
                            0 <= j < i ==> (#[trigger] class_views(parts@)[j]).harness_held(),
                        self@ == (ClassView::Mixed { parts: class_views(parts@) }),
                        decreases_to!(self => parts@),
                    decreases parts@.len() - i,
                {
                    if !parts[i].is_harness_held() {
                        proof {
                            let views = self@->Mixed_parts;
                            assert(!views[i as int].harness_held());
                            assert(!self@.harness_held());
                        }
                        return false;
                    }
                    i = i + 1;
                }
                true
            },
            _ => true,
        }
    }

    /// Why this observation cannot be evidence, for the refusal message.
    pub fn inadmissible_reason(&self) -> (r: Option<String>)
        ensures
            r is Some <==> self@.reason() is Some,
            r is Some ==> r->0@ == self@.reason()->0,
            r is Some <==> !self@.admissible(),
        decreases self,
    {
        proof {
            refusals_have_reasons(self@);
        }
        match self {
            Class::Internal { detail } => {
                let mut why: String = "an error with no arm in the driver's mapping table: ".to_owned();
                why.append(detail.as_str());
                why.append(
                    ". The taxonomy must be EXTENDED (a reviewed act), not silently widened — an unmapped error that became `ok` would be a false green.",
                );
                Some(why)
            },
            Class::DriverError { detail } => {
                let mut why: String = "the harness itself failed: ".to_owned();
                why.append(detail.as_str());
                Some(why)
            },
            Class::RegionError => Some(
                "a region error — a CLUSTER event, not client behaviour. The run says nothing about either client.".to_owned(),
            ),
            Class::Mixed { parts } => {
                let mut i: usize = 0;
                proof {
                    assert(class_views(parts@).skip(0) =~= class_views(parts@));
                }
                while i < parts.len()
                    invariant
                        i <= parts@.len(),
                        self@ == (ClassView::Mixed { parts: class_views(parts@) }),
                        first_reason(class_views(parts@).skip(i as int)) == self@.reason(),
                        self@.reason() is Some <==> !self@.admissible(),
                        decreases_to!(self => parts@),
                    decreases parts@.len() - i,
                {
                    let found: Option<String> = parts[i].inadmissible_reason();
                    proof {
                        let rest = class_views(parts@).skip(i as int);
                        assert(rest[0] == parts@[i as int]@);
                        assert(rest.skip(1) =~= class_views(parts@).skip(i + 1));
                    }
                    if found.is_some() {
                        return found;
                    }
                    i = i + 1;
                }
                proof {
                    assert(class_views(parts@).skip(i as int).len() == 0);
                }
                None
            },
            _ => None,
        }
    }

    /// A stable, short tag for divergence reports and ledger signatures.
    pub fn tag(&self) -> (r: &'static str)
        ensures
            r@ == self@.tag(),
    {
        match self {
            Class::Success => "ok",
            Class::NotFound => "not_found",
            Class::WriteConflict => "write_conflict",
            Class::KeyExists => "key_exists",
            Class::TxnNotFound => "txn_not_found",
            Class::UnresolvedLock => "unresolved_lock",
            Class::Deadlock => "deadlock",
            Class::AssertionFailed => "assertion_failed",
            Class::Retryable => "retryable",
            Class::Aborted => "aborted",
            Class::CommitTsTooLarge => "commit_ts_too_large",
            Class::LockWaitTimeout => "lock_wait_timeout",
            Class::Undetermined => "undetermined",
            Class::RegionError => "region_error",
            Class::PdError => "pd_error",
            Class::RpcError => "rpc_error",
            Class::Mixed { .. } => "mixed",
            Class::Unsupported { .. } => "unsupported",
            Class::DriverError { .. } => "driver_error",
            Class::Internal { .. } => "internal",
        }
    }
}

} // verus!
