//! A driver: what each command asks of the client, and what is reported of the client's answer.

use vstd::prelude::*;
use vstd::string::*;

use crate::class::{Class, ClassView};
use crate::command::{
    ClientId, Command, CommandView, Hello, HelloView, TxnMode, PROTOCOL_VERSION,
};
use crate::driver::Response;
use crate::mapping::{classify, error_class, error_name, observed_error, ClientError};
use crate::observation::{Bytes, LockObs, Observation};
use crate::order::texts;
use crate::sorted::SortedMap;
use crate::text::{
    copy_bytes, decimal, decimal_text, decimals_tell_numbers_apart, lemma_digits,
};

verus! {

/// The names of the clients and of the sessions that a driver holds.
pub struct Driver {
    clients: SortedMap<bool>,
    sessions: SortedMap<bool>,
}

/// What a driver asks of the client.
#[derive(Debug)]
pub enum Request {
    /// Connect a client under this name.
    Connect { name: String },
    /// Let the client go.
    Close { name: String },
    Begin { session: String, client: String, mode: TxnMode },
    Put { session: String, key: Vec<u8>, value: Vec<u8> },
    Get { session: String, key: Vec<u8> },
    /// Commit the transaction, and let it go.
    Commit { session: String },
    /// Roll the transaction back, and let it go.
    Rollback { session: String },
    /// Read at a fresh timestamp.
    SnapshotGet { client: String, key: Vec<u8> },
    /// Find every lock in the range, at a fresh timestamp.
    ScanLocks { client: String, start: Vec<u8>, end: Vec<u8>, batch_size: u32 },
    /// Let the transaction go, neither committed nor rolled back.
    Drop { session: String },
}

/// What a [`Request`] says.
pub enum RequestView {
    Connect { name: Seq<char> },
    Close { name: Seq<char> },
    Begin { session: Seq<char>, client: Seq<char>, mode: TxnMode },
    Put { session: Seq<char>, key: Seq<u8>, value: Seq<u8> },
    Get { session: Seq<char>, key: Seq<u8> },
    Commit { session: Seq<char> },
    Rollback { session: Seq<char> },
    SnapshotGet { client: Seq<char>, key: Seq<u8> },
    ScanLocks { client: Seq<char>, start: Seq<u8>, end: Seq<u8>, batch_size: u32 },
    Drop { session: Seq<char> },
}

impl View for Request {
    type V = RequestView;

    open spec fn view(&self) -> RequestView {
        match *self {
            Request::Connect { name } => RequestView::Connect { name: name@ },
            Request::Close { name } => RequestView::Close { name: name@ },
            Request::Begin { session, client, mode } => RequestView::Begin {
                session: session@,
                client: client@,
                mode,
            },
            Request::Put { session, key, value } => RequestView::Put {
                session: session@,
                key: key@,
                value: value@,
            },
            Request::Get { session, key } => RequestView::Get { session: session@, key: key@ },
            Request::Commit { session } => RequestView::Commit { session: session@ },
            Request::Rollback { session } => RequestView::Rollback { session: session@ },
            Request::SnapshotGet { client, key } => RequestView::SnapshotGet {
                client: client@,
                key: key@,
            },
            Request::ScanLocks { client, start, end, batch_size } => RequestView::ScanLocks {
                client: client@,
                start: start@,
                end: end@,
                batch_size,
            },
            Request::Drop { session } => RequestView::Drop { session: session@ },
        }
    }
}

/// How a driver treats a command.
#[derive(Debug)]
pub enum Plan {
    /// It replies at once.
    Reply(Response),
    /// It asks the client first.
    Ask(Request),
}

/// An error of the client, and how the client prints it.
#[derive(Debug)]
pub struct Failure {
    pub error: ClientError,
    pub display: String,
}

/// A lock, as the client reports it.
#[derive(Debug)]
pub struct LockInfo {
    pub key: Vec<u8>,
    pub primary: Vec<u8>,
    /// The number of the operation.
    pub op: i32,
    pub ttl_ms: u64,
    pub txn_start_ts: u64,
}

/// What a driver says of itself.
pub open spec fn own_greeting() -> HelloView {
    HelloView {
        driver: "rust"@,
        protocol: PROTOCOL_VERSION@,
        client_name: "tikv-client"@,
        client_version: "path:../client-rust (see results/provenance.json)"@,
        client_replaced: false,
        features: seq!["scan_locks"@],
        config: seq!["drop_check=warn (stock default is panic)"@],
    }
}

/// Why the driver answers `prewrite_only` with a capability gap.
pub open spec fn no_probes_text() -> Seq<char> {
    "client-rust exposes no test probes (its mocks are #[cfg(test)]), so a caller cannot drive 2PC phase-by-phase. client-go exports CommitterProbe from a non-test file. The driver does NOT emulate this: the gap is the finding."@
}

/// The reply carries an observation of nothing but this class.
pub open spec fn says(reply: Response, class: ClassView) -> bool {
    &&& reply.hello is None
    &&& reply.observation matches Some(obs) && obs.class@ == class && obs.bare()
}

/// The reply says that the harness broke.
pub open spec fn breaks(reply: Response, why: Seq<char>) -> bool {
    says(reply, ClassView::DriverError { detail: why })
}

/// The reply reports an error of the client.
pub open spec fn reports(reply: Response, failure: Failure) -> bool {
    &&& reply.hello is None
    &&& reply.observation matches Some(obs) && observed_error(
        failure.error,
        failure.display@,
        obs,
    )
}

/// Why a command for a session that is not open breaks.
pub open spec fn no_session_text(session: Seq<char>) -> Seq<char> {
    "no such session: "@ + session
}

/// What a command asks of the client, where the name that it needs is held.
pub open spec fn request_of(cmd: CommandView) -> RequestView {
    match cmd {
        CommandView::OpenClient { name } => RequestView::Connect { name },
        CommandView::CloseClient { name } => RequestView::Close { name },
        CommandView::Begin { session, client, mode } => RequestView::Begin {
            session,
            client,
            mode,
        },
        CommandView::Put { session, key, value } => RequestView::Put {
            session,
            key: key.bytes(),
            value: value.bytes(),
        },
        CommandView::Get { session, key } => RequestView::Get { session, key: key.bytes() },
        CommandView::Commit { session } => RequestView::Commit { session },
        CommandView::Rollback { session } => RequestView::Rollback { session },
        CommandView::SnapshotGet { client, key } => RequestView::SnapshotGet {
            client,
            key: key.bytes(),
        },
        CommandView::ScanLocks { client, start, end, batch_size } => RequestView::ScanLocks {
            client,
            start: start.bytes(),
            end: end.bytes(),
            batch_size,
        },
        CommandView::Abandon { session } => RequestView::Drop { session },
        CommandView::Hello | CommandView::PrewriteOnly { .. } => arbitrary(),
    }
}

/// Why the name that a command needs is not held.
pub open spec fn missing_text(cmd: CommandView) -> Seq<char> {
    match cmd {
        CommandView::Begin { client, .. } => "begin: no such client "@ + client,
        CommandView::SnapshotGet { client, .. } => "snapshot_get: no such client "@ + client,
        CommandView::ScanLocks { client, .. } => "scan_locks: no such client "@ + client,
        CommandView::Put { session, .. } => no_session_text(session),
        CommandView::Get { session, .. } => no_session_text(session),
        CommandView::Commit { session } => no_session_text(session),
        CommandView::Rollback { session } => no_session_text(session),
        _ => Seq::empty(),
    }
}

impl Driver {
    /// The names of the clients that are held.
    pub closed spec fn clients(self) -> Set<Seq<char>> {
        self.clients@.dom()
    }

    /// The names of the sessions that are held.
    pub closed spec fn sessions(self) -> Set<Seq<char>> {
        self.sessions@.dom()
    }

    /// The name that the command needs is held.
    pub open spec fn holds(self, cmd: CommandView) -> bool {
        match cmd {
            CommandView::Begin { client, .. } => self.clients().contains(client),
            CommandView::SnapshotGet { client, .. } => self.clients().contains(client),
            CommandView::ScanLocks { client, .. } => self.clients().contains(client),
            CommandView::Put { session, .. } => self.sessions().contains(session),
            CommandView::Get { session, .. } => self.sessions().contains(session),
            CommandView::Commit { session } => self.sessions().contains(session),
            CommandView::Rollback { session } => self.sessions().contains(session),
            _ => true,
        }
    }

    /// The sessions that are held once the command is under way.
    pub open spec fn sessions_after(self, cmd: CommandView) -> Set<Seq<char>> {
        match cmd {
            CommandView::Commit { session } => self.sessions().remove(session),
            CommandView::Rollback { session } => self.sessions().remove(session),
            CommandView::Abandon { session } => self.sessions().remove(session),
            _ => self.sessions(),
        }
    }

    /// The clients that are held once the command is under way.
    pub open spec fn clients_after(self, cmd: CommandView) -> Set<Seq<char>> {
        match cmd {
            CommandView::CloseClient { name } => self.clients().remove(name),
            _ => self.clients(),
        }
    }

    /// A driver that holds nothing.
    pub fn new() -> (r: Self)
        ensures
            r.clients() == Set::<Seq<char>>::empty(),
            r.sessions() == Set::<Seq<char>>::empty(),
    {
        Driver { clients: SortedMap::new(), sessions: SortedMap::new() }
    }

    /// Is a client held under this name?
    fn has_client(&self, name: &str) -> (r: bool)
        ensures
            r == self.clients().contains(name@),
    {
        self.clients.get(name).is_some()
    }

    /// Is a session held under this name?
    fn has_session(&self, name: &str) -> (r: bool)
        ensures
            r == self.sessions().contains(name@),
    {
        self.sessions.get(name).is_some()
    }

    /// Begin to execute a command.
    ///
    /// A session that is committed, rolled back or abandoned is let go whatever comes of it.
    pub fn execute(&mut self, cmd: &Command) -> (r: Plan)
        ensures
            final(self).clients() == old(self).clients_after(cmd@),
            final(self).sessions() == old(self).sessions_after(cmd@),
            match cmd@ {
                CommandView::Hello => r matches Plan::Reply(reply) && {
                    &&& reply.hello matches Some(hello) && hello@ == own_greeting()
                    &&& reply.observation is None
                },
                CommandView::PrewriteOnly { .. } => r matches Plan::Reply(reply) && says(
                    reply,
                    ClassView::Unsupported { detail: no_probes_text() },
                ),
                _ => if old(self).holds(cmd@) {
                    r matches Plan::Ask(request) && request@ == request_of(cmd@)
                } else {
                    r matches Plan::Reply(reply) && breaks(reply, missing_text(cmd@))
                },
            },
    {
        match cmd {
            Command::Hello => Plan::Reply(Response::hello(greet())),
            Command::OpenClient { name } => Plan::Ask(Request::Connect { name: name.clone() }),
            Command::CloseClient { name } => {
                self.clients.remove(name.as_str());
                proof {
                    assert(self.clients() =~= old(self).clients().remove(name@));
                }
                Plan::Ask(Request::Close { name: name.clone() })
            },
            Command::Begin { session, client, mode } => {
                if !self.has_client(client.as_str()) {
                    return Plan::Reply(broken("begin: no such client ", client.as_str()));
                }
                Plan::Ask(
                    Request::Begin { session: session.clone(), client: client.clone(), mode: *mode },
                )
            },
            Command::Put { session, key, value } => {
                if !self.has_session(session.as_str()) {
                    return Plan::Reply(no_session(session.as_str()));
                }
                Plan::Ask(
                    Request::Put {
                        session: session.clone(),
                        key: key.bytes(),
                        value: value.bytes(),
                    },
                )
            },
            Command::Get { session, key } => {
                if !self.has_session(session.as_str()) {
                    return Plan::Reply(no_session(session.as_str()));
                }
                Plan::Ask(Request::Get { session: session.clone(), key: key.bytes() })
            },
            Command::Commit { session } => {
                let held: bool = self.has_session(session.as_str());
                self.sessions.remove(session.as_str());
                proof {
                    assert(self.sessions() =~= old(self).sessions().remove(session@));
                }
                if !held {
                    return Plan::Reply(no_session(session.as_str()));
                }
                Plan::Ask(Request::Commit { session: session.clone() })
            },
            Command::Rollback { session } => {
                let held: bool = self.has_session(session.as_str());
                self.sessions.remove(session.as_str());
                proof {
                    assert(self.sessions() =~= old(self).sessions().remove(session@));
                }
                if !held {
                    return Plan::Reply(no_session(session.as_str()));
                }
                Plan::Ask(Request::Rollback { session: session.clone() })
            },
            Command::SnapshotGet { client, key } => {
                if !self.has_client(client.as_str()) {
                    return Plan::Reply(broken("snapshot_get: no such client ", client.as_str()));
                }
                Plan::Ask(Request::SnapshotGet { client: client.clone(), key: key.bytes() })
            },
            Command::ScanLocks { client, start, end, batch_size } => {
                if !self.has_client(client.as_str()) {
                    return Plan::Reply(broken("scan_locks: no such client ", client.as_str()));
                }
                Plan::Ask(
                    Request::ScanLocks {
                        client: client.clone(),
                        start: start.bytes(),
                        end: end.bytes(),
                        batch_size: *batch_size,
                    },
                )
            },
            // The gap is stated, not papered over: to emulate this would change the setup.
            Command::PrewriteOnly { .. } => Plan::Reply(
                Response::observation(
                    Observation::unsupported(
                        "client-rust exposes no test probes (its mocks are #[cfg(test)]), so a caller cannot drive 2PC phase-by-phase. client-go exports CommitterProbe from a non-test file. The driver does NOT emulate this: the gap is the finding.",
                    ),
                ),
            ),
            Command::Abandon { session } => {
                self.sessions.remove(session.as_str());
                proof {
                    assert(self.sessions() =~= old(self).sessions().remove(session@));
                }
                Plan::Ask(Request::Drop { session: session.clone() })
            },
        }
    }

    /// A client was connected under this name, or was not.
    pub fn connected(&mut self, name: &str, outcome: Result<(), String>) -> (r: Response)
        ensures
            final(self).sessions() == old(self).sessions(),
            match outcome {
                Ok(()) => {
                    &&& final(self).clients() == old(self).clients().insert(name@)
                    &&& says(r, ClassView::Success)
                },
                Err(why) => {
                    &&& final(self).clients() == old(self).clients()
                    &&& breaks(r, "open_client: "@ + why@)
                },
            },
    {
        match outcome {
            Ok(()) => {
                self.clients.insert(name.to_owned(), true);
                proof {
                    assert(self.clients() =~= old(self).clients().insert(name@));
                }
                Response::observation(Observation::ok())
            },
            Err(why) => broken("open_client: ", why.as_str()),
        }
    }

    /// A transaction began as this session at a timestamp, or did not.
    pub fn began(&mut self, session: &str, outcome: Result<u64, Failure>) -> (r: Response)
        ensures
            final(self).clients() == old(self).clients(),
            match outcome {
                Ok(ts) => {
                    &&& final(self).sessions() == old(self).sessions().insert(session@)
                    &&& r.hello is None
                    &&& r.observation matches Some(obs) && obs.class@ is Success && obs.start_ts
                        == Some(ts) && (Observation { start_ts: None, ..obs }).bare()
                },
                Err(failure) => {
                    &&& final(self).sessions() == old(self).sessions()
                    &&& reports(r, failure)
                },
            },
    {
        match outcome {
            Ok(ts) => {
                self.sessions.insert(session.to_owned(), true);
                proof {
                    assert(self.sessions() =~= old(self).sessions().insert(session@));
                }
                Response::observation(Observation::ok().with_start_ts(ts))
            },
            Err(failure) => failed(failure),
        }
    }
}

/// A session that was committed, rolled back or abandoned is gone: no later command finds it.
pub proof fn a_resolved_session_is_gone(before: Driver, after: Driver, cmd: CommandView, later: CommandView)
    requires
        after.sessions() == before.sessions_after(cmd),
        cmd is Commit || cmd is Rollback || cmd is Abandon,
        match later {
            CommandView::Put { session, .. } => Some(session),
            CommandView::Get { session, .. } => Some(session),
            CommandView::Commit { session } => Some(session),
            CommandView::Rollback { session } => Some(session),
            _ => None,
        } == Some(
            match cmd {
                CommandView::Commit { session } => session,
                CommandView::Rollback { session } => session,
                CommandView::Abandon { session } => session,
                _ => arbitrary(),
            },
        ),
    ensures
        !after.holds(later),
{
}

/// The view of a request keeps what is asked and everything that it names.
pub proof fn a_request_says_what_is_asked(request: Request)
    ensures
        request is Connect <==> request@ is Connect,
        request is Close <==> request@ is Close,
        request is Begin <==> request@ is Begin,
        request is Put <==> request@ is Put,
        request is Get <==> request@ is Get,
        request is Commit <==> request@ is Commit,
        request is Rollback <==> request@ is Rollback,
        request is SnapshotGet <==> request@ is SnapshotGet,
        request is ScanLocks <==> request@ is ScanLocks,
        request is Drop <==> request@ is Drop,
        request is Connect ==> request@->Connect_name == request->Connect_name@,
        request is Close ==> request@->Close_name == request->Close_name@,
        request is Begin ==> request@->Begin_session == request->Begin_session@,
        request is Begin ==> request@->Begin_client == request->Begin_client@,
        request is Begin ==> request@->mode == request->mode,
        request is Put ==> request@->Put_session == request->Put_session@,
        request is Put ==> request@->Put_key == request->Put_key@,
        request is Put ==> request@->value == request->value@,
        request is Get ==> request@->Get_session == request->Get_session@,
        request is Get ==> request@->Get_key == request->Get_key@,
        request is Commit ==> request@->Commit_session == request->Commit_session@,
        request is Rollback ==> request@->Rollback_session == request->Rollback_session@,
        request is SnapshotGet ==> request@->SnapshotGet_client == request->SnapshotGet_client@,
        request is SnapshotGet ==> request@->SnapshotGet_key == request->SnapshotGet_key@,
        request is ScanLocks ==> request@->ScanLocks_client == request->ScanLocks_client@,
        request is ScanLocks ==> request@->start == request->start@,
        request is ScanLocks ==> request@->end == request->end@,
        request is ScanLocks ==> request@->batch_size == request->batch_size,
        request is Drop ==> request@->Drop_session == request->Drop_session@,
{
}

/// A command asks for its own operation and for no other, in the session or at the client that it
/// names, and with the bytes that its arguments spell.
pub proof fn a_request_is_the_commands_own(cmd: CommandView)
    requires
        !(cmd is Hello) && !(cmd is PrewriteOnly),
    ensures
        request_of(cmd) is Connect <==> cmd is OpenClient,
        request_of(cmd) is Close <==> cmd is CloseClient,
        request_of(cmd) is Begin <==> cmd is Begin,
        request_of(cmd) is Put <==> cmd is Put,
        request_of(cmd) is Get <==> cmd is Get,
        request_of(cmd) is Commit <==> cmd is Commit,
        request_of(cmd) is Rollback <==> cmd is Rollback,
        request_of(cmd) is SnapshotGet <==> cmd is SnapshotGet,
        request_of(cmd) is ScanLocks <==> cmd is ScanLocks,
        request_of(cmd) is Drop <==> cmd is Abandon,
        cmd is OpenClient ==> request_of(cmd)->Connect_name == cmd->OpenClient_name,
        cmd is CloseClient ==> request_of(cmd)->Close_name == cmd->CloseClient_name,
        cmd is Begin ==> request_of(cmd)->Begin_session == cmd->Begin_session && request_of(
            cmd,
        )->Begin_client == cmd->Begin_client && request_of(cmd)->mode == cmd->mode,
        cmd is Put ==> request_of(cmd)->Put_session == cmd->Put_session && request_of(cmd)->Put_key
            == cmd->Put_key.bytes() && request_of(cmd)->value == cmd->value.bytes(),
        cmd is Get ==> request_of(cmd)->Get_session == cmd->Get_session && request_of(cmd)->Get_key
            == cmd->Get_key.bytes(),
        cmd is Commit ==> request_of(cmd)->Commit_session == cmd->Commit_session,
        cmd is Rollback ==> request_of(cmd)->Rollback_session == cmd->Rollback_session,
        cmd is SnapshotGet ==> request_of(cmd)->SnapshotGet_client == cmd->SnapshotGet_client
            && request_of(cmd)->SnapshotGet_key == cmd->SnapshotGet_key.bytes(),
        cmd is ScanLocks ==> request_of(cmd)->ScanLocks_client == cmd->ScanLocks_client
            && request_of(cmd)->start == cmd->start.bytes() && request_of(cmd)->end
            == cmd->end.bytes() && request_of(cmd)->batch_size == cmd->batch_size,
        cmd is Abandon ==> request_of(cmd)->Drop_session == cmd->Abandon_session,
{
}

/// Commands that become the same request are of one operation, for one session or client, and spell
/// the same bytes.
pub proof fn different_commands_ask_differently(a: CommandView, b: CommandView)
    requires
        !(a is Hello) && !(a is PrewriteOnly),
        !(b is Hello) && !(b is PrewriteOnly),
        request_of(a) == request_of(b),
    ensures
        match (a, b) {
            (
                CommandView::Put { session: s, key: k, value: v },
                CommandView::Put { session: t, key: l, value: w },
            ) => s == t && k.bytes() == l.bytes() && v.bytes() == w.bytes(),
            (
                CommandView::Get { session: s, key: k },
                CommandView::Get { session: t, key: l },
            ) => s == t && k.bytes() == l.bytes(),
            (
                CommandView::SnapshotGet { client: s, key: k },
                CommandView::SnapshotGet { client: t, key: l },
            ) => s == t && k.bytes() == l.bytes(),
            (
                CommandView::ScanLocks { client: s, start: k, end: v, batch_size: m },
                CommandView::ScanLocks { client: t, start: l, end: w, batch_size: n },
            ) => s == t && k.bytes() == l.bytes() && v.bytes() == w.bytes() && m == n,
            _ => a == b,
        },
{
    a_request_is_the_commands_own(a);
    a_request_is_the_commands_own(b);
}

/// A command is carried out exactly where what it names is held: the session of a read, a write, a
/// commit or a rollback, and the client of a beginning, a snapshot or a scan. Nothing else has to be
/// held.
pub proof fn a_command_needs_what_it_names(driver: Driver, cmd: CommandView)
    ensures
        cmd is Put ==> (driver.holds(cmd) <==> driver.sessions().contains(cmd->Put_session)),
        cmd is Get ==> (driver.holds(cmd) <==> driver.sessions().contains(cmd->Get_session)),
        cmd is Commit ==> (driver.holds(cmd) <==> driver.sessions().contains(
            cmd->Commit_session,
        )),
        cmd is Rollback ==> (driver.holds(cmd) <==> driver.sessions().contains(
            cmd->Rollback_session,
        )),
        cmd is Begin ==> (driver.holds(cmd) <==> driver.clients().contains(cmd->Begin_client)),
        cmd is SnapshotGet ==> (driver.holds(cmd) <==> driver.clients().contains(
            cmd->SnapshotGet_client,
        )),
        cmd is ScanLocks ==> (driver.holds(cmd) <==> driver.clients().contains(
            cmd->ScanLocks_client,
        )),
        cmd is Hello || cmd is OpenClient || cmd is CloseClient || cmd is PrewriteOnly || cmd
            is Abandon ==> driver.holds(cmd),
        !driver.holds(cmd) ==> missing_text(cmd) == match cmd {
            CommandView::Begin { client, .. } => "begin: no such client "@ + client,
            CommandView::SnapshotGet { client, .. } => "snapshot_get: no such client "@ + client,
            CommandView::ScanLocks { client, .. } => "scan_locks: no such client "@ + client,
            CommandView::Put { session, .. } => "no such session: "@ + session,
            CommandView::Get { session, .. } => "no such session: "@ + session,
            CommandView::Commit { session } => "no such session: "@ + session,
            CommandView::Rollback { session } => "no such session: "@ + session,
            _ => missing_text(cmd),
        },
{
}

/// Only what a command resolves is let go: a session by its own commit, rollback or abandonment, and
/// a client by its own closing. Everything else that is held stays held, and nothing new is.
pub proof fn only_what_is_resolved_is_let_go(driver: Driver, cmd: CommandView, name: Seq<char>)
    ensures
        driver.sessions_after(cmd).contains(name) <==> driver.sessions().contains(name) && !((cmd
            is Commit && cmd->Commit_session == name) || (cmd is Rollback && cmd->Rollback_session
            == name) || (cmd is Abandon && cmd->Abandon_session == name)),
        driver.clients_after(cmd).contains(name) <==> driver.clients().contains(name) && !(cmd
            is CloseClient && cmd->CloseClient_name == name),
{
}

/// A reply says what it is said to say: the class and nothing else, the break and its reason, or the
/// client's error with all that is known of it.
pub proof fn a_reply_says_no_more_and_no_less(
    reply: Response,
    class: ClassView,
    why: Seq<char>,
    failure: Failure,
)
    ensures
        says(reply, class) <==> {
            &&& reply.hello is None
            &&& reply.observation matches Some(obs) && obs.class@ == class && obs.value is None
                && obs.locks@.len() == 0 && obs.start_ts is None && obs.commit_ts is None
                && obs.error_count is None && obs.proto is None && obs.native is None
        },
        breaks(reply, why) ==> reply.observation is Some && reply.observation->0.class@
            == (ClassView::DriverError { detail: why }) && !reply.observation->0.class@.admissible(),
        reports(reply, failure) ==> {
            &&& reply.hello is None
            &&& reply.observation matches Some(obs) && obs.class@ == error_class(failure.error)
                && obs.native is Some && obs.native->0.display@ == failure.display@
                && obs.native->0.kind@ == error_name(failure.error)
        },
{
}

/// A recorded lock is the lock that was reported: its key, its primary, its operation by name, its
/// time to live and its transaction.
pub proof fn a_recorded_lock_is_the_reported_one(obs: LockObs, lock: LockInfo)
    requires
        records_lock(obs, lock),
    ensures
        obs.key.raw() == lock.key@,
        obs.primary.raw() == lock.primary@,
        obs.kind@ == op_name(lock.op),
        obs.ttl_ms == lock.ttl_ms,
        obs.txn_start_ts == lock.txn_start_ts,
{
}

/// Different operations have different names.
pub proof fn names_tell_operations_apart(a: i32, b: i32)
    requires
        op_name(a) == op_name(b),
    ensures
        a == b,
{
    reveal_strlit("put");
    reveal_strlit("del");
    reveal_strlit("lock");
    reveal_strlit("rollback");
    reveal_strlit("insert");
    reveal_strlit("pessimistic_lock");
    reveal_strlit("check_not_exists");
    reveal_strlit("op_");
    reveal_strlit("op_-");
    assert("put"@.len() == 3 && "put"@[0] == 'p' && "put"@[1] == 'u');
    assert("del"@.len() == 3 && "del"@[0] == 'd');
    assert("lock"@.len() == 4 && "lock"@[0] == 'l');
    assert("rollback"@.len() == 8 && "rollback"@[0] == 'r');
    assert("insert"@.len() == 6 && "insert"@[0] == 'i');
    assert("pessimistic_lock"@.len() == 16 && "pessimistic_lock"@[0] == 'p');
    assert("check_not_exists"@.len() == 16 && "check_not_exists"@[0] == 'c');
    assert("op_"@.len() == 3 && "op_"@[0] == 'o');
    assert("op_-"@.len() == 4 && "op_-"@[0] == 'o' && "op_-"@[3] == '-');
    lemma_other_op(a);
    lemma_other_op(b);
    if a > 6 && b > 6 {
        assert(op_name(a).skip(3) =~= decimal(a as nat));
        assert(op_name(b).skip(3) =~= decimal(b as nat));
        decimals_tell_numbers_apart(a as nat, b as nat);
    } else if a < 0 && b < 0 {
        assert(op_name(a).skip(4) =~= decimal((-a) as nat));
        assert(op_name(b).skip(4) =~= decimal((-b) as nat));
        decimals_tell_numbers_apart((-a) as nat, (-b) as nat);
    }
}

proof fn lemma_other_op(op: i32)
    requires
        "op_"@.len() == 3,
        "op_"@[0] == 'o',
        "op_-"@.len() == 4,
        "op_-"@[0] == 'o',
        "op_-"@[3] == '-',
    ensures
        op > 6 ==> op_name(op).len() > 3 && op_name(op)[0] == 'o' && op_name(op)[3] != '-',
        op < 0 ==> op_name(op).len() > 4 && op_name(op)[0] == 'o' && op_name(op)[3] == '-',
{
    if op > 6 {
        lemma_digits(op as nat);
        assert(op_name(op)[3] == decimal(op as nat)[0]);
    }
    if op < 0 {
        lemma_digits((-op) as nat);
    }
}

/// What a driver says of itself.
fn greet() -> (r: Hello)
    ensures
        r@ == own_greeting(),
{
    let mut features: Vec<String> = Vec::new();
    features.push("scan_locks".to_owned());
    let mut config: Vec<String> = Vec::new();
    // Declared, because it is a difference from a stock client.
    config.push("drop_check=warn (stock default is panic)".to_owned());
    proof {
        assert(texts(features@) =~= seq!["scan_locks"@]);
        assert(texts(config@) =~= seq!["drop_check=warn (stock default is panic)"@]);
    }
    Hello {
        driver: "rust".to_owned(),
        protocol: PROTOCOL_VERSION.to_owned(),
        client: ClientId {
            name: "tikv-client".to_owned(),
            version: "path:../client-rust (see results/provenance.json)".to_owned(),
            replaced: false,
        },
        features,
        config,
    }
}

/// The harness broke.
fn broken(what: &str, why: &str) -> (r: Response)
    ensures
        breaks(r, what@ + why@),
{
    let mut detail: String = what.to_owned();
    detail.append(why);
    Response::observation(Observation::driver_error(detail.as_str()))
}

/// There is no such session.
pub fn no_session(session: &str) -> (r: Response)
    ensures
        breaks(r, no_session_text(session@)),
{
    broken("no such session: ", session)
}

/// The client failed.
pub fn failed(failure: Failure) -> (r: Response)
    ensures
        reports(r, failure),
{
    Response::observation(classify(&failure.error, failure.display.as_str()))
}

/// A command that was no command: the harness broke, the client did nothing.
pub fn malformed(why: &str) -> (r: Response)
    ensures
        breaks(r, "malformed command: "@ + why@),
{
    broken("malformed command: ", why)
}

/// A fresh timestamp was not to be had for the operation.
pub fn no_timestamp(op: &str, why: &str) -> (r: Response)
    ensures
        breaks(r, op@ + ": current_timestamp: "@ + why@),
{
    let mut what: String = op.to_owned();
    what.append(": current_timestamp: ");
    broken(what.as_str(), why)
}

/// The client did it, or did not.
pub fn done(outcome: Result<(), Failure>) -> (r: Response)
    ensures
        match outcome {
            Ok(()) => says(r, ClassView::Success),
            Err(failure) => reports(r, failure),
        },
{
    match outcome {
        Ok(()) => Response::observation(Observation::ok()),
        Err(failure) => failed(failure),
    }
}

/// The client read a value, or none, or failed.
///
/// One client returns nothing for an absent key and another an error: one fact in two idioms.
pub fn read(outcome: Result<Option<Vec<u8>>, Failure>) -> (r: Response)
    ensures
        match outcome {
            Ok(None) => says(r, ClassView::NotFound),
            Ok(Some(raw)) => {
                &&& r.hello is None
                &&& r.observation matches Some(obs) && obs.class@ is Success && obs.value is Some
                    && obs.value->0.records(raw@) && obs.value->0.raw() == raw@ && (Observation {
                    value: None,
                    ..obs
                }).bare()
            },
            Err(failure) => reports(r, failure),
        },
{
    match outcome {
        Ok(None) => Response::observation(Observation::new(Class::NotFound)),
        Ok(Some(raw)) => Response::observation(Observation::ok().with_value(Some(raw))),
        Err(failure) => failed(failure),
    }
}

/// The client committed, perhaps at a timestamp, or failed.
pub fn committed(outcome: Result<Option<u64>, Failure>) -> (r: Response)
    ensures
        match outcome {
            Ok(None) => says(r, ClassView::Success),
            Ok(Some(ts)) => {
                &&& r.hello is None
                &&& r.observation matches Some(obs) && obs.class@ is Success && obs.commit_ts
                    == Some(ts) && (Observation { commit_ts: None, ..obs }).bare()
            },
            Err(failure) => reports(r, failure),
        },
{
    match outcome {
        Ok(None) => Response::observation(Observation::ok()),
        Ok(Some(ts)) => Response::observation(Observation::ok().with_commit_ts(ts)),
        Err(failure) => failed(failure),
    }
}

/// The name of an operation: by name, since a name survives a renumbering.
pub open spec fn op_name(op: i32) -> Seq<char> {
    if op == 0 {
        "put"@
    } else if op == 1 {
        "del"@
    } else if op == 2 {
        "lock"@
    } else if op == 3 {
        "rollback"@
    } else if op == 4 {
        "insert"@
    } else if op == 5 {
        "pessimistic_lock"@
    } else if op == 6 {
        "check_not_exists"@
    } else if op > 0 {
        "op_"@ + decimal(op as nat)
    } else {
        "op_-"@ + decimal((-op) as nat)
    }
}

/// The name of an operation.
pub fn lock_kind(op: i32) -> (r: String)
    ensures
        r@ == op_name(op),
{
    if op == 0 {
        "put".to_owned()
    } else if op == 1 {
        "del".to_owned()
    } else if op == 2 {
        "lock".to_owned()
    } else if op == 3 {
        "rollback".to_owned()
    } else if op == 4 {
        "insert".to_owned()
    } else if op == 5 {
        "pessimistic_lock".to_owned()
    } else if op == 6 {
        "check_not_exists".to_owned()
    } else if op > 0 {
        let mut name: String = "op_".to_owned();
        name.append(decimal_text(op as u128).as_str());
        name
    } else {
        let size: i64 = -(op as i64);
        let mut name: String = "op_-".to_owned();
        name.append(decimal_text(size as u128).as_str());
        name
    }
}

/// `obs` records the lock that the client reported.
pub open spec fn records_lock(obs: LockObs, lock: LockInfo) -> bool {
    &&& obs.key.records(lock.key@) && obs.key.raw() == lock.key@
    &&& obs.primary.records(lock.primary@) && obs.primary.raw() == lock.primary@
    &&& obs.kind@ == op_name(lock.op)
    &&& obs.ttl_ms == lock.ttl_ms
    &&& obs.txn_start_ts == lock.txn_start_ts
}

/// The client found these locks, or failed.
pub fn found_locks(outcome: Result<Vec<LockInfo>, Failure>) -> (r: Response)
    ensures
        match outcome {
            Ok(locks) => {
                &&& r.hello is None
                &&& r.observation matches Some(obs) && {
                    &&& obs.class@ is Success
                    &&& obs.locks@.len() == locks@.len()
                    &&& forall|i: int|
                        0 <= i < locks@.len() ==> records_lock(#[trigger] obs.locks@[i], locks@[i])
                    &&& obs.value is None && obs.start_ts is None && obs.commit_ts is None
                    &&& obs.error_count is None && obs.proto is None && obs.native is None
                }
            },
            Err(failure) => reports(r, failure),
        },
{
    let locks: Vec<LockInfo> = match outcome {
        Ok(locks) => locks,
        Err(failure) => return failed(failure),
    };
    let mut out: Vec<LockObs> = Vec::new();
    let mut i: usize = 0;
    while i < locks.len()
        invariant
            i <= locks@.len(),
            out@.len() == i,
            forall|j: int| 0 <= j < i ==> records_lock(#[trigger] out@[j], locks@[j]),
        decreases locks@.len() - i,
    {
        let lock: &LockInfo = &locks[i];
        out.push(
            LockObs {
                key: Bytes::from(copy_bytes(lock.key.as_slice())),
                primary: Bytes::from(copy_bytes(lock.primary.as_slice())),
                kind: lock_kind(lock.op),
                ttl_ms: lock.ttl_ms,
                txn_start_ts: lock.txn_start_ts,
            },
        );
        i = i + 1;
    }
    Response::observation(Observation::ok().with_locks(out))
}

} // verus!
