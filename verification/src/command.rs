//! The command protocol: what the runner asks of a driver.
//!
//! A driver holds named sessions and executes commands against them. Both drivers speak this, so
//! a scenario is written once.

use vstd::prelude::*;
use vstd::string::*;
use vstd::utf8::*;

use crate::base64::{b64_decode, b64_encode, decoded, encoded, is_well_spelled, well_spelled};
use crate::order::texts;
use crate::text::{
    contains_text, copy_texts, extend, occurs, replace_text, replaced, where_something_occurs,
};

verus! {

/// The version of the protocol that this library speaks.
pub const PROTOCOL_VERSION: &'static str = "parity-cmd/v1";

/// A request from the runner to a driver.
#[derive(Debug, Clone, PartialEq, Eq)]
pub enum Command {
    /// Identify yourself. The first command.
    Hello,
    /// Open a client against the cluster.
    OpenClient { name: String },
    CloseClient { name: String },
    /// Begin a transaction.
    Begin { session: String, client: String, mode: TxnMode },
    Put { session: String, key: KeyArg, value: KeyArg },
    Get { session: String, key: KeyArg },
    Commit { session: String },
    Rollback { session: String },
    /// A read outside any transaction, at the current timestamp.
    SnapshotGet { client: String, key: KeyArg },
    /// Every lock in `[start, end)`. `batch_size` is a paging hint, never a limit.
    ScanLocks { client: String, start: KeyArg, end: KeyArg, batch_size: u32 },
    /// Prewrite a chosen subset of keys and stop: no commit, no rollback.
    PrewriteOnly { session: String, primary: KeyArg, keys: Vec<KeyArg> },
    /// Drop the transaction without committing or rolling back.
    Abandon { session: String },
}

#[derive(Debug, Clone, Copy, PartialEq, Eq)]
pub enum TxnMode {
    Optimistic,
    Pessimistic,
}

/// A byte string in a scenario: text, or base64.
///
/// `{P}` in text stands for the run's unique key prefix.
#[derive(Debug, Clone, PartialEq, Eq)]
pub enum KeyArg {
    Utf8 { s: String },
    B64 { b64: String },
}

/// The driver's reply to `Hello`.
#[derive(Debug, PartialEq, Eq)]
pub struct Hello {
    /// Which driver.
    pub driver: String,
    /// The version of the protocol that the driver speaks.
    pub protocol: String,
    pub client: ClientId,
    /// What this driver can do.
    pub features: Vec<String>,
    /// Every deviation from a stock client.
    pub config: Vec<String>,
}

#[derive(Debug, Clone, PartialEq, Eq)]
pub struct ClientId {
    pub name: String,
    /// The version that is actually linked, as the driver itself reports it.
    pub version: String,
    /// Was the client replaced with a local tree?
    pub replaced: bool,
}

/// What a [`Hello`] says.
pub struct HelloView {
    pub driver: Seq<char>,
    pub protocol: Seq<char>,
    pub client_name: Seq<char>,
    pub client_version: Seq<char>,
    pub client_replaced: bool,
    pub features: Seq<Seq<char>>,
    pub config: Seq<Seq<char>>,
}

impl View for Hello {
    type V = HelloView;

    open spec fn view(&self) -> HelloView {
        HelloView {
            driver: self.driver@,
            protocol: self.protocol@,
            client_name: self.client.name@,
            client_version: self.client.version@,
            client_replaced: self.client.replaced,
            features: texts(self.features@),
            config: texts(self.config@),
        }
    }
}

impl Clone for Hello {
    fn clone(&self) -> (r: Self)
        ensures
            r@ == self@,
    {
        Hello {
            driver: self.driver.clone(),
            protocol: self.protocol.clone(),
            client: ClientId {
                name: self.client.name.clone(),
                version: self.client.version.clone(),
                replaced: self.client.replaced,
            },
            features: copy_texts(&self.features),
            config: copy_texts(&self.config),
        }
    }
}

/// What a [`KeyArg`] says.
pub enum KeyArgView {
    Utf8 { s: Seq<char> },
    B64 { b64: Seq<char> },
}

/// What a [`Command`] says.
pub enum CommandView {
    Hello,
    OpenClient { name: Seq<char> },
    CloseClient { name: Seq<char> },
    Begin { session: Seq<char>, client: Seq<char>, mode: TxnMode },
    Put { session: Seq<char>, key: KeyArgView, value: KeyArgView },
    Get { session: Seq<char>, key: KeyArgView },
    Commit { session: Seq<char> },
    Rollback { session: Seq<char> },
    SnapshotGet { client: Seq<char>, key: KeyArgView },
    ScanLocks { client: Seq<char>, start: KeyArgView, end: KeyArgView, batch_size: u32 },
    PrewriteOnly { session: Seq<char>, primary: KeyArgView, keys: Seq<KeyArgView> },
    Abandon { session: Seq<char> },
}

impl View for KeyArg {
    type V = KeyArgView;

    open spec fn view(&self) -> KeyArgView {
        match *self {
            KeyArg::Utf8 { s } => KeyArgView::Utf8 { s: s@ },
            KeyArg::B64 { b64 } => KeyArgView::B64 { b64: b64@ },
        }
    }
}

/// What each of the arguments says.
pub open spec fn arg_views(keys: Seq<KeyArg>) -> Seq<KeyArgView> {
    keys.map_values(|k: KeyArg| k@)
}

impl View for Command {
    type V = CommandView;

    open spec fn view(&self) -> CommandView {
        match *self {
            Command::Hello => CommandView::Hello,
            Command::OpenClient { name } => CommandView::OpenClient { name: name@ },
            Command::CloseClient { name } => CommandView::CloseClient { name: name@ },
            Command::Begin { session, client, mode } => CommandView::Begin {
                session: session@,
                client: client@,
                mode,
            },
            Command::Put { session, key, value } => CommandView::Put {
                session: session@,
                key: key@,
                value: value@,
            },
            Command::Get { session, key } => CommandView::Get { session: session@, key: key@ },
            Command::Commit { session } => CommandView::Commit { session: session@ },
            Command::Rollback { session } => CommandView::Rollback { session: session@ },
            Command::SnapshotGet { client, key } => CommandView::SnapshotGet {
                client: client@,
                key: key@,
            },
            Command::ScanLocks { client, start, end, batch_size } => CommandView::ScanLocks {
                client: client@,
                start: start@,
                end: end@,
                batch_size,
            },
            Command::PrewriteOnly { session, primary, keys } => CommandView::PrewriteOnly {
                session: session@,
                primary: primary@,
                keys: arg_views(keys@),
            },
            Command::Abandon { session } => CommandView::Abandon { session: session@ },
        }
    }
}

/// The token that stands for the run's key prefix in text.
pub open spec fn prefix_token() -> Seq<char> {
    "{P}"@
}

impl KeyArgView {
    /// The argument spells a byte string: it is text, or base64 as it is meant to be written.
    pub open spec fn well_formed(self) -> bool {
        match self {
            KeyArgView::Utf8 { .. } => true,
            KeyArgView::B64 { b64 } => well_spelled(b64),
        }
    }

    /// The bytes that the argument spells; malformed base64 spells none.
    pub open spec fn bytes(self) -> Seq<u8> {
        match self {
            KeyArgView::Utf8 { s } => encode_utf8(s),
            KeyArgView::B64 { b64 } => match decoded(b64) {
                Some(bytes) => bytes,
                None => Seq::empty(),
            },
        }
    }

    /// The argument as a key of the run whose prefix is `prefix`: text has the prefix in place
    /// of the token, or in front where there is no token; bytes have it in front.
    pub open spec fn as_key(self, prefix: Seq<char>) -> KeyArgView {
        match self {
            KeyArgView::Utf8 { s } => KeyArgView::Utf8 {
                s: if occurs(s, prefix_token()) {
                    replaced(s, prefix_token(), prefix)
                } else {
                    prefix + s
                },
            },
            KeyArgView::B64 { .. } => KeyArgView::B64 {
                b64: encoded(encode_utf8(prefix) + self.bytes()),
            },
        }
    }

    /// The argument as a value of the run whose prefix is `prefix`: text has the prefix in place
    /// of the token; bytes stay as they are.
    pub open spec fn as_value(self, prefix: Seq<char>) -> KeyArgView {
        match self {
            KeyArgView::Utf8 { s } => KeyArgView::Utf8 {
                s: replaced(s, prefix_token(), prefix),
            },
            KeyArgView::B64 { .. } => self,
        }
    }
}

impl CommandView {
    /// Every byte-string argument, in order.
    pub open spec fn args(self) -> Seq<KeyArgView> {
        match self {
            CommandView::Put { key, value, .. } => seq![key, value],
            CommandView::Get { key, .. } => seq![key],
            CommandView::SnapshotGet { key, .. } => seq![key],
            CommandView::ScanLocks { start, end, .. } => seq![start, end],
            CommandView::PrewriteOnly { primary, keys, .. } => seq![primary] + keys,
            _ => Seq::empty(),
        }
    }
}

impl Command {
    /// Every byte-string argument that this command carries, in any position.
    pub fn args(&self) -> (r: Vec<&KeyArg>)
        ensures
            r@.map_values(|k: &KeyArg| k@) == self@.args(),
    {
        let mut v: Vec<&KeyArg> = Vec::new();
        match self {
            Command::Put { key, value, .. } => {
                v.push(key);
                v.push(value);
            },
            Command::Get { key, .. } => {
                v.push(key);
            },
            Command::SnapshotGet { key, .. } => {
                v.push(key);
            },
            Command::ScanLocks { start, end, .. } => {
                v.push(start);
                v.push(end);
            },
            Command::PrewriteOnly { primary, keys, .. } => {
                v.push(primary);
                let mut i: usize = 0;
                while i < keys.len()
                    invariant
                        i <= keys@.len(),
                        v@.len() == i + 1,
                        v@[0]@ == primary@,
                        forall|j: int| 0 <= j < i ==> (#[trigger] v@[j + 1])@ == keys@[j]@,
                    decreases keys@.len() - i,
                {
                    v.push(&keys[i]);
                    i = i + 1;
                }
                proof {
                    let views = v@.map_values(|k: &KeyArg| k@);
                    assert forall|j: int| 0 <= j < views.len() implies views[j]
                        == self@.args()[j] by {
                        if j > 0 {
                            assert(v@[(j - 1) + 1]@ == keys@[j - 1]@);
                        }
                    }
                }
            },
            _ => {},
        }
        assert(v@.map_values(|k: &KeyArg| k@) =~= self@.args());
        v
    }
}

/// An argument that is not refused spells no bytes only where nothing is written: nothing that is
/// written is taken for empty bytes.
pub proof fn only_nothing_is_read_as_nothing(arg: KeyArgView)
    requires
        arg.well_formed(),
    ensures
        arg.bytes().len() == 0 <==> match arg {
            KeyArgView::Utf8 { s } => s.len() == 0,
            KeyArgView::B64 { b64 } => b64.len() == 0,
        },
{
    match arg {
        KeyArgView::Utf8 { s } => {
            if s.len() > 0 {
                encode_utf8_first_scalar(s);
            }
        },
        KeyArgView::B64 { .. } => {},
    }
}

/// The view of an argument keeps how it is spelled.
pub proof fn an_argument_says_what_is_written(arg: KeyArg)
    ensures
        arg is Utf8 <==> arg@ is Utf8,
        arg is B64 <==> arg@ is B64,
        arg is Utf8 ==> arg@->s == arg->s@,
        arg is B64 ==> arg@->b64 == arg->b64@,
{
}

/// The view of a greeting keeps every field.
pub proof fn a_greeting_says_what_it_carries(hello: Hello)
    ensures
        hello@.driver == hello.driver@,
        hello@.protocol == hello.protocol@,
        hello@.client_name == hello.client.name@,
        hello@.client_version == hello.client.version@,
        hello@.client_replaced == hello.client.replaced,
        hello@.features.len() == hello.features@.len(),
        forall|i: int|
            0 <= i < hello.features@.len() ==> (#[trigger] hello.features@[i])@
                == hello@.features[i],
        hello@.config.len() == hello.config@.len(),
        forall|i: int|
            0 <= i < hello.config@.len() ==> (#[trigger] hello.config@[i])@ == hello@.config[i],
{
}

/// The view of a command keeps the operation and everything that it names.
pub proof fn a_command_says_what_it_asks(cmd: Command)
    ensures
        cmd is Hello <==> cmd@ is Hello,
        cmd is OpenClient <==> cmd@ is OpenClient,
        cmd is CloseClient <==> cmd@ is CloseClient,
        cmd is Begin <==> cmd@ is Begin,
        cmd is Put <==> cmd@ is Put,
        cmd is Get <==> cmd@ is Get,
        cmd is Commit <==> cmd@ is Commit,
        cmd is Rollback <==> cmd@ is Rollback,
        cmd is SnapshotGet <==> cmd@ is SnapshotGet,
        cmd is ScanLocks <==> cmd@ is ScanLocks,
        cmd is PrewriteOnly <==> cmd@ is PrewriteOnly,
        cmd is Abandon <==> cmd@ is Abandon,
        cmd is OpenClient ==> cmd@->OpenClient_name == cmd->OpenClient_name@,
        cmd is CloseClient ==> cmd@->CloseClient_name == cmd->CloseClient_name@,
        cmd is Begin ==> cmd@->Begin_session == cmd->Begin_session@,
        cmd is Begin ==> cmd@->Begin_client == cmd->Begin_client@,
        cmd is Begin ==> cmd@->mode == cmd->mode,
        cmd is Put ==> cmd@->Put_session == cmd->Put_session@,
        cmd is Put ==> cmd@->Put_key == cmd->Put_key@,
        cmd is Put ==> cmd@->value == cmd->value@,
        cmd is Get ==> cmd@->Get_session == cmd->Get_session@,
        cmd is Get ==> cmd@->Get_key == cmd->Get_key@,
        cmd is Commit ==> cmd@->Commit_session == cmd->Commit_session@,
        cmd is Rollback ==> cmd@->Rollback_session == cmd->Rollback_session@,
        cmd is SnapshotGet ==> cmd@->SnapshotGet_client == cmd->SnapshotGet_client@,
        cmd is SnapshotGet ==> cmd@->SnapshotGet_key == cmd->SnapshotGet_key@,
        cmd is ScanLocks ==> cmd@->ScanLocks_client == cmd->ScanLocks_client@,
        cmd is ScanLocks ==> cmd@->start == cmd->start@,
        cmd is ScanLocks ==> cmd@->end == cmd->end@,
        cmd is ScanLocks ==> cmd@->batch_size == cmd->batch_size,
        cmd is PrewriteOnly ==> cmd@->PrewriteOnly_session == cmd->PrewriteOnly_session@,
        cmd is PrewriteOnly ==> cmd@->primary == cmd->primary@,
        cmd is PrewriteOnly ==> cmd@->keys.len() == cmd->keys@.len(),
        cmd is PrewriteOnly ==> forall|i: int|
            0 <= i < cmd->keys@.len() ==> (#[trigger] cmd->keys@[i])@ == cmd@->keys[i],
        cmd is Abandon ==> cmd@->Abandon_session == cmd->Abandon_session@,
{
}

/// Every byte string that a command carries is among its arguments, and nothing else is: a command
/// is refused for each malformed key and value, and only for those.
pub proof fn every_byte_string_is_an_argument(cmd: CommandView)
    ensures
        cmd is Put ==> cmd.args().len() == 2 && cmd.args()[0] == cmd->Put_key && cmd.args()[1]
            == cmd->value,
        cmd is Get ==> cmd.args().len() == 1 && cmd.args()[0] == cmd->Get_key,
        cmd is SnapshotGet ==> cmd.args().len() == 1 && cmd.args()[0] == cmd->SnapshotGet_key,
        cmd is ScanLocks ==> cmd.args().len() == 2 && cmd.args()[0] == cmd->start && cmd.args()[1]
            == cmd->end,
        cmd is PrewriteOnly ==> cmd.args().len() == cmd->keys.len() + 1,
        cmd is PrewriteOnly ==> cmd.args()[0] == cmd->primary,
        cmd is PrewriteOnly ==> forall|i: int|
            0 <= i < cmd->keys.len() ==> #[trigger] cmd->keys[i] == cmd.args()[i + 1],
        cmd.args().len() == 0 <==> cmd is Hello || cmd is OpenClient || cmd is CloseClient
            || cmd is Begin || cmd is Commit || cmd is Rollback || cmd is Abandon,
{
}

/// Text is never refused, and base64 is refused exactly where it is not well spelled; what cannot be
/// decoded at all spells no bytes.
pub proof fn which_arguments_are_refused(arg: KeyArgView)
    ensures
        arg is Utf8 ==> arg.well_formed(),
        arg is B64 ==> (arg.well_formed() <==> well_spelled(arg->b64)),
        arg is B64 && decoded(arg->b64) is None ==> arg.bytes().len() == 0,
        arg is B64 && decoded(arg->b64) is Some ==> arg.bytes() == decoded(arg->b64)->0,
        arg is Utf8 ==> arg.bytes() == encode_utf8(arg->s),
{
}

/// The refusal of an argument shows it.
pub proof fn a_refusal_shows_the_argument(b64: Seq<char>)
    ensures
        occurs(malformed_text(b64), b64),
{
    where_something_occurs(
        "`"@,
        b64,
        "` is not valid base64. A malformed key or value would decode to EMPTY bytes and silently test something other than what was written."@,
    );
}

/// Why a malformed argument is refused.
pub open spec fn malformed_text(b64: Seq<char>) -> Seq<char> {
    "`"@ + b64
        + "` is not valid base64. A malformed key or value would decode to EMPTY bytes and silently test something other than what was written."@
}

impl KeyArg {
    /// Reject malformed base64, before anything runs.
    pub fn validate(&self) -> (r: Result<(), String>)
        ensures
            r is Ok <==> self@.well_formed(),
            r is Err ==> (self@ matches KeyArgView::B64 { b64 } && r->Err_0@ == malformed_text(
                b64,
            )),
    {
        match self {
            KeyArg::Utf8 { .. } => Ok(()),
            KeyArg::B64 { b64 } => {
                if is_well_spelled(b64.as_str()) {
                    Ok(())
                } else {
                    let mut why: String = "`".to_owned();
                    why.append(b64.as_str());
                    why.append(
                        "` is not valid base64. A malformed key or value would decode to EMPTY bytes and silently test something other than what was written.",
                    );
                    Err(why)
                }
            },
        }
    }

    /// The bytes that the argument spells.
    pub fn bytes(&self) -> (r: Vec<u8>)
        ensures
            r@ == self@.bytes(),
    {
        match self {
            KeyArg::Utf8 { s } => s.as_str().as_bytes_vec(),
            KeyArg::B64 { b64 } => match b64_decode(b64.as_str()) {
                Some(bytes) => bytes,
                None => Vec::new(),
            },
        }
    }

    /// Namespace this argument as a key under the run's prefix.
    ///
    /// The token says where the prefix goes, never whether: the two runs of a comparison share
    /// a cluster, and no key may be written without the prefix.
    pub fn as_key(&self, prefix: &str) -> (r: KeyArg)
        ensures
            r@ == self@.as_key(prefix@),
    {
        match self {
            KeyArg::Utf8 { s } => KeyArg::Utf8 {
                s: if contains_text(s.as_str(), "{P}") {
                    replace_text(s.as_str(), "{P}", prefix)
                } else {
                    let mut key: String = prefix.to_owned();
                    key.append(s.as_str());
                    key
                },
            },
            KeyArg::B64 { .. } => {
                let mut bytes: Vec<u8> = prefix.as_bytes_vec();
                let own: Vec<u8> = self.bytes();
                extend(&mut bytes, own.as_slice());
                KeyArg::B64 { b64: b64_encode(bytes.as_slice()) }
            },
        }
    }

    /// Namespace this argument as a value.
    ///
    /// Text may hold a key, which must be the key that this run wrote. Bytes are opaque and are
    /// passed through untouched.
    pub fn as_value(&self, prefix: &str) -> (r: KeyArg)
        ensures
            r@ == self@.as_value(prefix@),
    {
        match self {
            KeyArg::Utf8 { s } => KeyArg::Utf8 { s: replace_text(s.as_str(), "{P}", prefix) },
            KeyArg::B64 { b64 } => KeyArg::B64 { b64: b64.clone() },
        }
    }
}

} // verus!
