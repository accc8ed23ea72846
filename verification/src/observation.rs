//! The layered observation: one command's result, as the driver saw it.
//!
//! Nothing is normalized at capture. A projection, applied when two runs are compared, decides
//! what is looked at.

use vstd::prelude::*;
use vstd::string::*;
use vstd::utf8::*;

use crate::base64::{b64_decode, b64_encode, decode_inverts_encode, decoded, encoded};
use crate::class::{Class, ClassView};
use crate::json::Json;
use crate::text::{chars_of, utf8_text};

verus! {

/// One command's result.
#[derive(Debug, Clone, PartialEq, Eq)]
pub struct Observation {
    /// What the server said: the claim surface.
    pub class: Class,
    /// The value that a read returned.
    pub value: Option<Bytes>,
    /// The locks that a scan of locks returned.
    pub locks: Vec<LockObs>,
    /// When the transaction started. Recorded, never compared.
    pub start_ts: Option<u64>,
    /// When the transaction committed. Only its presence is compared.
    pub commit_ts: Option<u64>,
    /// How many per-key errors the client surfaced, where it surfaced a set of them.
    pub error_count: Option<usize>,
    /// The message that the error carried.
    pub proto: Option<Json>,
    /// The client's own taxonomy, verbatim.
    pub native: Option<NativeObs>,
}

/// Opaque bytes: base64, and an echo as text when they are printable.
///
/// Only `b64` is ever compared; `utf8` is for the reader.
#[derive(Debug, Clone, PartialEq, Eq)]
pub struct Bytes {
    pub b64: String,
    pub utf8: Option<String>,
}

/// A lock, as a scan of locks reported it.
#[derive(Debug, Clone, PartialEq, Eq)]
pub struct LockObs {
    pub key: Bytes,
    pub primary: Bytes,
    /// The kind of operation, by name.
    pub kind: String,
    /// Recorded; only whether it is zero is compared.
    pub ttl_ms: u64,
    pub txn_start_ts: u64,
}

/// The client's own error taxonomy.
#[derive(Debug, Clone, PartialEq, Eq)]
pub struct NativeObs {
    /// The client's language.
    pub lang: String,
    /// The client's own name of the error's type.
    pub kind: String,
    /// The error as the client prints it.
    pub display: String,
}

/// A control character: the code points below the space, and those from delete up to 0x9f.
pub open spec fn control(c: char) -> bool {
    c as u32 <= 0x1f || 0x7f <= c as u32 <= 0x9f
}

/// The text that a reader is shown of `raw`: none if it is not UTF-8 or holds a control
/// character.
pub open spec fn echo(raw: Seq<u8>) -> Option<Seq<char>> {
    if valid_utf8(raw) && forall|i: int|
        0 <= i < decode_utf8(raw).len() ==> !control(#[trigger] decode_utf8(raw)[i]) {
        Some(decode_utf8(raw))
    } else {
        None
    }
}

/// The text of an optional string.
pub open spec fn opt_text(s: Option<String>) -> Option<Seq<char>> {
    match s {
        Some(t) => Some(t@),
        None => None,
    }
}

impl Bytes {
    /// The bytes that `b64` spells; malformed base64 spells none.
    pub open spec fn raw(self) -> Seq<u8> {
        match decoded(self.b64@) {
            Some(bytes) => bytes,
            None => Seq::empty(),
        }
    }

    /// This is how `raw` is recorded.
    pub open spec fn records(self, raw: Seq<u8>) -> bool {
        &&& self.b64@ == encoded(raw)
        &&& opt_text(self.utf8) == echo(raw)
    }

    /// The bytes.
    pub fn as_slice(&self) -> (r: Vec<u8>)
        ensures
            r@ == self.raw(),
    {
        match b64_decode(self.b64.as_str()) {
            Some(bytes) => bytes,
            None => Vec::new(),
        }
    }
}

/// A reader is shown exactly the text that holds nothing but what prints: what is shown is the
/// bytes, and what is not shown is no text or holds a character that does not print.
pub proof fn only_what_prints_is_shown(raw: Seq<u8>)
    ensures
        match echo(raw) {
            Some(text) => encode_utf8(text) == raw && forall|i: int|
                0 <= i < text.len() ==> {
                    let c = (#[trigger] text[i]) as u32;
                    0x20 <= c && !(0x7f <= c < 0xa0)
                },
            None => forall|text: Seq<char>| #[trigger]
                encode_utf8(text) == raw ==> exists|i: int|
                    0 <= i < text.len() && {
                        let c = (#[trigger] text[i]) as u32;
                        c < 0x20 || 0x7f <= c < 0xa0
                    },
        },
{
    if echo(raw) is Some {
        decode_utf8_encode_utf8(raw);
    } else {
        assert forall|text: Seq<char>| #[trigger] encode_utf8(text) == raw implies exists|i: int|
            0 <= i < text.len() && {
                let c = (#[trigger] text[i]) as u32;
                c < 0x20 || 0x7f <= c < 0xa0
            } by {
            encode_utf8_valid_utf8(text);
            encode_utf8_decode_utf8(text);
            assert(decode_utf8(raw) == text);
            let i = choose|i: int|
                0 <= i < decode_utf8(raw).len() && control(#[trigger] decode_utf8(raw)[i]);
            assert(control(text[i]));
        }
    }
}

/// What is recorded is read back, different bytes are recorded differently, and what a reader is
/// shown decides nothing.
pub proof fn what_is_recorded_is_read_back(a: Bytes, b: Bytes, raw: Seq<u8>, other: Seq<u8>)
    ensures
        a.records(raw) ==> a.raw() == raw,
        a.records(raw) && b.records(other) ==> (a.b64@ == b.b64@ <==> raw == other),
        a.b64@ == b.b64@ ==> a.raw() == b.raw(),
        a.records(raw) ==> (a.utf8 is Some ==> encode_utf8(a.utf8->0@) == raw),
{
    decode_inverts_encode(raw);
    decode_inverts_encode(other);
    if a.records(raw) && a.utf8 is Some {
        only_what_prints_is_shown(raw);
    }
}

/// An observation of nothing but a class holds nothing else.
pub proof fn a_bare_observation_holds_nothing(obs: Observation)
    ensures
        obs.bare() <==> obs.value is None && obs.locks@.len() == 0 && obs.start_ts is None
            && obs.commit_ts is None && obs.error_count is None && obs.proto is None
            && obs.native is None,
{
}

impl vstd::std_specs::convert::FromSpecImpl<Vec<u8>> for Bytes {
    open spec fn obeys_from_spec() -> bool {
        false
    }

    open spec fn from_spec(v: Vec<u8>) -> Self {
        arbitrary()
    }
}

impl From<Vec<u8>> for Bytes {
    fn from(v: Vec<u8>) -> (r: Self)
        ensures
            r.records(v@),
            r.raw() == v@,
    {
        let b64: String = b64_encode(v.as_slice());
        proof {
            decode_inverts_encode(v@);
        }
        let utf8: Option<String> = match utf8_text(v) {
            Some(text) => {
                proof {
                    encode_utf8_decode_utf8(text@);
                }
                if printable(text.as_str()) {
                    Some(text)
                } else {
                    None
                }
            },
            None => None,
        };
        Bytes { b64, utf8 }
    }
}

/// Does the text hold no control character?
fn printable(text: &str) -> (r: bool)
    ensures
        r == forall|i: int| 0 <= i < text@.len() ==> !control(#[trigger] text@[i]),
{
    let chars: Vec<char> = chars_of(text);
    let mut i: usize = 0;
    while i < chars.len()
        invariant
            chars@ == text@,
            i <= chars@.len(),
            forall|j: int| 0 <= j < i ==> !control(#[trigger] text@[j]),
        decreases chars@.len() - i,
    {
        let n: u32 = chars[i] as u32;
        if n <= 0x1f || (0x7f <= n && n <= 0x9f) {
            assert(control(text@[i as int]));
            return false;
        }
        i = i + 1;
    }
    true
}

impl NativeObs {
    /// The error as the client names and prints it.
    pub fn new(lang: &str, kind: &str, display: &str) -> (r: Self)
        ensures
            r.lang@ == lang@,
            r.kind@ == kind@,
            r.display@ == display@,
    {
        NativeObs {
            lang: lang.to_owned(),
            kind: kind.to_owned(),
            display: display.to_owned(),
        }
    }
}

impl Observation {
    /// An observation of nothing but a class.
    pub open spec fn bare(self) -> bool {
        &&& self.value is None
        &&& self.locks@.len() == 0
        &&& self.start_ts is None
        &&& self.commit_ts is None
        &&& self.error_count is None
        &&& self.proto is None
        &&& self.native is None
    }

    /// Nothing but a class.
    pub fn new(class: Class) -> (r: Self)
        ensures
            r.class == class,
            r.bare(),
    {
        Observation {
            class,
            value: None,
            locks: Vec::new(),
            start_ts: None,
            commit_ts: None,
            error_count: None,
            proto: None,
            native: None,
        }
    }

    /// The command succeeded.
    pub fn ok() -> (r: Self)
        ensures
            r.class@ == ClassView::Success,
            r.bare(),
    {
        Observation::new(Class::Success)
    }

    /// The driver could not do this at all, because the client cannot.
    pub fn unsupported(detail: &str) -> (r: Self)
        ensures
            r.class@ == (ClassView::Unsupported { detail: detail@ }),
            r.bare(),
    {
        Observation::new(Class::Unsupported { detail: detail.to_owned() })
    }

    /// The harness broke. Inadmissible; never a divergence.
    pub fn driver_error(detail: &str) -> (r: Self)
        ensures
            r.class@ == (ClassView::DriverError { detail: detail@ }),
            !r.class@.admissible(),
            r.bare(),
    {
        Observation::new(Class::DriverError { detail: detail.to_owned() })
    }

    /// With the value that a read returned.
    pub fn with_value(self, v: Option<Vec<u8>>) -> (r: Self)
        ensures
            r == (Observation { value: r.value, ..self }),
            r.value is Some <==> v is Some,
            v is Some ==> r.value->0.records(v->0@) && r.value->0.raw() == v->0@,
    {
        let value: Option<Bytes> = match v {
            Some(raw) => Some(Bytes::from(raw)),
            None => None,
        };
        Observation { value, ..self }
    }

    /// With the client's own taxonomy.
    pub fn with_native(self, native: NativeObs) -> (r: Self)
        ensures
            r == (Observation { native: Some(native), ..self }),
    {
        Observation { native: Some(native), ..self }
    }

    /// With the message that the error carried.
    pub fn with_proto(self, proto: Json) -> (r: Self)
        ensures
            r == (Observation { proto: Some(proto), ..self }),
    {
        Observation { proto: Some(proto), ..self }
    }

    /// With the locks that a scan returned.
    pub fn with_locks(self, locks: Vec<LockObs>) -> (r: Self)
        ensures
            r == (Observation { locks, ..self }),
    {
        Observation { locks, ..self }
    }

    /// With the transaction's start timestamp.
    pub fn with_start_ts(self, ts: u64) -> (r: Self)
        ensures
            r == (Observation { start_ts: Some(ts), ..self }),
    {
        Observation { start_ts: Some(ts), ..self }
    }

    /// With the transaction's commit timestamp.
    pub fn with_commit_ts(self, ts: u64) -> (r: Self)
        ensures
            r == (Observation { commit_ts: Some(ts), ..self }),
    {
        Observation { commit_ts: Some(ts), ..self }
    }

    /// With the number of per-key errors that the client surfaced.
    pub fn with_error_count(self, n: usize) -> (r: Self)
        ensures
            r == (Observation { error_count: Some(n), ..self }),
    {
        Observation { error_count: Some(n), ..self }
    }
}

} // verus!
