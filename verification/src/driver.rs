//! The conversation with a driver: one command, one reply.

use vstd::prelude::*;
use vstd::string::*;

use crate::command::{Hello, PROTOCOL_VERSION};
use crate::observation::Observation;
use crate::order::text_same;
use crate::text::{occurs, starts_with, where_something_occurs};

verus! {

/// A reply from a driver. Exactly one field is set.
#[derive(Debug)]
pub struct Response {
    pub hello: Option<Hello>,
    pub observation: Option<Observation>,
}

impl Response {
    /// A reply that carries an observation.
    pub fn observation(obs: Observation) -> (r: Self)
        ensures
            r.hello is None,
            r.observation == Some(obs),
    {
        Response { hello: None, observation: Some(obs) }
    }

    /// A reply that carries a greeting.
    pub fn hello(hello: Hello) -> (r: Self)
        ensures
            r.hello == Some(hello),
            r.observation is None,
    {
        Response { hello: Some(hello), observation: None }
    }
}

/// Why a driver that does not greet is refused.
pub open spec fn silent_text(name: Seq<char>) -> Seq<char> {
    name + ": driver did not answer `hello` with a hello"@
}

/// Why a driver that speaks another version of the protocol is refused.
pub open spec fn drifted_text(name: Seq<char>, protocol: Seq<char>) -> Seq<char> {
    name + ": driver speaks protocol `"@ + protocol + "`, runner speaks `"@ + PROTOCOL_VERSION@
        + "`. The schema's two halves have drifted."@
}

/// A refused driver is named, and one that speaks another version of the protocol is told both
/// versions.
pub proof fn a_refused_driver_is_named(name: Seq<char>, protocol: Seq<char>)
    ensures
        starts_with(silent_text(name), name),
        starts_with(drifted_text(name, protocol), name),
        occurs(drifted_text(name, protocol), protocol),
        occurs(drifted_text(name, protocol), PROTOCOL_VERSION@),
{
    let text = drifted_text(name, protocol);
    let said = ": driver speaks protocol `"@;
    let ours = "`, runner speaks `"@;
    let end = "`. The schema's two halves have drifted."@;
    let behind = ours + PROTOCOL_VERSION@ + end;
    where_something_occurs(name + said, protocol, behind);
    assert(name + said + protocol + behind =~= text);
    let before = name + said + protocol + ours;
    where_something_occurs(before, PROTOCOL_VERSION@, end);
}

/// The greeting in a driver's first reply.
///
/// A one-sided change of the protocol is a failure here, not a field that disagrees later.
pub fn greeting(name: &str, reply: Response) -> (r: Result<Hello, String>)
    ensures
        match reply.hello {
            None => r matches Err(why) && why@ == silent_text(name@),
            Some(hello) => if hello.protocol@ == PROTOCOL_VERSION@ {
                r == Ok::<Hello, String>(hello)
            } else {
                r matches Err(why) && why@ == drifted_text(name@, hello.protocol@)
            },
        },
{
    match reply.hello {
        None => {
            let mut why: String = name.to_owned();
            why.append(": driver did not answer `hello` with a hello");
            Err(why)
        },
        Some(hello) => {
            if !text_same(hello.protocol.as_str(), PROTOCOL_VERSION) {
                let mut why: String = name.to_owned();
                why.append(": driver speaks protocol `");
                why.append(hello.protocol.as_str());
                why.append("`, runner speaks `");
                why.append(PROTOCOL_VERSION);
                why.append("`. The schema's two halves have drifted.");
                return Err(why);
            }
            Ok(hello)
        },
    }
}

/// What is said of a driver whose stream ended before it replied.
pub fn closed_stream(name: &str) -> (r: String)
    ensures
        r@ == name@ + ": driver closed its stream (it probably crashed — see its stderr above)"@,
{
    let mut why: String = name.to_owned();
    why.append(": driver closed its stream (it probably crashed — see its stderr above)");
    why
}

} // verus!
