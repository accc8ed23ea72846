//! The projection: it canonicalizes the question, never the evidence.
//!
//! A trace is captured raw. The projection decides what a comparison looks at: the class, the
//! value, the locks, the presence of a commit timestamp and of a message, and what the claim asks
//! for besides. The run's prefix, the timestamps and the size of a lock's time to live are left
//! out.

use vstd::prelude::*;
use vstd::string::*;
use vstd::utf8::*;

use crate::base64::{b64_encode, encoded};
use crate::class::{class_views, Class, ClassView};
use crate::command::prefix_token;
use crate::json::{first_member, json_text, least_member, member_views, print_json, Json, JsonView};
use crate::observation::{LockObs, Observation};
use crate::order::{sort_texts, text_lt, text_order, text_same, texts};
use crate::sorted::{ascending, SortedMap};
use crate::text::{decimal, decimal_text, join, joined, replace_bytes, replaced, utf8_text};
use crate::trace::{Step, Trace};

verus! {

/// Every path that a comparison may ask for besides the defaults.
pub const OPT_IN_PATHS: [&'static str; 3] = ["native.type", "proto", "errors.count"];

/// What a comparison looks at, beyond the defaults.
#[derive(Debug, Clone)]
pub struct Spec {
    /// Paths to compare in addition to the defaults.
    pub also_compare: Vec<String>,
}

/// A trace reduced to comparable facts: step id, path, value.
pub type Canonical = SortedMap<SortedMap<String>>;

/// One field, at one step, where two runs disagree.
#[derive(Debug, Clone, PartialEq, Eq)]
pub struct Divergence {
    pub step: String,
    pub path: String,
    pub oracle: String,
    pub subject: String,
}

/// The path is one that a comparison may ask for.
pub open spec fn known_path(path: Seq<char>) -> bool {
    exists|i: int| 0 <= i < OPT_IN_PATHS@.len() && (#[trigger] OPT_IN_PATHS@[i])@ == path
}

/// Which paths a comparison may ask for.
pub proof fn the_known_paths(path: Seq<char>)
    ensures
        known_path(path) <==> path == "native.type"@ || path == "proto"@ || path == "errors.count"@,
{
    assert(OPT_IN_PATHS@[0]@ == "native.type"@);
    assert(OPT_IN_PATHS@[1]@ == "proto"@);
    assert(OPT_IN_PATHS@[2]@ == "errors.count"@);
}

/// Every path is one that a comparison may ask for.
pub open spec fn known_paths(also: Seq<Seq<char>>) -> bool {
    forall|i: int| 0 <= i < also.len() ==> known_path(#[trigger] also[i])
}

/// Why an unknown path is refused.
pub open spec fn unknown_path_text(path: Seq<char>) -> Seq<char> {
    "`also_compare` names `"@ + path
        + "`, which is not a projection path. Known paths: native.type, proto, errors.count. An unknown path would compare NOTHING while looking like it compared something."@
}

impl Default for Spec {
    fn default() -> (r: Self)
        ensures
            r.also_compare@.len() == 0,
    {
        Spec { also_compare: Vec::new() }
    }
}

/// Is the path one that a comparison may ask for?
fn is_known_path(path: &str) -> (r: bool)
    ensures
        r == known_path(path@),
{
    proof {
        the_known_paths(path@);
    }
    text_same(path, "native.type") || text_same(path, "proto") || text_same(path, "errors.count")
}

impl Spec {
    /// Reject an unknown path, before anything runs: a comparison that silently does not happen
    /// is worse than one that fails.
    pub fn validate(&self) -> (r: Result<(), String>)
        ensures
            r is Ok <==> known_paths(texts(self.also_compare@)),
            r is Err ==> exists|i: int|
                {
                    &&& 0 <= i < self.also_compare@.len()
                    &&& !known_path((#[trigger] self.also_compare@[i])@)
                    &&& known_paths(texts(self.also_compare@).take(i))
                    &&& r->Err_0@ == unknown_path_text(self.also_compare@[i]@)
                },
    {
        let mut i: usize = 0;
        while i < self.also_compare.len()
            invariant
                i <= self.also_compare@.len(),
                forall|j: int| 0 <= j < i ==> known_path(#[trigger] texts(self.also_compare@)[j]),
            decreases self.also_compare@.len() - i,
        {
            let path: &str = self.also_compare[i].as_str();
            if !is_known_path(path) {
                let mut why: String = "`also_compare` names `".to_owned();
                why.append(path);
                why.append(
                    "`, which is not a projection path. Known paths: native.type, proto, errors.count. An unknown path would compare NOTHING while looking like it compared something.",
                );
                proof {
                    assert(!known_path(texts(self.also_compare@)[i as int]));
                    assert(!known_path(self.also_compare@[i as int]@));
                    assert(known_paths(texts(self.also_compare@).take(i as int)));
                }
                return Err(why);
            }
            i = i + 1;
        }
        Ok(())
    }
}

/// `raw` as it is compared: the run's prefix gives way to the token, and what is no text is
/// spelled in base64.
pub open spec fn redacted(raw: Seq<u8>, prefix: Seq<char>) -> Seq<char> {
    let clean = replaced(raw, encode_utf8(prefix), encode_utf8(prefix_token()));
    if valid_utf8(clean) {
        decode_utf8(clean)
    } else {
        encoded(clean)
    }
}

/// Whether a lock expires at all. How soon is not compared.
pub open spec fn ttl_bucket(ttl_ms: u64) -> Seq<char> {
    if ttl_ms == 0 {
        "zero"@
    } else {
        "positive"@
    }
}

/// A lock as it is compared.
pub open spec fn lock_text(lock: LockObs, prefix: Seq<char>) -> Seq<char> {
    "key="@ + redacted(lock.key.raw(), prefix) + " primary="@ + redacted(lock.primary.raw(), prefix)
        + " kind="@ + lock.kind@ + " ttl="@ + ttl_bucket(lock.ttl_ms)
}

/// Each lock as it is compared.
pub open spec fn lock_texts(locks: Seq<LockObs>, prefix: Seq<char>) -> Seq<Seq<char>> {
    locks.map_values(|l: LockObs| lock_text(l, prefix))
}

/// The tags of the parts.
pub open spec fn part_tags(parts: Seq<ClassView>) -> Seq<Seq<char>> {
    parts.map_values(|p: ClassView| p.tag())
}

/// The message type that an error carried: container and message, and never further.
pub open spec fn message_type(proto: JsonView) -> Seq<char> {
    match proto {
        JsonView::Object(outer) => if outer.len() == 0 {
            "<empty>"@
        } else {
            let (container, inner) = least_member(outer);
            match inner {
                JsonView::Object(messages) => if messages.len() == 0 {
                    container
                } else {
                    container + "."@ + least_member(messages).0
                },
                _ => container,
            }
        },
        _ => "<malformed>"@,
    }
}

/// What is compared of an observation by default.
pub open spec fn default_facts(obs: Observation, prefix: Seq<char>) -> Map<Seq<char>, Seq<char>> {
    let named = Map::empty().insert("class"@, obs.class@.tag());
    let detailed = match obs.class@ {
        ClassView::Unsupported { detail } => named.insert("unsupported.detail"@, detail),
        ClassView::Mixed { parts } => named.insert(
            "class.parts"@,
            joined(part_tags(parts).sort_by(text_order()), ","@),
        ),
        _ => named,
    };
    let answered = detailed.insert(
        "value"@,
        match obs.value {
            Some(v) => redacted(v.raw(), prefix),
            None => "<absent>"@,
        },
    ).insert("locks.count"@, decimal(obs.locks@.len())).insert(
        "locks"@,
        joined(lock_texts(obs.locks@, prefix).sort_by(text_order()), " | "@),
    ).insert(
        "commit_ts"@,
        if obs.commit_ts is Some {
            "<ts>"@
        } else {
            "<absent>"@
        },
    );
    match obs.proto {
        Some(p) => answered.insert("proto.present"@, "true"@).insert(
            "proto.type"@,
            message_type(p@),
        ),
        None => answered.insert("proto.present"@, "false"@),
    }
}

/// What an observation says at a path that a comparison asks for.
pub open spec fn opt_in_fact(obs: Observation, path: Seq<char>) -> Seq<char> {
    if path == "native.type"@ {
        match obs.native {
            Some(n) => n.kind@,
            None => "<absent>"@,
        }
    } else if path == "proto"@ {
        match obs.proto {
            Some(p) => json_text(p@),
            None => "<absent>"@,
        }
    } else {
        match obs.error_count {
            Some(n) => decimal(n as nat),
            None => "<absent>"@,
        }
    }
}

/// The facts, with what a comparison asks for besides.
pub open spec fn with_opt_ins(
    facts: Map<Seq<char>, Seq<char>>,
    obs: Observation,
    also: Seq<Seq<char>>,
) -> Map<Seq<char>, Seq<char>>
    decreases also.len(),
{
    if also.len() == 0 {
        facts
    } else {
        with_opt_ins(facts, obs, also.drop_last()).insert(also.last(), opt_in_fact(obs, also.last()))
    }
}

/// What is compared of an observation.
pub open spec fn facts(obs: Observation, prefix: Seq<char>, also: Seq<Seq<char>>) -> Map<
    Seq<char>,
    Seq<char>,
> {
    with_opt_ins(default_facts(obs, prefix), obs, also)
}

/// What is compared of the steps of a trace. Of a repeated id the last step counts.
pub open spec fn projected(steps: Seq<Step>, prefix: Seq<char>, also: Seq<Seq<char>>) -> Map<
    Seq<char>,
    Map<Seq<char>, Seq<char>>,
>
    decreases steps.len(),
{
    if steps.len() == 0 {
        Map::empty()
    } else {
        projected(steps.drop_last(), prefix, also).insert(
            steps.last().id@,
            facts(steps.last().observation, prefix, also),
        )
    }
}

/// The facts that a canonical form holds.
pub open spec fn canonical_facts(c: Canonical) -> Map<Seq<char>, Map<Seq<char>, Seq<char>>> {
    c@.map_values(|m: SortedMap<String>| m.texts())
}

/// The run's prefix is unique to the run; redact it, so that keys compare across runs.
///
/// Redaction happens on bytes, before it is decided how to spell them: a namespaced binary key is
/// in general no text.
pub fn redact_prefix_bytes(raw: &[u8], prefix: &str) -> (r: String)
    ensures
        r@ == redacted(raw@, prefix@),
{
    let clean: Vec<u8> = replace_bytes(raw, prefix.as_bytes(), "{P}".as_bytes());
    let spelled: String = b64_encode(clean.as_slice());
    match utf8_text(clean) {
        Some(text) => {
            proof {
                encode_utf8_decode_utf8(text@);
            }
            text
        },
        None => spelled,
    }
}

/// Whether a lock expires at all.
pub fn bucket_ttl(ttl_ms: u64) -> (r: &'static str)
    ensures
        r@ == ttl_bucket(ttl_ms),
{
    if ttl_ms == 0 {
        "zero"
    } else {
        "positive"
    }
}

/// The message type that an error carried.
///
/// Exactly two levels, container and message. The payload's fields are not read: two clients that
/// report the same message would diverge because one of them attached a field.
pub fn proto_type(p: &Json) -> (r: String)
    ensures
        r@ == message_type(p@),
{
    match p {
        Json::Object(outer) => {
            proof {
                assert(member_views(outer@).len() == outer@.len());
            }
            if outer.len() == 0 {
                return "<empty>".to_owned();
            }
            let first: &(String, Json) = first_member(outer);
            match &first.1 {
                Json::Object(messages) => {
                    proof {
                        assert(member_views(messages@).len() == messages@.len());
                    }
                    if messages.len() == 0 {
                        return first.0.clone();
                    }
                    let message: &(String, Json) = first_member(messages);
                    let mut name: String = first.0.clone();
                    name.append(".");
                    name.append(message.0.as_str());
                    name
                },
                _ => first.0.clone(),
            }
        },
        _ => "<malformed>".to_owned(),
    }
}

/// The locks as they are compared, in ascending order.
fn locks_text(locks: &Vec<LockObs>, prefix: &str) -> (r: String)
    ensures
        r@ == joined(lock_texts(locks@, prefix@).sort_by(text_order()), " | "@),
{
    let mut lines: Vec<String> = Vec::new();
    let mut i: usize = 0;
    while i < locks.len()
        invariant
            i <= locks@.len(),
            lines@.len() == i,
            forall|j: int| 0 <= j < i ==> (#[trigger] lines@[j])@ == lock_text(locks@[j], prefix@),
        decreases locks@.len() - i,
    {
        let lock: &LockObs = &locks[i];
        let mut line: String = "key=".to_owned();
        line.append(redact_prefix_bytes(lock.key.as_slice().as_slice(), prefix).as_str());
        line.append(" primary=");
        line.append(redact_prefix_bytes(lock.primary.as_slice().as_slice(), prefix).as_str());
        line.append(" kind=");
        line.append(lock.kind.as_str());
        line.append(" ttl=");
        line.append(bucket_ttl(lock.ttl_ms));
        lines.push(line);
        i = i + 1;
    }
    proof {
        assert(texts(lines@) =~= lock_texts(locks@, prefix@));
    }
    let sorted: Vec<String> = sort_texts(lines);
    join(&sorted, " | ")
}

/// The tags of the parts, in ascending order.
fn parts_text(parts: &Vec<Class>) -> (r: String)
    ensures
        r@ == joined(part_tags(class_views(parts@)).sort_by(text_order()), ","@),
{
    let mut tags: Vec<String> = Vec::new();
    let mut i: usize = 0;
    while i < parts.len()
        invariant
            i <= parts@.len(),
            tags@.len() == i,
            forall|j: int| 0 <= j < i ==> (#[trigger] tags@[j])@ == parts@[j]@.tag(),
        decreases parts@.len() - i,
    {
        tags.push(parts[i].tag().to_owned());
        i = i + 1;
    }
    proof {
        assert(texts(tags@) =~= part_tags(class_views(parts@)));
    }
    let sorted: Vec<String> = sort_texts(tags);
    join(&sorted, ",")
}

/// Set the text at `path`.
fn put(out: &mut SortedMap<String>, path: &str, text: String)
    ensures
        final(out).texts() == old(out).texts().insert(path@, text@),
{
    out.insert(path.to_owned(), text);
    proof {
        assert(out.texts() =~= old(out).texts().insert(path@, text@));
    }
}

/// What an observation says at a path that a comparison asks for.
fn opt_in_text(obs: &Observation, path: &str) -> (r: String)
    requires
        known_path(path@),
    ensures
        r@ == opt_in_fact(*obs, path@),
{
    if text_same(path, "native.type") {
        match &obs.native {
            Some(n) => n.kind.clone(),
            None => "<absent>".to_owned(),
        }
    } else if text_same(path, "proto") {
        match &obs.proto {
            Some(p) => print_json(p),
            None => "<absent>".to_owned(),
        }
    } else {
        match obs.error_count {
            Some(n) => decimal_text(n as u128),
            None => "<absent>".to_owned(),
        }
    }
}

/// What is compared of an observation.
pub fn project_obs(obs: &Observation, prefix: &str, spec: &Spec) -> (r: SortedMap<String>)
    requires
        known_paths(texts(spec.also_compare@)),
    ensures
        r.texts() == facts(*obs, prefix@, texts(spec.also_compare@)),
{
    let mut out: SortedMap<String> = SortedMap::new();
    proof {
        assert(out.texts() =~= Map::<Seq<char>, Seq<char>>::empty());
    }
    put(&mut out, "class", obs.class.tag().to_owned());
    match &obs.class {
        // A capability gap is visible as such, not hidden behind a bare tag.
        Class::Unsupported { detail } => {
            put(&mut out, "unsupported.detail", detail.clone());
        },
        // Sorted: the same set in another order is no difference in fact.
        Class::Mixed { parts } => {
            put(&mut out, "class.parts", parts_text(parts));
        },
        _ => {},
    }
    let value: String = match &obs.value {
        Some(v) => redact_prefix_bytes(v.as_slice().as_slice(), prefix),
        None => "<absent>".to_owned(),
    };
    put(&mut out, "value", value);
    put(&mut out, "locks.count", decimal_text(obs.locks.len() as u128));
    put(&mut out, "locks", locks_text(&obs.locks, prefix));
    let commit_ts: &str = if obs.commit_ts.is_some() {
        "<ts>"
    } else {
        "<absent>"
    };
    put(&mut out, "commit_ts", commit_ts.to_owned());
    match &obs.proto {
        Some(p) => {
            put(&mut out, "proto.present", "true".to_owned());
            put(&mut out, "proto.type", proto_type(p));
        },
        None => {
            put(&mut out, "proto.present", "false".to_owned());
        },
    }
    let ghost also = texts(spec.also_compare@);
    proof {
        assert(out.texts() == default_facts(*obs, prefix@));
        assert(also.take(0) =~= Seq::<Seq<char>>::empty());
    }
    let mut i: usize = 0;
    while i < spec.also_compare.len()
        invariant
            also == texts(spec.also_compare@),
            known_paths(also),
            i <= also.len(),
            out.texts() == with_opt_ins(default_facts(*obs, prefix@), *obs, also.take(i as int)),
        decreases also.len() - i,
    {
        let path: &str = spec.also_compare[i].as_str();
        proof {
            let next = also.take(i + 1);
            assert(next.drop_last() =~= also.take(i as int));
            assert(next.last() == path@);
            assert(known_path(also[i as int]));
        }
        put(&mut out, path, opt_in_text(obs, path));
        i = i + 1;
    }
    proof {
        assert(also.take(i as int) =~= also);
    }
    out
}

/// Reduce a trace to what is compared.
pub fn project(trace: &Trace, spec: &Spec) -> (r: Canonical)
    requires
        trace.steps@.len() > 0 ==> known_paths(texts(spec.also_compare@)),
    ensures
        canonical_facts(r) == projected(trace.steps@, trace.prefix@, texts(spec.also_compare@)),
{
    let mut out: Canonical = SortedMap::new();
    let ghost also = texts(spec.also_compare@);
    proof {
        assert(canonical_facts(out) =~= Map::<Seq<char>, Map<Seq<char>, Seq<char>>>::empty());
        assert(trace.steps@.take(0) =~= Seq::<Step>::empty());
    }
    let mut i: usize = 0;
    while i < trace.steps.len()
        invariant
            also == texts(spec.also_compare@),
            trace.steps@.len() > 0 ==> known_paths(also),
            i <= trace.steps@.len(),
            canonical_facts(out) == projected(trace.steps@.take(i as int), trace.prefix@, also),
        decreases trace.steps@.len() - i,
    {
        let step: &Step = &trace.steps[i];
        let fields: SortedMap<String> = project_obs(&step.observation, trace.prefix.as_str(), spec);
        let ghost before = canonical_facts(out);
        out.insert(step.id.clone(), fields);
        proof {
            let next = trace.steps@.take(i + 1);
            assert(next.drop_last() =~= trace.steps@.take(i as int));
            assert(next.last() == *step);
            assert(canonical_facts(out) =~= before.insert(step.id@, fields.texts()));
        }
        i = i + 1;
    }
    proof {
        assert(trace.steps@.take(i as int) =~= trace.steps@);
    }
    out
}

/// What a [`Divergence`] says.
pub struct DivergenceView {
    pub step: Seq<char>,
    pub path: Seq<char>,
    pub oracle: Seq<char>,
    pub subject: Seq<char>,
}

impl View for Divergence {
    type V = DivergenceView;

    open spec fn view(&self) -> DivergenceView {
        DivergenceView {
            step: self.step@,
            path: self.path@,
            oracle: self.oracle@,
            subject: self.subject@,
        }
    }
}

/// What each of the divergences says.
pub open spec fn divergence_views(d: Seq<Divergence>) -> Seq<DivergenceView> {
    d.map_values(|x: Divergence| x@)
}

/// The facts of a step, which are none where the step is absent.
pub open spec fn facts_at(
    canonical: Map<Seq<char>, Map<Seq<char>, Seq<char>>>,
    step: Seq<char>,
) -> Map<Seq<char>, Seq<char>> {
    if canonical.contains_key(step) {
        canonical[step]
    } else {
        Map::empty()
    }
}

/// The fact at a path, as it is shown.
pub open spec fn shown(facts: Map<Seq<char>, Seq<char>>, path: Seq<char>) -> Seq<char> {
    if facts.contains_key(path) {
        facts[path]
    } else {
        "<step absent>"@
    }
}

/// `d` is a field where the two runs disagree, with what each of them shows there.
pub open spec fn field_disagreement(
    oracle: Map<Seq<char>, Map<Seq<char>, Seq<char>>>,
    subject: Map<Seq<char>, Map<Seq<char>, Seq<char>>>,
    d: DivergenceView,
) -> bool {
    let o = facts_at(oracle, d.step);
    let s = facts_at(subject, d.step);
    &&& o.contains_key(d.path) || s.contains_key(d.path)
    &&& d.oracle == shown(o, d.path)
    &&& d.subject == shown(s, d.path)
    &&& d.oracle != d.subject
}

/// The first run has the step and the second has not, and no field of the step shows it.
pub open spec fn silent_step(
    with: Map<Seq<char>, Map<Seq<char>, Seq<char>>>,
    without: Map<Seq<char>, Map<Seq<char>, Seq<char>>>,
    step: Seq<char>,
) -> bool {
    &&& with.contains_key(step)
    &&& !without.contains_key(step)
    &&& forall|path: Seq<char>| #[trigger]
        with[step].contains_key(path) ==> with[step][path] == "<step absent>"@
}

/// `d` says of a step that only one of the runs has, and that no field shows, that the other run
/// lacks it.
pub open spec fn step_disagreement(
    oracle: Map<Seq<char>, Map<Seq<char>, Seq<char>>>,
    subject: Map<Seq<char>, Map<Seq<char>, Seq<char>>>,
    d: DivergenceView,
) -> bool {
    &&& d.path == "class"@
    &&& {
        ||| silent_step(oracle, subject, d.step) && d.oracle == "<absent>"@ && d.subject
            == "<step absent>"@
        ||| silent_step(subject, oracle, d.step) && d.oracle == "<step absent>"@ && d.subject
            == "<absent>"@
    }
}

/// `d` is where the two runs disagree: at a field, or on whether there is a step at all.
pub open spec fn disagreement(
    oracle: Map<Seq<char>, Map<Seq<char>, Seq<char>>>,
    subject: Map<Seq<char>, Map<Seq<char>, Seq<char>>>,
    d: DivergenceView,
) -> bool {
    field_disagreement(oracle, subject, d) || step_disagreement(oracle, subject, d)
}

/// `a` is listed before `b`: by step, and within a step by path.
pub open spec fn listed_before(a: DivergenceView, b: DivergenceView) -> bool {
    text_lt(a.step, b.step) || (a.step == b.step && text_lt(a.path, b.path))
}

/// The divergences stand in strictly ascending order of step and path.
pub open spec fn in_order(d: Seq<DivergenceView>) -> bool {
    forall|i: int, j: int|
        0 <= i < j < d.len() ==> listed_before(#[trigger] d[i], #[trigger] d[j])
}

/// `d` lists every disagreement, nothing else, and in order.
pub open spec fn all_disagreements(
    oracle: Map<Seq<char>, Map<Seq<char>, Seq<char>>>,
    subject: Map<Seq<char>, Map<Seq<char>, Seq<char>>>,
    d: Seq<DivergenceView>,
) -> bool {
    &&& in_order(d)
    &&& forall|x: DivergenceView| #[trigger] d.contains(x) <==> disagreement(oracle, subject, x)
}

/// The list has an entry for the step.
pub open spec fn lists_step(d: Seq<DivergenceView>, step: Seq<char>) -> bool {
    exists|i: int| 0 <= i < d.len() && (#[trigger] d[i]).step == step
}

/// A step that only one of the runs has is a divergence, whatever fields it carries, and the other
/// run shows that it lacks it: a run that stopped early never reads as agreement.
pub proof fn a_missing_step_is_a_divergence(
    oracle: Map<Seq<char>, Map<Seq<char>, Seq<char>>>,
    subject: Map<Seq<char>, Map<Seq<char>, Seq<char>>>,
    d: Seq<DivergenceView>,
    step: Seq<char>,
)
    requires
        all_disagreements(oracle, subject, d),
        oracle.contains_key(step) != subject.contains_key(step),
    ensures
        lists_step(d, step),
        forall|i: int|
            0 <= i < d.len() && (#[trigger] d[i]).step == step ==> if oracle.contains_key(step) {
                d[i].subject == "<step absent>"@
            } else {
                d[i].oracle == "<step absent>"@
            },
{
    let o = facts_at(oracle, step);
    let s = facts_at(subject, step);
    let silent = silent_step(oracle, subject, step) || silent_step(subject, oracle, step);
    let path = if silent {
        "class"@
    } else if oracle.contains_key(step) {
        choose|path: Seq<char>| #[trigger] o.contains_key(path) && o[path] != "<step absent>"@
    } else {
        choose|path: Seq<char>| #[trigger] s.contains_key(path) && s[path] != "<step absent>"@
    };
    let x = if silent {
        DivergenceView {
            step,
            path,
            oracle: if oracle.contains_key(step) {
                "<absent>"@
            } else {
                "<step absent>"@
            },
            subject: if oracle.contains_key(step) {
                "<step absent>"@
            } else {
                "<absent>"@
            },
        }
    } else {
        DivergenceView { step, path, oracle: shown(o, path), subject: shown(s, path) }
    };
    assert(disagreement(oracle, subject, x));
    assert(d.contains(x));
    let k = choose|k: int| 0 <= k < d.len() && d[k] == x;
    assert(d[k].step == step);
    assert forall|i: int| 0 <= i < d.len() && (#[trigger] d[i]).step == step implies if oracle.contains_key(
        step,
    ) {
        d[i].subject == "<step absent>"@
    } else {
        d[i].oracle == "<step absent>"@
    } by {
        assert(d.contains(d[i]));
        assert(disagreement(oracle, subject, d[i]));
    }
}

/// The keys of either map.
fn all_keys<V>(a: &SortedMap<V>, b: &SortedMap<V>) -> (r: SortedMap<bool>)
    ensures
        forall|k: Seq<char>| #[trigger]
            r@.contains_key(k) <==> a@.contains_key(k) || b@.contains_key(k),
{
    let mut all: SortedMap<bool> = SortedMap::new();
    let n: usize = a.len();
    let mut i: usize = 0;
    while i < n
        invariant
            n == a.keys().len(),
            forall|k: Seq<char>| #[trigger] a@.contains_key(k) <==> a.keys().contains(k),
            i <= n,
            forall|k: Seq<char>| #[trigger]
                all@.contains_key(k) <==> exists|j: int| 0 <= j < i && a.keys()[j] == k,
        decreases n - i,
    {
        all.insert(a.key_at(i).to_owned(), true);
        i = i + 1;
    }
    proof {
        assert forall|k: Seq<char>| #[trigger] all@.contains_key(k) <==> a@.contains_key(k) by {
            if a@.contains_key(k) {
                assert(a.keys().contains(k));
            }
            if all@.contains_key(k) {
                assert(a.keys().contains(k));
            }
        }
    }
    let m: usize = b.len();
    let mut i: usize = 0;
    while i < m
        invariant
            m == b.keys().len(),
            forall|k: Seq<char>| #[trigger] b@.contains_key(k) <==> b.keys().contains(k),
            i <= m,
            forall|k: Seq<char>| #[trigger]
                all@.contains_key(k) <==> a@.contains_key(k) || exists|j: int|
                    0 <= j < i && b.keys()[j] == k,
        decreases m - i,
    {
        all.insert(b.key_at(i).to_owned(), true);
        i = i + 1;
    }
    proof {
        assert forall|k: Seq<char>| #[trigger]
            all@.contains_key(k) <==> a@.contains_key(k) || b@.contains_key(k) by {
            if b@.contains_key(k) {
                assert(b.keys().contains(k));
            }
            if all@.contains_key(k) && !a@.contains_key(k) {
                assert(b.keys().contains(k));
            }
        }
    }
    all
}

/// The fact at a path, as it is shown.
fn shown_at<'a>(facts: &'a SortedMap<String>, path: &str) -> (r: &'a str)
    ensures
        r@ == shown(facts.texts(), path@),
{
    match facts.get(path) {
        Some(v) => v.as_str(),
        None => "<step absent>",
    }
}

/// `key` is one of the first `n` keys.
spec fn among(keys: Seq<Seq<char>>, n: int, key: Seq<char>) -> bool {
    exists|k: int| 0 <= k < n && #[trigger] keys[k] == key
}

/// One more key is visited.
proof fn lemma_among_next(keys: Seq<Seq<char>>, n: int)
    requires
        0 <= n < keys.len(),
    ensures
        forall|key: Seq<char>| #[trigger]
            among(keys, n + 1, key) <==> among(keys, n, key) || key == keys[n],
{
    assert forall|key: Seq<char>| #[trigger] among(keys, n + 1, key) <==> among(keys, n, key)
        || key == keys[n] by {
        if among(keys, n, key) {
            let k = choose|k: int| 0 <= k < n && #[trigger] keys[k] == key;
            assert(0 <= k < n + 1 && keys[k] == key);
        }
        if key == keys[n] {
            assert(0 <= n < n + 1 && keys[n] == key);
        }
    }
}

/// All keys are visited.
proof fn lemma_among_all(keys: Seq<Seq<char>>)
    ensures
        forall|key: Seq<char>| #[trigger] among(keys, keys.len() as int, key) <==> keys.contains(key),
{
    assert forall|key: Seq<char>| #[trigger]
        among(keys, keys.len() as int, key) <==> keys.contains(key) by {
        if keys.contains(key) {
            let k = choose|k: int| 0 <= k < keys.len() && #[trigger] keys[k] == key;
            assert(0 <= k < keys.len() && keys[k] == key);
        }
    }
}

/// What a sequence holds after a push.
proof fn lemma_push_contains<T>(s: Seq<T>, x: T)
    ensures
        forall|y: T| #[trigger] s.push(x).contains(y) <==> s.contains(y) || y == x,
{
    assert forall|y: T| #[trigger] s.push(x).contains(y) <==> s.contains(y) || y == x by {
        if s.contains(y) {
            let k = choose|k: int| 0 <= k < s.len() && s[k] == y;
            assert(s.push(x)[k] == y);
        }
        if y == x {
            assert(s.push(x)[s.len() as int] == y);
        }
    }
}

/// Append the disagreements of one step.
fn diff_step(
    out: &mut Vec<Divergence>,
    step: &str,
    o: Option<&SortedMap<String>>,
    s: Option<&SortedMap<String>>,
    Ghost(oracle): Ghost<Map<Seq<char>, Map<Seq<char>, Seq<char>>>>,
    Ghost(subject): Ghost<Map<Seq<char>, Map<Seq<char>, Seq<char>>>>,
)
    requires
        o is Some <==> oracle.contains_key(step@),
        o is Some ==> o->0.texts() == oracle[step@],
        s is Some <==> subject.contains_key(step@),
        s is Some ==> s->0.texts() == subject[step@],
        in_order(divergence_views(old(out)@)),
        forall|x: DivergenceView| #[trigger]
            divergence_views(old(out)@).contains(x) ==> text_lt(x.step, step@),
    ensures
        in_order(divergence_views(final(out)@)),
        forall|x: DivergenceView| #[trigger]
            divergence_views(final(out)@).contains(x) <==> divergence_views(old(out)@).contains(x)
                || (x.step == step@ && disagreement(oracle, subject, x)),
{
    let empty: SortedMap<String> = SortedMap::new();
    let of: &SortedMap<String> = match o {
        Some(m) => m,
        None => &empty,
    };
    let sf: &SortedMap<String> = match s {
        Some(m) => m,
        None => &empty,
    };
    proof {
        assert(empty.texts() =~= Map::<Seq<char>, Seq<char>>::empty());
    }
    let agreed: bool = diff_fields(out, step, of, sf, Ghost(oracle), Ghost(subject));
    let ghost views = divergence_views(out@);
    proof {
        lemma_silent_step(oracle, subject, step@);
    }
    if agreed && o.is_some() != s.is_some() {
        let (ov, sv): (&str, &str) = if o.is_some() {
            ("<absent>", "<step absent>")
        } else {
            ("<step absent>", "<absent>")
        };
        let ghost d = DivergenceView { step: step@, path: "class"@, oracle: ov@, subject: sv@ };
        proof {
            lemma_push_contains(views, d);
        }
        out.push(
            Divergence {
                step: step.to_owned(),
                path: "class".to_owned(),
                oracle: ov.to_owned(),
                subject: sv.to_owned(),
            },
        );
        proof {
            assert(divergence_views(out@) =~= views.push(d));
            assert(step_disagreement(oracle, subject, d));
            assert forall|x: DivergenceView| x.step == step@ && #[trigger] disagreement(
                oracle,
                subject,
                x,
            ) implies x == d by {
                assert(!field_disagreement(oracle, subject, x));
            }
            assert forall|a: int, b: int| 0 <= a < b < out@.len() implies listed_before(
                #[trigger] divergence_views(out@)[a],
                #[trigger] divergence_views(out@)[b],
            ) by {
                assert(views.contains(views[a]));
                if b == views.len() {
                    assert(text_lt(views[a].step, step@));
                } else {
                    assert(listed_before(views[a], views[b]));
                }
            }
        }
    }
}

/// A step that only one of the runs has is silent exactly where no field of it disagrees.
proof fn lemma_silent_step(
    oracle: Map<Seq<char>, Map<Seq<char>, Seq<char>>>,
    subject: Map<Seq<char>, Map<Seq<char>, Seq<char>>>,
    step: Seq<char>,
)
    ensures
        ({
            let agreed = forall|x: DivergenceView|
                x.step == step ==> !#[trigger] field_disagreement(oracle, subject, x);
            &&& silent_step(oracle, subject, step) <==> agreed && oracle.contains_key(step)
                && !subject.contains_key(step)
            &&& silent_step(subject, oracle, step) <==> agreed && subject.contains_key(step)
                && !oracle.contains_key(step)
        }),
{
    let o = facts_at(oracle, step);
    let s = facts_at(subject, step);
    let agreed = forall|x: DivergenceView|
        x.step == step ==> !#[trigger] field_disagreement(oracle, subject, x);
    if agreed {
        assert forall|path: Seq<char>|
            #![trigger o.contains_key(path)]
            #![trigger s.contains_key(path)]
            o.contains_key(path) || s.contains_key(path) implies shown(o, path) == shown(
            s,
            path,
        ) by {
            let x = DivergenceView {
                step,
                path,
                oracle: shown(o, path),
                subject: shown(s, path),
            };
            assert(!field_disagreement(oracle, subject, x));
        }
    }
}

/// Append the fields of one step at which the two runs disagree, and say whether there was none.
fn diff_fields(
    out: &mut Vec<Divergence>,
    step: &str,
    o: &SortedMap<String>,
    s: &SortedMap<String>,
    Ghost(oracle): Ghost<Map<Seq<char>, Map<Seq<char>, Seq<char>>>>,
    Ghost(subject): Ghost<Map<Seq<char>, Map<Seq<char>, Seq<char>>>>,
) -> (agreed: bool)
    requires
        o.texts() == facts_at(oracle, step@),
        s.texts() == facts_at(subject, step@),
        in_order(divergence_views(old(out)@)),
        forall|x: DivergenceView| #[trigger]
            divergence_views(old(out)@).contains(x) ==> text_lt(x.step, step@),
    ensures
        in_order(divergence_views(final(out)@)),
        forall|x: DivergenceView| #[trigger]
            divergence_views(final(out)@).contains(x) <==> divergence_views(old(out)@).contains(x)
                || (x.step == step@ && field_disagreement(oracle, subject, x)),
        agreed ==> final(out)@ == old(out)@,
        agreed <==> forall|x: DivergenceView|
            x.step == step@ ==> !#[trigger] field_disagreement(oracle, subject, x),
{
    let paths: SortedMap<bool> = all_keys(o, s);
    let n: usize = paths.len();
    let mut i: usize = 0;
    let mut agreed: bool = true;
    let ghost before = divergence_views(out@);
    let ghost keys = paths.keys();
    while i < n
        invariant
            keys == paths.keys(),
            n == keys.len(),
            ascending(keys),
            o.texts() == facts_at(oracle, step@),
            s.texts() == facts_at(subject, step@),
            i <= n,
            forall|x: DivergenceView| #[trigger] before.contains(x) ==> text_lt(x.step, step@),
            in_order(divergence_views(out@)),
            forall|x: DivergenceView| #[trigger]
                divergence_views(out@).contains(x) <==> before.contains(x) || (x.step == step@
                    && field_disagreement(oracle, subject, x) && among(keys, i as int, x.path)),
            forall|k: Seq<char>| #[trigger]
                paths@.contains_key(k) <==> o@.contains_key(k) || s@.contains_key(k),
            agreed ==> out@ == old(out)@,
            agreed <==> forall|x: DivergenceView|
                x.step == step@ && among(keys, i as int, x.path) ==> !#[trigger] field_disagreement(
                    oracle,
                    subject,
                    x,
                ),
        decreases n - i,
    {
        let path: &str = paths.key_at(i);
        let ov: &str = shown_at(o, path);
        let sv: &str = shown_at(s, path);
        let ghost d = DivergenceView { step: step@, path: path@, oracle: ov@, subject: sv@ };
        let ghost views = divergence_views(out@);
        proof {
            lemma_among_next(keys, i as int);
            lemma_push_contains(views, d);
            assert(o.texts().contains_key(path@) || s.texts().contains_key(path@));
        }
        if !text_same(ov, sv) {
            agreed = false;
            out.push(
                Divergence {
                    step: step.to_owned(),
                    path: path.to_owned(),
                    oracle: ov.to_owned(),
                    subject: sv.to_owned(),
                },
            );
            proof {
                assert(divergence_views(out@) =~= views.push(d));
                assert(field_disagreement(oracle, subject, d));
                assert(among(keys, i + 1, d.path));
                assert forall|a: int, b: int| 0 <= a < b < out@.len() implies listed_before(
                    #[trigger] divergence_views(out@)[a],
                    #[trigger] divergence_views(out@)[b],
                ) by {
                    let x = views[a];
                    if b == views.len() {
                        assert(views.contains(x));
                        if !before.contains(x) {
                            let k = choose|k: int| 0 <= k < i && #[trigger] keys[k] == x.path;
                            assert(text_lt(keys[k], keys[i as int]));
                        }
                    } else {
                        assert(listed_before(views[a], views[b]));
                    }
                }
            }
        }
        i = i + 1;
    }
    proof {
        lemma_among_all(keys);
        assert forall|x: DivergenceView| x.step == step@ && #[trigger] field_disagreement(
            oracle,
            subject,
            x,
        ) implies among(keys, n as int, x.path) by {
            assert(o@.contains_key(x.path) || s@.contains_key(x.path));
            assert(paths@.contains_key(x.path));
        }
    }
    agreed
}

/// Compare two projected traces.
///
/// A step that is present in one and absent in the other is itself a divergence: a run that
/// stopped early never reads as agreement.
pub fn diff(oracle: &Canonical, subject: &Canonical) -> (r: Vec<Divergence>)
    ensures
        all_disagreements(
            canonical_facts(*oracle),
            canonical_facts(*subject),
            divergence_views(r@),
        ),
        forall|step: Seq<char>|
            canonical_facts(*oracle).contains_key(step) != #[trigger] canonical_facts(
                *subject,
            ).contains_key(step) ==> lists_step(divergence_views(r@), step),
{
    let mut out: Vec<Divergence> = Vec::new();
    let ghost ofacts = canonical_facts(*oracle);
    let ghost sfacts = canonical_facts(*subject);
    let steps: SortedMap<bool> = all_keys(oracle, subject);
    let n: usize = steps.len();
    let ghost keys = steps.keys();
    let mut i: usize = 0;
    while i < n
        invariant
            keys == steps.keys(),
            n == keys.len(),
            ascending(keys),
            ofacts == canonical_facts(*oracle),
            sfacts == canonical_facts(*subject),
            i <= n,
            in_order(divergence_views(out@)),
            forall|x: DivergenceView| #[trigger]
                divergence_views(out@).contains(x) <==> disagreement(ofacts, sfacts, x) && among(
                    keys,
                    i as int,
                    x.step,
                ),
        decreases n - i,
    {
        let step: &str = steps.key_at(i);
        let o: Option<&SortedMap<String>> = oracle.get(step);
        let s: Option<&SortedMap<String>> = subject.get(step);
        proof {
            lemma_among_next(keys, i as int);
            assert forall|x: DivergenceView| #[trigger]
                divergence_views(out@).contains(x) implies text_lt(x.step, step@) by {
                let k = choose|k: int| 0 <= k < i && #[trigger] keys[k] == x.step;
                assert(text_lt(keys[k], keys[i as int]));
            }
        }
        diff_step(&mut out, step, o, s, Ghost(ofacts), Ghost(sfacts));
        i = i + 1;
    }
    proof {
        lemma_among_all(keys);
        assert forall|x: DivergenceView| #[trigger] disagreement(ofacts, sfacts, x) implies among(
            keys,
            n as int,
            x.step,
        ) by {
            assert(oracle@.contains_key(x.step) || subject@.contains_key(x.step));
            assert(steps@.contains_key(x.step));
        }
        assert forall|step: Seq<char>|
            ofacts.contains_key(step) != #[trigger] sfacts.contains_key(step) implies lists_step(
            divergence_views(out@),
            step,
        ) by {
            a_missing_step_is_a_divergence(ofacts, sfacts, divergence_views(out@), step);
        }
    }
    out
}

} // verus!
