//! One run of a scenario: what is asked of the drivers, in which order, and what the trace says.
//!
//! The runner owns the total order. Commands are synchronous, so the steps happen in exactly the
//! order in which they are written.

use vstd::prelude::*;
use vstd::string::*;

use crate::command::{arg_views, Command, CommandView, Hello, KeyArg, KeyArgView};
use crate::driver::Response;
use crate::isolation::no_key_escapes_its_run;
use crate::json::{
    json_pretty, json_read, json_views, member, member_views, print_pretty, read_json, Json, JsonView,
};
use crate::observation::Observation;
use crate::order::{text_same, texts};
use crate::project::{
    all_disagreements, diff, divergence_views, known_paths, project, projected, Divergence, Spec,
};
use crate::scenario::{is_sleep, named_op, sleeps, Run, Scenario};
use crate::text::{copy_texts, join, joined, occurs, where_something_occurs};
use crate::trace::{
    all_admissible, cluster_moved, moved_in, refusals, step_classes, RoleBinding, Trace, TRACE_SCHEMA,
};

verus! {

/// A run that could not produce evidence, and why.
///
/// That the setup failed and that the clients differ are different facts.
#[derive(Debug)]
pub struct Inadmissible {
    pub run: String,
    pub why: String,
    /// Only the cluster stands against the run: it observed a routing error, and whatever of it
    /// cannot be evidence is one.
    pub cluster_moved: bool,
}

/// Where the drivers are.
#[derive(Debug)]
pub struct Binaries {
    pub rust: String,
    pub go: String,
}

impl Binaries {
    /// Where the driver with this name is.
    pub open spec fn path(self, driver: Seq<char>) -> Option<Seq<char>> {
        if driver == "rust"@ {
            Some(self.rust@)
        } else if driver == "go"@ {
            Some(self.go@)
        } else {
            None
        }
    }

    /// The path of a driver.
    pub fn get(&self, driver: &str) -> (r: Result<&str, String>)
        ensures
            match r {
                Ok(path) => self.path(driver@) == Some(path@),
                Err(why) => self.path(driver@) is None && why@ == unknown_driver_text(driver@),
            },
    {
        if text_same(driver, "rust") {
            Ok(self.rust.as_str())
        } else if text_same(driver, "go") {
            Ok(self.go.as_str())
        } else {
            let mut why: String = "unknown driver `".to_owned();
            why.append(driver);
            why.append("` (expected rust|go)");
            Err(why)
        }
    }
}

/// Why a driver that is not known is refused.
pub open spec fn unknown_driver_text(driver: Seq<char>) -> Seq<char> {
    "unknown driver `"@ + driver + "` (expected rust|go)"@
}

/// The name of the operation, for the reader.
pub open spec fn op_text(cmd: JsonView) -> Seq<char> {
    match named_op(cmd) {
        Some(op) => op,
        None => "?"@,
    }
}

/// The name of the operation, for the reader.
pub fn cmd_op(cmd: &Json) -> (r: String)
    ensures
        r@ == op_text(cmd@),
{
    match cmd.get("op") {
        Some(op) => match op.as_str() {
            Some(name) => name.to_owned(),
            None => "?".to_owned(),
        },
        None => "?".to_owned(),
    }
}

impl CommandView {
    /// The command with every argument namespaced under the run's prefix: keys as keys, and values
    /// as values.
    pub open spec fn substituted(self, prefix: Seq<char>) -> CommandView {
        match self {
            CommandView::Put { session, key, value } => CommandView::Put {
                session,
                key: key.as_key(prefix),
                value: value.as_value(prefix),
            },
            CommandView::Get { session, key } => CommandView::Get {
                session,
                key: key.as_key(prefix),
            },
            CommandView::SnapshotGet { client, key } => CommandView::SnapshotGet {
                client,
                key: key.as_key(prefix),
            },
            CommandView::ScanLocks { client, start, end, batch_size } => CommandView::ScanLocks {
                client,
                start: start.as_key(prefix),
                end: end.as_key(prefix),
                batch_size,
            },
            CommandView::PrewriteOnly { session, primary, keys } => CommandView::PrewriteOnly {
                session,
                primary: primary.as_key(prefix),
                keys: Seq::new(keys.len(), |i: int| keys[i].as_key(prefix)),
            },
            other => other,
        }
    }
}

/// Namespace every argument of a command under the run's prefix.
///
/// A key must be namespaced, and a binary value must not be touched. This is the one place that
/// knows which is which.
pub fn substitute(cmd: &Command, prefix: &str) -> (r: Command)
    ensures
        r@ == cmd@.substituted(prefix@),
{
    match cmd {
        Command::Put { session, key, value } => Command::Put {
            session: session.clone(),
            key: key.as_key(prefix),
            value: value.as_value(prefix),
        },
        Command::Get { session, key } => Command::Get {
            session: session.clone(),
            key: key.as_key(prefix),
        },
        Command::SnapshotGet { client, key } => Command::SnapshotGet {
            client: client.clone(),
            key: key.as_key(prefix),
        },
        Command::ScanLocks { client, start, end, batch_size } => Command::ScanLocks {
            client: client.clone(),
            // The bounds are keys: they bracket this run's prefix, not the other run's.
            start: start.as_key(prefix),
            end: end.as_key(prefix),
            batch_size: *batch_size,
        },
        Command::PrewriteOnly { session, primary, keys } => {
            let mut named: Vec<KeyArg> = Vec::new();
            let mut i: usize = 0;
            while i < keys.len()
                invariant
                    i <= keys@.len(),
                    named@.len() == i,
                    forall|j: int|
                        0 <= j < i ==> (#[trigger] named@[j])@ == keys@[j]@.as_key(prefix@),
                decreases keys@.len() - i,
            {
                named.push(keys[i].as_key(prefix));
                i = i + 1;
            }
            proof {
                let views = arg_views(keys@);
                assert(arg_views(named@) =~= Seq::new(
                    views.len(),
                    |i: int| views[i].as_key(prefix@),
                ));
            }
            Command::PrewriteOnly {
                session: session.clone(),
                primary: primary.as_key(prefix),
                keys: named,
            }
        },
        Command::Hello => Command::Hello,
        Command::OpenClient { name } => Command::OpenClient { name: name.clone() },
        Command::CloseClient { name } => Command::CloseClient { name: name.clone() },
        Command::Begin { session, client, mode } => Command::Begin {
            session: session.clone(),
            client: client.clone(),
            mode: *mode,
        },
        Command::Commit { session } => Command::Commit { session: session.clone() },
        Command::Rollback { session } => Command::Rollback { session: session.clone() },
        Command::Abandon { session } => Command::Abandon { session: session.clone() },
    }
}

/// What is said of a record of the world that is no JSON.
pub open spec fn bad_provenance_text(why: Seq<char>) -> Seq<char> {
    "results/provenance.json is not valid JSON: "@ + why
}

/// The world that the runs happen in, from what its record was read as.
pub fn provenance_from(read: Result<Json, String>) -> (r: Result<Json, String>)
    ensures
        match read {
            Ok(world) => r == Ok::<Json, String>(world),
            Err(why) => r matches Err(text) && text@ == bad_provenance_text(why@),
        },
{
    match read {
        Ok(world) => Ok(world),
        Err(why) => {
            let mut text: String = "results/provenance.json is not valid JSON: ".to_owned();
            text.append(why.as_str());
            Err(text)
        },
    }
}

/// The world that the runs happen in, from the text of its record. Every trace and every report
/// carries it.
pub fn read_provenance(raw: &str) -> (r: Result<Json, String>)
    ensures
        match json_read(raw@) {
            Ok(world) => r matches Ok(json) && json@ == world,
            Err(why) => r matches Err(text) && text@ == bad_provenance_text(why),
        },
{
    provenance_from(read_json(raw))
}

/// What a run is a run of.
pub struct Setting<'a> {
    pub scenario: &'a Scenario,
    pub run: &'a Run,
    pub bins: &'a Binaries,
    /// The world that the run happens in.
    pub provenance: &'a Json,
    /// The run's own key prefix.
    pub prefix: &'a str,
}

/// What the runner does next.
#[derive(Debug)]
pub enum Action {
    /// Start the driver of a role and greet it.
    Spawn { role: String, driver: String, binary: String },
    /// Wait for the cluster.
    Sleep { ms: u64 },
    /// Send a command to the driver of a role and read its reply.
    Send { role: String, command: Command },
    /// Every step is taken.
    Finish,
    /// The run cannot go on.
    Fail { why: String },
}

/// What an [`Action`] says.
pub enum ActionView {
    Spawn { role: Seq<char>, driver: Seq<char>, binary: Seq<char> },
    Sleep { ms: u64 },
    Send { role: Seq<char>, command: CommandView },
    Finish,
    Fail { why: Seq<char> },
}

impl View for Action {
    type V = ActionView;

    open spec fn view(&self) -> ActionView {
        match *self {
            Action::Spawn { role, driver, binary } => ActionView::Spawn {
                role: role@,
                driver: driver@,
                binary: binary@,
            },
            Action::Sleep { ms } => ActionView::Sleep { ms },
            Action::Send { role, command } => ActionView::Send { role: role@, command: command@ },
            Action::Finish => ActionView::Finish,
            Action::Fail { why } => ActionView::Fail { why: why@ },
        }
    }
}

/// Why a reply ends a run.
#[derive(Debug)]
pub enum Halt {
    /// The run is evidence of nothing.
    Refused(Inadmissible),
    /// The run broke.
    Failed(String),
}

impl<'a> Setting<'a> {
    /// How the driver of the role at position `n` is started.
    pub open spec fn spawn_action(self, n: int) -> ActionView {
        let role = self.scenario.roles@[n]@;
        if !self.run.bind@.contains_key(role) {
            ActionView::Fail {
                why: "run `"@ + self.run.name@ + "` does not bind role `"@ + role + "`"@,
            }
        } else {
            let driver = self.run.bind@[role]@;
            match self.bins.path(driver) {
                Some(binary) => ActionView::Spawn { role, driver, binary },
                None => ActionView::Fail { why: unknown_driver_text(driver) },
            }
        }
    }

    /// How the step at position `n` is taken.
    pub open spec fn step_action(self, n: int) -> ActionView {
        let step = self.scenario.steps@[n];
        if is_sleep(step.cmd@) {
            match sleep_ms(step.cmd@) {
                Some(ms) => ActionView::Sleep { ms },
                None => ActionView::Fail { why: "step `"@ + step.id@ + "`: sleep needs `ms`"@ },
            }
        } else if step.role is None {
            ActionView::Fail { why: "step `"@ + step.id@ + "`: only `sleep` may omit a role"@ }
        } else if !self.scenario.has_role(step.role->0@) {
            ActionView::Fail {
                why: "step `"@ + step.id@ + "`: no driver for role `"@ + step.role->0@ + "`"@,
            }
        } else {
            match step.command {
                Ok(command) => ActionView::Send {
                    role: step.role->0@,
                    command: command@.substituted(self.prefix@),
                },
                Err(why) => ActionView::Fail {
                    why: "step `"@ + step.id@ + "`: bad command: "@ + why@,
                },
            }
        }
    }
}

/// How long a wait is, where it says so.
pub open spec fn sleep_ms(cmd: JsonView) -> Option<u64> {
    match cmd.get("ms"@) {
        Some(ms) => ms.as_u64(),
        None => None,
    }
}

/// How long a wait is, where it says so.
fn read_ms(cmd: &Json) -> (r: Option<u64>)
    ensures
        r == sleep_ms(cmd@),
{
    match cmd.get("ms") {
        Some(ms) => ms.as_u64(),
        None => None,
    }
}

/// The steps that a driver takes, in order.
pub open spec fn driver_steps(steps: Seq<crate::scenario::Step>) -> Seq<crate::scenario::Step>
    decreases steps.len(),
{
    if steps.len() == 0 {
        Seq::empty()
    } else if is_sleep(steps.last().cmd@) {
        driver_steps(steps.drop_last())
    } else {
        driver_steps(steps.drop_last()).push(steps.last())
    }
}

/// `taken` records that `step` was taken and that its precondition held.
pub open spec fn records(step: crate::scenario::Step, taken: crate::trace::Step) -> bool {
    &&& taken.id@ == step.id@
    &&& step.role is Some && taken.role@ == step.role->0@
    &&& taken.op@ == op_text(step.cmd@)
    &&& step.expect is Some ==> step.expect->0.failure(taken.observation) is None
}

/// `taken` records the steps of the drivers among `steps`: each of them, once, in order.
pub open spec fn follows(
    steps: Seq<crate::scenario::Step>,
    taken: Seq<crate::trace::Step>,
) -> bool {
    &&& taken.len() == driver_steps(steps).len()
    &&& forall|i: int|
        0 <= i < taken.len() ==> records(driver_steps(steps)[i], #[trigger] taken[i])
}

/// The position of the last role with this name.
pub open spec fn last_position(roles: Seq<String>, role: Seq<char>) -> int
    decreases roles.len(),
{
    if roles.len() == 0 {
        -1
    } else if roles.last()@ == role {
        roles.len() - 1
    } else {
        last_position(roles.drop_last(), role)
    }
}

/// `bindings` names each role with the driver that plays it. Of a repeated role, the last driver
/// plays it.
pub open spec fn binds(
    roles: Seq<String>,
    hellos: Seq<Hello>,
    bindings: Seq<RoleBinding>,
) -> bool {
    &&& bindings.len() == roles.len()
    &&& forall|i: int|
        0 <= i < roles.len() ==> {
            let hello = hellos[last_position(roles, roles[i]@)]@;
            &&& (#[trigger] bindings[i]).role@ == roles[i]@
            &&& bindings[i].driver@ == hello.driver
            &&& bindings[i].hello@ == hello
        }
}

/// How far a run has come.
#[derive(Debug)]
pub struct Execution {
    /// The greetings of the drivers that were started, in the order of the roles.
    pub hellos: Vec<Hello>,
    /// The next step.
    pub next: usize,
    /// What was recorded.
    pub taken: Vec<crate::trace::Step>,
}

impl Execution {
    /// The run came this far in its setting.
    pub open spec fn wf(self, s: Setting) -> bool {
        &&& self.hellos@.len() <= s.scenario.roles@.len()
        &&& self.next <= s.scenario.steps@.len()
        &&& self.next > 0 ==> self.hellos@.len() == s.scenario.roles@.len()
        &&& follows(s.scenario.steps@.take(self.next as int), self.taken@)
    }

    /// What the runner does next.
    pub open spec fn next_action(self, s: Setting) -> ActionView {
        if self.hellos@.len() < s.scenario.roles@.len() {
            s.spawn_action(self.hellos@.len() as int)
        } else if self.next < s.scenario.steps@.len() {
            s.step_action(self.next as int)
        } else {
            ActionView::Finish
        }
    }

    /// A run that has not begun.
    pub fn new() -> (r: Self)
        ensures
            r.hellos@.len() == 0,
            r.next == 0,
            r.taken@.len() == 0,
            forall|s: Setting| #[trigger] r.wf(s),
    {
        let r: Execution = Execution { hellos: Vec::new(), next: 0, taken: Vec::new() };
        proof {
            assert forall|s: Setting| #[trigger] r.wf(s) by {
                assert(s.scenario.steps@.take(0) =~= Seq::<crate::scenario::Step>::empty());
            }
        }
        r
    }

    /// What the runner does next.
    pub fn action(&self, s: &Setting) -> (r: Action)
        requires
            self.wf(*s),
        ensures
            r@ == self.next_action(*s),
    {
        let n: usize = self.hellos.len();
        if n < s.scenario.roles.len() {
            let role: &str = s.scenario.roles[n].as_str();
            return match s.run.bind.get(role) {
                None => {
                    let mut why: String = "run `".to_owned();
                    why.append(s.run.name.as_str());
                    why.append("` does not bind role `");
                    why.append(role);
                    why.append("`");
                    Action::Fail { why }
                },
                Some(driver) => match s.bins.get(driver.as_str()) {
                    Ok(binary) => Action::Spawn {
                        role: role.to_owned(),
                        driver: driver.clone(),
                        binary: binary.to_owned(),
                    },
                    Err(why) => Action::Fail { why },
                },
            };
        }
        if self.next < s.scenario.steps.len() {
            let step: &crate::scenario::Step = &s.scenario.steps[self.next];
            // A wait is the runner's own: it is about the cluster's clock, not about a client.
            if sleeps(&step.cmd) {
                return match read_ms(&step.cmd) {
                    Some(ms) => Action::Sleep { ms },
                    None => {
                        let mut why: String = "step `".to_owned();
                        why.append(step.id.as_str());
                        why.append("`: sleep needs `ms`");
                        Action::Fail { why }
                    },
                };
            }
            let role: &str = match &step.role {
                Some(role) => role.as_str(),
                None => {
                    let mut why: String = "step `".to_owned();
                    why.append(step.id.as_str());
                    why.append("`: only `sleep` may omit a role");
                    return Action::Fail { why };
                },
            };
            if !s.scenario.find_role(role) {
                let mut why: String = "step `".to_owned();
                why.append(step.id.as_str());
                why.append("`: no driver for role `");
                why.append(role);
                why.append("`");
                return Action::Fail { why };
            }
            return match &step.command {
                Ok(command) => Action::Send {
                    role: role.to_owned(),
                    command: substitute(command, s.prefix),
                },
                Err(bad) => {
                    let mut why: String = "step `".to_owned();
                    why.append(step.id.as_str());
                    why.append("`: bad command: ");
                    why.append(bad.as_str());
                    Action::Fail { why }
                },
            };
        }
        Action::Finish
    }

    /// A driver was started and greeted.
    pub fn spawned(self, s: &Setting, hello: Hello) -> (r: Self)
        requires
            self.wf(*s),
            self.next_action(*s) is Spawn,
        ensures
            r.wf(*s),
            r.hellos@ == self.hellos@.push(hello),
            r.next == self.next,
            r.taken == self.taken,
    {
        let mut hellos: Vec<Hello> = self.hellos;
        hellos.push(hello);
        Execution { hellos, next: self.next, taken: self.taken }
    }

    /// The wait is over.
    pub fn slept(self, s: &Setting) -> (r: Self)
        requires
            self.wf(*s),
            self.next_action(*s) is Sleep,
        ensures
            r.wf(*s),
            r.hellos == self.hellos,
            r.next == self.next + 1,
            r.taken == self.taken,
    {
        proof {
            let steps = s.scenario.steps@;
            let upto = steps.take(self.next + 1);
            assert(self.next < s.scenario.steps.len());
            assert(upto.drop_last() =~= steps.take(self.next as int));
            assert(upto.last() == steps[self.next as int]);
        }
        Execution { hellos: self.hellos, next: self.next + 1, taken: self.taken }
    }

    /// What a reply comes to: it ends the run, or it is recorded.
    pub open spec fn reply_halts(self, s: Setting, reply: Response) -> Option<HaltView> {
        let step = s.scenario.steps@[self.next as int];
        match reply.observation {
            None => Some(
                HaltView::Failed {
                    why: "step `"@ + step.id@ + "`: driver returned no observation"@,
                },
            ),
            Some(obs) => match step.expect {
                Some(expect) => match expect.failure(obs) {
                    Some(why) => Some(
                        HaltView::Refused {
                            run: s.run.name@,
                            why: "step `"@ + step.id@ + "` precondition failed: "@ + why,
                            cluster_moved: cluster_moved(
                                step_classes(self.taken@).push(obs.class@),
                            ),
                        },
                    ),
                    None => None,
                },
                None => None,
            },
        }
    }

    /// A driver replied.
    ///
    /// A precondition that does not hold ends the run at once. It is no divergence and no
    /// evidence: if the setup was never made, what comes after it says nothing.
    pub fn replied(self, s: &Setting, reply: Response) -> (r: Result<Self, Halt>)
        requires
            self.wf(*s),
            self.next_action(*s) is Send,
        ensures
            match self.reply_halts(*s, reply) {
                Some(halt) => r matches Err(h) && h@ == halt,
                None => r matches Ok(after) && {
                    &&& after.wf(*s)
                    &&& after.hellos == self.hellos
                    &&& after.next == self.next + 1
                    &&& after.taken@.len() == self.taken@.len() + 1
                    &&& after.taken@.drop_last() == self.taken@
                    &&& records(s.scenario.steps@[self.next as int], after.taken@.last())
                    &&& after.taken@.last().observation == reply.observation->0
                },
            },
    {
        let step: &crate::scenario::Step = &s.scenario.steps[self.next];
        let obs: Observation = match reply.observation {
            Some(obs) => obs,
            None => {
                let mut why: String = "step `".to_owned();
                why.append(step.id.as_str());
                why.append("`: driver returned no observation");
                return Err(Halt::Failed(why));
            },
        };
        let failure: Option<String> = match &step.expect {
            Some(expect) => expect.check(&obs),
            None => None,
        };
        let role: String = match &step.role {
            Some(role) => role.clone(),
            None => String::new(),
        };
        let record: crate::trace::Step = crate::trace::Step {
            id: step.id.clone(),
            role,
            op: cmd_op(&step.cmd),
            observation: obs,
        };
        let ghost before = self.taken@;
        let mut taken: Vec<crate::trace::Step> = self.taken;
        taken.push(record);
        if let Some(bad) = failure {
            let mut why: String = "step `".to_owned();
            why.append(step.id.as_str());
            why.append("` precondition failed: ");
            why.append(bad.as_str());
            let moved: bool = moved_in(&taken);
            proof {
                assert(step_classes(taken@) =~= step_classes(before).push(obs.class@));
            }
            return Err(
                Halt::Refused(
                    Inadmissible { run: s.run.name.clone(), why, cluster_moved: moved },
                ),
            );
        }
        proof {
            let steps = s.scenario.steps@;
            let upto = steps.take(self.next + 1);
            assert(self.next < s.scenario.steps.len());
            assert(upto.drop_last() =~= steps.take(self.next as int));
            assert(upto.last() == steps[self.next as int]);
            assert(taken@.drop_last() =~= before);
            let all = driver_steps(upto);
            assert forall|i: int| 0 <= i < taken@.len() implies records(
                all[i],
                #[trigger] taken@[i],
            ) by {
                if i < before.len() {
                    assert(records(driver_steps(steps.take(self.next as int))[i], before[i]));
                }
            }
        }
        Ok(Execution { hellos: self.hellos, next: self.next + 1, taken })
    }

    /// Every step is taken: the trace, unless something in it cannot be evidence.
    pub fn finish(self, s: &Setting) -> (r: Result<Trace, Inadmissible>)
        requires
            self.wf(*s),
            self.next_action(*s) is Finish,
        ensures
            match r {
                Ok(trace) => {
                    &&& all_admissible(self.taken@)
                    &&& trace.schema@ == TRACE_SCHEMA@
                    &&& trace.scenario@ == s.scenario.name@
                    &&& trace.run@ == s.run.name@
                    &&& trace.provenance@ == s.provenance@
                    &&& binds(s.scenario.roles@, self.hellos@, trace.roles@)
                    &&& trace.prefix@ == s.prefix@
                    &&& trace.steps@ == self.taken@
                    &&& follows(s.scenario.steps@, trace.steps@)
                },
                Err(bad) => {
                    &&& !all_admissible(self.taken@)
                    &&& bad.run@ == s.run.name@
                    &&& bad.why@ == joined(refusals(self.taken@), "; "@)
                    &&& bad.cluster_moved <==> forall|i: int|
                        0 <= i < self.taken@.len() ==> (
                        #[trigger] self.taken@[i]).observation.class@.harness_held()
                    &&& bad.cluster_moved == cluster_moved(step_classes(self.taken@))
                },
            },
    {
        proof {
            assert(s.scenario.steps@.take(self.next as int) =~= s.scenario.steps@);
        }
        let roles: Vec<RoleBinding> = bindings(&s.scenario.roles, &self.hellos);
        let trace: Trace = Trace {
            schema: TRACE_SCHEMA.to_owned(),
            scenario: s.scenario.name.clone(),
            run: s.run.name.clone(),
            provenance: s.provenance.clone(),
            roles,
            prefix: s.prefix.to_owned(),
            steps: self.taken,
        };
        let bad: Vec<String> = trace.inadmissible();
        if bad.len() > 0 {
            let moved: bool = moved_in(&trace.steps);
            proof {
                lemma_refused_by_cluster(trace.steps@);
            }
            return Err(
                Inadmissible {
                    run: s.run.name.clone(),
                    why: join(&bad, "; "),
                    cluster_moved: moved,
                },
            );
        }
        Ok(trace)
    }
}

/// A refused trace is refused by the cluster alone exactly where the harness held at every step.
proof fn lemma_refused_by_cluster(steps: Seq<crate::trace::Step>)
    requires
        !all_admissible(steps),
    ensures
        cluster_moved(step_classes(steps)) <==> forall|i: int|
            0 <= i < steps.len() ==> (#[trigger] steps[i]).observation.class@.harness_held(),
{
    let classes = step_classes(steps);
    let k = choose|k: int|
        0 <= k < steps.len() && !(#[trigger] steps[k]).observation.class@.admissible();
    assert(!classes[k].admissible());
    if cluster_moved(classes) {
        assert forall|i: int| 0 <= i < steps.len() implies (
        #[trigger] steps[i]).observation.class@.harness_held() by {
            assert(classes[i].harness_held());
        }
    }
}

/// What a [`Halt`] says.
pub enum HaltView {
    Refused { run: Seq<char>, why: Seq<char>, cluster_moved: bool },
    Failed { why: Seq<char> },
}

impl View for Halt {
    type V = HaltView;

    open spec fn view(&self) -> HaltView {
        match *self {
            Halt::Refused(bad) => HaltView::Refused {
                run: bad.run@,
                why: bad.why@,
                cluster_moved: bad.cluster_moved,
            },
            Halt::Failed(why) => HaltView::Failed { why: why@ },
        }
    }
}

proof fn lemma_last_position(roles: Seq<String>, i: int)
    requires
        0 <= i < roles.len(),
    ensures
        i <= last_position(roles, roles[i]@) < roles.len(),
    decreases roles.len(),
{
    if roles.last()@ != roles[i]@ {
        lemma_last_position(roles.drop_last(), i);
    }
}

/// Each role with the driver that plays it.
fn bindings(roles: &Vec<String>, hellos: &Vec<Hello>) -> (r: Vec<RoleBinding>)
    requires
        hellos@.len() == roles@.len(),
    ensures
        binds(roles@, hellos@, r@),
{
    let mut out: Vec<RoleBinding> = Vec::new();
    let mut i: usize = 0;
    while i < roles.len()
        invariant
            hellos@.len() == roles@.len(),
            i <= roles@.len(),
            out@.len() == i,
            forall|k: int|
                0 <= k < i ==> {
                    let hello = hellos@[last_position(roles@, roles@[k]@)]@;
                    &&& (#[trigger] out@[k]).role@ == roles@[k]@
                    &&& out@[k].driver@ == hello.driver
                    &&& out@[k].hello@ == hello
                },
        decreases roles@.len() - i,
    {
        let role: &str = roles[i].as_str();
        let mut j: usize = roles.len();
        proof {
            assert(roles@.take(j as int) =~= roles@);
            lemma_last_position(roles@, i as int);
        }
        while !text_same(roles[j - 1].as_str(), role)
            invariant
                i < j <= roles@.len(),
                role@ == roles@[i as int]@,
                last_position(roles@, role@) == last_position(roles@.take(j as int), role@),
            decreases j,
        {
            proof {
                let upto = roles@.take(j as int);
                assert(upto.last() == roles@[j - 1]);
                assert(upto.drop_last() =~= roles@.take(j - 1));
            }
            j = j - 1;
        }
        proof {
            let upto = roles@.take(j as int);
            assert(upto.last() == roles@[j - 1]);
        }
        let hello: &Hello = &hellos[j - 1];
        out.push(
            RoleBinding {
                role: role.to_owned(),
                driver: hello.driver.clone(),
                hello: hello.clone(),
            },
        );
        i = i + 1;
    }
    out
}

impl CommandView {
    /// Every argument that names a key of the cluster, in order.
    pub open spec fn keys(self) -> Seq<KeyArgView> {
        match self {
            CommandView::Put { key, .. } => seq![key],
            CommandView::Get { key, .. } => seq![key],
            CommandView::SnapshotGet { key, .. } => seq![key],
            CommandView::ScanLocks { start, end, .. } => seq![start, end],
            CommandView::PrewriteOnly { primary, keys, .. } => seq![primary] + keys,
            _ => Seq::empty(),
        }
    }
}

/// Every key that a run sends is namespaced under the run's prefix.
pub proof fn every_key_sent_is_namespaced(cmd: CommandView, p: Seq<char>)
    ensures
        cmd.substituted(p).keys().len() == cmd.keys().len(),
        forall|i: int|
            0 <= i < cmd.keys().len() ==> #[trigger] cmd.substituted(p).keys()[i]
                == cmd.keys()[i].as_key(p),
{
}

/// Two runs with different prefixes never send the same key at the same place of the same command.
pub proof fn two_runs_never_send_the_same_key(
    cmd: CommandView,
    p: Seq<char>,
    q: Seq<char>,
    i: int,
)
    requires
        p != q,
        0 <= i < cmd.keys().len(),
    ensures
        cmd.substituted(p).keys()[i].bytes() != cmd.substituted(q).keys()[i].bytes(),
{
    every_key_sent_is_namespaced(cmd, p);
    every_key_sent_is_namespaced(cmd, q);
    no_key_escapes_its_run(cmd.keys()[i], p, q);
}

/// Substitution touches nothing but keys and values: a command that carries neither is sent as it is
/// written, and of the others the operation, the session or the client, the size of a batch and the
/// number of the keys are kept. Keys become keys of the run and values become values of the run, each
/// in its place.
pub proof fn substitution_touches_only_keys_and_values(cmd: CommandView, p: Seq<char>)
    ensures
        cmd is Hello || cmd is OpenClient || cmd is CloseClient || cmd is Begin || cmd is Commit
            || cmd is Rollback || cmd is Abandon ==> cmd.substituted(p) == cmd,
        cmd is Put ==> {
            &&& cmd.substituted(p) is Put
            &&& cmd.substituted(p)->Put_session == cmd->Put_session
            &&& cmd.substituted(p)->Put_key == cmd->Put_key.as_key(p)
            &&& cmd.substituted(p)->value == cmd->value.as_value(p)
        },
        cmd is Get ==> {
            &&& cmd.substituted(p) is Get
            &&& cmd.substituted(p)->Get_session == cmd->Get_session
            &&& cmd.substituted(p)->Get_key == cmd->Get_key.as_key(p)
        },
        cmd is SnapshotGet ==> {
            &&& cmd.substituted(p) is SnapshotGet
            &&& cmd.substituted(p)->SnapshotGet_client == cmd->SnapshotGet_client
            &&& cmd.substituted(p)->SnapshotGet_key == cmd->SnapshotGet_key.as_key(p)
        },
        cmd is ScanLocks ==> {
            &&& cmd.substituted(p) is ScanLocks
            &&& cmd.substituted(p)->ScanLocks_client == cmd->ScanLocks_client
            &&& cmd.substituted(p)->start == cmd->start.as_key(p)
            &&& cmd.substituted(p)->end == cmd->end.as_key(p)
            &&& cmd.substituted(p)->batch_size == cmd->batch_size
        },
        cmd is PrewriteOnly ==> {
            &&& cmd.substituted(p) is PrewriteOnly
            &&& cmd.substituted(p)->PrewriteOnly_session == cmd->PrewriteOnly_session
            &&& cmd.substituted(p)->primary == cmd->primary.as_key(p)
            &&& cmd.substituted(p)->keys.len() == cmd->keys.len()
            &&& forall|i: int|
                0 <= i < cmd->keys.len() ==> #[trigger] cmd.substituted(p)->keys[i]
                    == cmd->keys[i].as_key(p)
        },
{
}

/// What two runs send at one step differs only in keys and values: in everything else the two
/// commands are one.
pub proof fn two_runs_send_the_same_command(cmd: CommandView, p: Seq<char>, q: Seq<char>)
    ensures
        match (cmd.substituted(p), cmd.substituted(q)) {
            (CommandView::Put { session: a, .. }, CommandView::Put { session: b, .. }) => a == b,
            (CommandView::Get { session: a, .. }, CommandView::Get { session: b, .. }) => a == b,
            (
                CommandView::SnapshotGet { client: a, .. },
                CommandView::SnapshotGet { client: b, .. },
            ) => a == b,
            (
                CommandView::ScanLocks { client: a, batch_size: m, .. },
                CommandView::ScanLocks { client: b, batch_size: n, .. },
            ) => a == b && m == n,
            (
                CommandView::PrewriteOnly { session: a, keys: k, .. },
                CommandView::PrewriteOnly { session: b, keys: l, .. },
            ) => a == b && k.len() == l.len(),
            (a, b) => a == b && a == cmd,
        },
{
    substitution_touches_only_keys_and_values(cmd, p);
    substitution_touches_only_keys_and_values(cmd, q);
}

/// A step is taken as it is written: a wait is waited for as long as it says, and a command of a
/// declared role is sent to that role, namespaced under the run's prefix. Nothing else is sent, and
/// nothing else is waited for.
pub proof fn a_step_is_taken_as_it_is_written(s: Setting, n: int)
    requires
        0 <= n < s.scenario.steps@.len(),
    ensures
        ({
            let step = s.scenario.steps@[n];
            let waits = match step.cmd@.get("op"@) {
                Some(JsonView::Str(op)) => op == "sleep"@,
                _ => false,
            };
            let declared = step.role is Some && exists|i: int|
                0 <= i < s.scenario.roles@.len() && (#[trigger] s.scenario.roles@[i])@
                    == step.role->0@;
            let action = s.step_action(n);
            &&& action is Send <==> !waits && declared && step.command is Ok
            &&& action is Send ==> action->Send_role == step.role->0@ && action->command
                == step.command->Ok_0@.substituted(s.prefix@)
            &&& action is Sleep <==> waits && step.cmd@.get("ms"@) is Some && exists|ms: u64|
                step.cmd@.get("ms"@)->0.is_u64(ms)
            &&& action is Sleep ==> step.cmd@.get("ms"@)->0.is_u64(action->ms)
            &&& action is Send || action is Sleep || action is Fail
        }),
{
    let step = s.scenario.steps@[n];
    if step.role is Some && s.scenario.has_role(step.role->0@) {
        let i = choose|i: int|
            0 <= i < s.scenario.roles@.len() && (#[trigger] s.scenario.roles@[i])@ == step.role->0@;
        assert(s.scenario.roles@[i]@ == step.role->0@);
    }
}

/// A role is played by the driver that the run binds it to, started from where that driver is; a
/// role that is not bound, and a driver that is not known, are not started.
pub proof fn a_role_is_played_by_the_driver_it_is_bound_to(s: Setting, n: int)
    requires
        0 <= n < s.scenario.roles@.len(),
    ensures
        ({
            let role = s.scenario.roles@[n]@;
            let bound = s.run.bind@.contains_key(role);
            let driver = s.run.bind@[role]@;
            let action = s.spawn_action(n);
            &&& action is Spawn <==> bound && (driver == "rust"@ || driver == "go"@)
            &&& action is Spawn ==> {
                &&& action->Spawn_role == role
                &&& action->driver == driver
                &&& driver == "rust"@ ==> action->binary == s.bins.rust@
                &&& driver == "go"@ ==> action->binary == s.bins.go@
            }
            &&& action is Spawn || action is Fail
        }),
{
    reveal_strlit("rust");
    reveal_strlit("go");
    assert("rust"@.len() == 4);
    assert("go"@.len() == 2);
}

/// A run starts the drivers of all roles, in the order of the roles, and then takes the steps, in the
/// order of the steps; it is finished exactly where all of both are done.
pub proof fn a_run_goes_in_order(e: Execution, s: Setting)
    requires
        e.wf(s),
    ensures
        e.hellos@.len() < s.scenario.roles@.len() ==> e.next_action(s) == s.spawn_action(
            e.hellos@.len() as int,
        ),
        e.hellos@.len() == s.scenario.roles@.len() && e.next < s.scenario.steps@.len()
            ==> e.next_action(s) == s.step_action(e.next as int),
        e.next_action(s) is Finish <==> e.hellos@.len() == s.scenario.roles@.len() && e.next
            == s.scenario.steps@.len(),
{
    if e.hellos@.len() < s.scenario.roles@.len() {
        a_role_is_played_by_the_driver_it_is_bound_to(s, e.hellos@.len() as int);
    } else if e.next < s.scenario.steps@.len() {
        a_step_is_taken_as_it_is_written(s, e.next as int);
    }
}

/// The step is one that a driver takes.
spec fn is_driver_step() -> spec_fn(crate::scenario::Step) -> bool {
    |t: crate::scenario::Step| !is_sleep(t.cmd@)
}

proof fn lemma_driver_steps(steps: Seq<crate::scenario::Step>)
    ensures
        driver_steps(steps) == steps.filter(is_driver_step()),
    decreases steps.len(),
{
    reveal(Seq::filter);
    if steps.len() > 0 {
        lemma_driver_steps(steps.drop_last());
    }
}

/// A trace follows its scenario: it holds the steps that are not waits, each of them once and in
/// order, under their ids, roles and operations, and none of them failed its precondition.
pub proof fn a_trace_follows_its_scenario(
    steps: Seq<crate::scenario::Step>,
    taken: Seq<crate::trace::Step>,
)
    requires
        follows(steps, taken),
    ensures
        ({
            let expected = steps.filter(|t: crate::scenario::Step| !is_sleep(t.cmd@));
            &&& taken.len() == expected.len()
            &&& forall|i: int|
                0 <= i < taken.len() ==> {
                    &&& (#[trigger] taken[i]).id@ == expected[i].id@
                    &&& expected[i].role is Some
                    &&& taken[i].role@ == expected[i].role->0@
                    &&& expected[i].cmd@.get("op"@) matches Some(JsonView::Str(op)) ==> taken[i].op@
                        == op
                    &&& expected[i].expect is Some && expected[i].expect->0.lock_count is Some
                        ==> taken[i].observation.locks@.len() == expected[i].expect->0.lock_count->0
                    &&& expected[i].expect is Some && expected[i].expect->0.class is Some
                        ==> taken[i].observation.class@.tag() == expected[i].expect->0.class->0@
                }
        }),
{
    lemma_driver_steps(steps);
    assert(is_driver_step() =~= (|t: crate::scenario::Step| !is_sleep(t.cmd@)));
    assert forall|i: int| 0 <= i < taken.len() implies records(
        driver_steps(steps)[i],
        #[trigger] taken[i],
    ) by {}
}

/// A reply ends a run exactly where it carries no observation, which breaks the run, or where what
/// was observed is not what the setup needs, which makes it evidence of nothing. The refusal names
/// the run and the step, and lays the blame on the cluster exactly where it moved and nothing worse
/// happened.
pub proof fn what_a_reply_ends(e: Execution, s: Setting, reply: Response)
    ensures
        ({
            let step = s.scenario.steps@[e.next as int];
            let halt = e.reply_halts(s, reply);
            let unmet = match (step.expect, reply.observation) {
                (Some(expect), Some(obs)) => (expect.lock_count is Some && expect.lock_count->0
                    != obs.locks@.len()) || (expect.class is Some && expect.class->0@
                    != obs.class@.tag()),
                _ => false,
            };
            &&& halt is Some <==> reply.observation is None || unmet
            &&& halt is Some && reply.observation is None ==> halt->0 is Failed && occurs(
                halt->0->Failed_why,
                step.id@,
            )
            &&& unmet ==> halt->0 is Refused && halt->0->run == s.run.name@ && occurs(
                halt->0->Refused_why,
                step.id@,
            )
            &&& unmet ==> halt->0->cluster_moved == cluster_moved(
                step_classes(e.taken@).push(reply.observation->0.class@),
            )
        }),
{
    let step = s.scenario.steps@[e.next as int];
    where_something_occurs("step `"@, step.id@, "`: driver returned no observation"@);
    if let Some(obs) = reply.observation {
        if let Some(expect) = step.expect {
            if let Some(why) = expect.failure(obs) {
                let tail = "` precondition failed: "@ + why;
                where_something_occurs("step `"@, step.id@, tail);
                assert("step `"@ + step.id@ + "` precondition failed: "@ + why =~= "step `"@
                    + step.id@ + tail);
            }
        }
    }
}

/// The view of an action keeps what is done, to whom and with what.
pub proof fn an_action_says_what_is_done(action: Action)
    ensures
        action is Spawn <==> action@ is Spawn,
        action is Sleep <==> action@ is Sleep,
        action is Send <==> action@ is Send,
        action is Finish <==> action@ is Finish,
        action is Fail <==> action@ is Fail,
        action is Spawn ==> action@->Spawn_role == action->Spawn_role@,
        action is Spawn ==> action@->driver == action->driver@,
        action is Spawn ==> action@->binary == action->binary@,
        action is Sleep ==> action@->ms == action->ms,
        action is Send ==> action@->Send_role == action->Send_role@,
        action is Send ==> action@->command == action->command@,
        action is Fail ==> action@->why == action->why@,
{
}

/// The view of what ends a run keeps whether it broke or is refused, and why.
pub proof fn a_halt_says_why(halt: Halt)
    ensures
        halt is Refused <==> halt@ is Refused,
        halt is Failed <==> halt@ is Failed,
        halt is Refused ==> halt@->run == halt->Refused_0.run@,
        halt is Refused ==> halt@->Refused_why == halt->Refused_0.why@,
        halt is Refused ==> halt@->cluster_moved == halt->Refused_0.cluster_moved,
        halt is Failed ==> halt@->Failed_why == halt->Failed_0@,
{
}

/// A reader is shown the name that a command gives its operation, and a question mark where it gives
/// none.
pub proof fn the_name_of_an_operation(cmd: JsonView, op: Seq<char>)
    ensures
        cmd.get("op"@) == Some(JsonView::Str(op)) ==> op_text(cmd) == op,
        (cmd.get("op"@) is None || !(cmd.get("op"@)->0 is Str)) ==> op_text(cmd) == "?"@,
        is_sleep(cmd) <==> cmd.get("op"@) == Some(JsonView::Str("sleep"@)),
{
}

/// What a run fails for names what is at fault: the step, or the role or driver that cannot be
/// started.
pub proof fn a_failure_names_what_is_at_fault(s: Setting, n: int)
    ensures
        s.step_action(n) is Fail ==> occurs(s.step_action(n)->why, s.scenario.steps@[n].id@),
        s.spawn_action(n) is Fail && !s.run.bind@.contains_key(s.scenario.roles@[n]@) ==> occurs(
            s.spawn_action(n)->why,
            s.scenario.roles@[n]@,
        ) && occurs(s.spawn_action(n)->why, s.run.name@),
        s.spawn_action(n) is Fail && s.run.bind@.contains_key(s.scenario.roles@[n]@) ==> occurs(
            s.spawn_action(n)->why,
            s.run.bind@[s.scenario.roles@[n]@]@,
        ),
{
    let id = s.scenario.steps@[n].id@;
    if s.step_action(n) is Fail {
        let why = s.step_action(n)->why;
        let tail = why.skip(("step `"@ + id).len() as int);
        where_something_occurs("step `"@, id, tail);
        assert(why =~= "step `"@ + id + tail);
    }
    let role = s.scenario.roles@[n]@;
    let name = s.run.name@;
    let said = "` does not bind role `"@;
    let text = "run `"@ + name + said + role + "`"@;
    where_something_occurs("run `"@, name, said + role + "`"@);
    assert("run `"@ + name + (said + role + "`"@) =~= text);
    where_something_occurs("run `"@ + name + said, role, "`"@);
    where_something_occurs(
        "unknown driver `"@,
        s.run.bind@[role]@,
        "` (expected rust|go)"@,
    );
}

/// A record of the world that is no JSON is refused with the reason that the reader gave.
pub proof fn a_bad_record_says_why(why: Seq<char>)
    ensures
        occurs(bad_provenance_text(why), why),
{
    let head = "results/provenance.json is not valid JSON: "@;
    where_something_occurs(head, why, Seq::empty());
    assert(head + why + Seq::<char>::empty() =~= bad_provenance_text(why));
}

/// The trace that is compared is the last one of the run with that name.
pub proof fn the_last_trace_counts(traces: Seq<Trace>, run: Seq<char>)
    ensures
        ({
            let k = last_trace(traces, run);
            &&& -1 <= k < traces.len()
            &&& k >= 0 ==> traces[k].run@ == run
            &&& forall|i: int| k < i < traces.len() ==> (#[trigger] traces[i]).run@ != run
        }),
    decreases traces.len(),
{
    if traces.len() > 0 && traces.last().run@ != run {
        let init = traces.drop_last();
        the_last_trace_counts(init, run);
        assert forall|i: int| last_trace(traces, run) < i < traces.len() implies (
        #[trigger] traces[i]).run@ != run by {
            if i < init.len() {
                assert(init[i].run@ != run);
            }
        }
    }
}

/// The driver that plays a role is the last one that was started for it.
pub proof fn the_last_driver_plays_a_role(
    roles: Seq<String>,
    hellos: Seq<Hello>,
    bindings: Seq<RoleBinding>,
    i: int,
)
    requires
        binds(roles, hellos, bindings),
        hellos.len() == roles.len(),
        0 <= i < roles.len(),
    ensures
        bindings.len() == roles.len(),
        bindings[i].role@ == roles[i]@,
        exists|k: int|
            {
                &&& i <= k < roles.len()
                &&& (#[trigger] roles[k])@ == roles[i]@
                &&& forall|j: int| k < j < roles.len() ==> (#[trigger] roles[j])@ != roles[i]@
                &&& bindings[i].hello@ == hellos[k]@
                &&& bindings[i].driver@ == hellos[k].driver@
            },
{
    lemma_last_position(roles, i);
    lemma_last_is_last(roles, roles[i]@);
    let k = last_position(roles, roles[i]@);
    assert(bindings[i].role@ == roles[i]@);
    assert(roles[k]@ == roles[i]@);
}

proof fn lemma_last_is_last(roles: Seq<String>, role: Seq<char>)
    ensures
        ({
            let k = last_position(roles, role);
            &&& -1 <= k < roles.len()
            &&& k >= 0 ==> roles[k]@ == role
            &&& forall|j: int| k < j < roles.len() ==> (#[trigger] roles[j])@ != role
        }),
    decreases roles.len(),
{
    if roles.len() > 0 && roles.last()@ != role {
        let init = roles.drop_last();
        lemma_last_is_last(init, role);
        assert forall|j: int| last_position(roles, role) < j < roles.len() implies (
        #[trigger] roles[j])@ != role by {
            if j < init.len() {
                assert(init[j]@ != role);
            }
        }
    }
}

proof fn lemma_report_names()
    ensures
        "schema"@.len() == 6 && "schema"@[0] == 's',
        "scenario"@.len() == 8,
        "gap"@.len() == 3,
        "provenance"@.len() == 10,
        "oracle"@.len() == 6 && "oracle"@[0] == 'o',
        "subject"@.len() == 7,
        "divergences"@.len() == 11,
        "step"@.len() == 4 && "step"@[0] == 's',
        "path"@.len() == 4 && "path"@[0] == 'p',
{
    reveal_strlit("schema");
    reveal_strlit("scenario");
    reveal_strlit("gap");
    reveal_strlit("provenance");
    reveal_strlit("oracle");
    reveal_strlit("subject");
    reveal_strlit("divergences");
    reveal_strlit("step");
    reveal_strlit("path");
}

/// A report says what was compared: the scenario, its gap, the world, the two runs with the first as
/// the oracle, and every divergence, in order, with its step, its path and what each run shows.
pub proof fn a_report_says_what_was_compared(
    scenario: Scenario,
    provenance: JsonView,
    d: Seq<Divergence>,
)
    ensures
        ({
            let report = report_of(scenario, provenance, d);
            let listed = report.get("divergences"@)->0.as_array()->0;
            &&& report.get("schema"@) == Some(JsonView::Str("parity-divergence/v1"@))
            &&& report.get("scenario"@) == Some(JsonView::Str(scenario.name@))
            &&& report.get("gap"@) == Some(
                match scenario.gap {
                    Some(gap) => JsonView::Str(gap@),
                    None => JsonView::Null,
                },
            )
            &&& report.get("provenance"@) == Some(provenance)
            &&& report.get("oracle"@) == Some(JsonView::Str(scenario.compare@[0]@))
            &&& report.get("subject"@) == Some(JsonView::Str(scenario.compare@[1]@))
            &&& report.get("divergences"@) is Some && report.get("divergences"@)->0.as_array() is Some
            &&& listed.len() == d.len()
            &&& forall|i: int|
                0 <= i < d.len() ==> {
                    &&& (#[trigger] listed[i]).get("step"@) == Some(JsonView::Str(d[i].step@))
                    &&& listed[i].get("path"@) == Some(JsonView::Str(d[i].path@))
                    &&& listed[i].get("oracle"@) == Some(JsonView::Str(d[i].oracle@))
                    &&& listed[i].get("subject"@) == Some(JsonView::Str(d[i].subject@))
                }
        }),
{
    lemma_report_names();
    reveal_with_fuel(member, 8);
    let report = report_of(scenario, provenance, d);
    let m = report->Object_0;
    let m6 = m.drop_last();
    let m5 = m6.drop_last();
    let m4 = m5.drop_last();
    let m3 = m4.drop_last();
    let m2 = m3.drop_last();
    let m1 = m2.drop_last();
    assert(m.last() == m[6] && m6.last() == m[5] && m5.last() == m[4] && m4.last() == m[3]
        && m3.last() == m[2] && m2.last() == m[1] && m1.last() == m[0]);
    let listed = d.map_values(|x: Divergence| divergence_entry(x));
    assert forall|i: int| 0 <= i < d.len() implies {
        &&& (#[trigger] listed[i]).get("step"@) == Some(JsonView::Str(d[i].step@))
        &&& listed[i].get("path"@) == Some(JsonView::Str(d[i].path@))
        &&& listed[i].get("oracle"@) == Some(JsonView::Str(d[i].oracle@))
        &&& listed[i].get("subject"@) == Some(JsonView::Str(d[i].subject@))
    } by {
        let e = divergence_entry(d[i])->Object_0;
        let e3 = e.drop_last();
        let e2 = e3.drop_last();
        let e1 = e2.drop_last();
        assert(e.last() == e[3] && e3.last() == e[2] && e2.last() == e[1] && e1.last() == e[0]);
    }
}

/// A run of a scenario that was validated does not fail for want of a binding, a role or a
/// command: it fails to start a driver only where the driver's name is not known, and to take a
/// step only where a wait does not say how long or a command does not say whose it is.
pub proof fn a_valid_scenario_can_be_run(s: Setting, k: int)
    requires
        s.scenario.well_formed(),
        0 <= k < s.scenario.runs@.len(),
        *s.run == s.scenario.runs@[k],
    ensures
        forall|n: int|
            0 <= n < s.scenario.roles@.len() && #[trigger] s.spawn_action(n) is Fail ==> s.bins.path(
                s.run.bind@[s.scenario.roles@[n]@]@,
            ) is None,
        forall|n: int|
            0 <= n < s.scenario.steps@.len() && #[trigger] s.step_action(n) is Fail ==> {
                let step = s.scenario.steps@[n];
                if is_sleep(step.cmd@) {
                    sleep_ms(step.cmd@) is None
                } else {
                    step.role is None
                }
            },
{
    assert forall|n: int|
        0 <= n < s.scenario.roles@.len() && #[trigger] s.spawn_action(n) is Fail implies s.bins.path(
        s.run.bind@[s.scenario.roles@[n]@]@,
    ) is None by {
        assert(s.scenario.runs@[k].bind@.contains_key(s.scenario.roles@[n]@));
    }
    assert forall|n: int|
        0 <= n < s.scenario.steps@.len() && #[trigger] s.step_action(n) is Fail implies ({
        let step = s.scenario.steps@[n];
        if is_sleep(step.cmd@) {
            sleep_ms(step.cmd@) is None
        } else {
            step.role is None
        }
    }) by {
        let step = s.scenario.steps@[n];
        assert(s.scenario.step_decodes(n));
    }
}

/// How often a scenario is run again where the cluster moved.
pub const REPEATS: u32 = 3;

/// What follows a run.
#[derive(Debug)]
pub enum Next {
    /// The run at this position of the scenario.
    Run(usize),
    /// The scenario from its first run, since the cluster moved. What was recorded is let go.
    Again,
    /// Nothing: the run is evidence of nothing, and there is no report.
    Refused(Inadmissible),
    /// Every run is evidence: the comparison and its report.
    Report,
}

/// What the scenario begins with.
pub fn first_run(scenario: &Scenario) -> (r: Next)
    ensures
        if scenario.runs@.len() > 0 {
            r == Next::Run(0)
        } else {
            r is Report
        },
{
    if scenario.runs.len() > 0 {
        Next::Run(0)
    } else {
        Next::Report
    }
}

/// What follows the run at position `done`.
///
/// Where the cluster moved, the run says nothing about either client: the scenario is run again, as
/// long as repeats are left, rather than reported.
pub fn after_run(
    scenario: &Scenario,
    done: usize,
    outcome: Result<(), Inadmissible>,
    repeats_left: u32,
) -> (r: Next)
    requires
        done < scenario.runs@.len(),
    ensures
        match outcome {
            Ok(()) => if done + 1 < scenario.runs@.len() {
                r == Next::Run((done + 1) as usize)
            } else {
                r is Report
            },
            Err(bad) => if bad.cluster_moved && repeats_left > 0 {
                r is Again
            } else {
                r matches Next::Refused(b) && b == bad
            },
        },
        r.decides(
            decided(scenario.runs@.len() as int, done as int, outcome_of(outcome), repeats_left as nat),
        ),
{
    match outcome {
        Ok(()) => {
            assert(done < scenario.runs.len());
            if done + 1 < scenario.runs.len() {
                Next::Run(done + 1)
            } else {
                Next::Report
            }
        },
        Err(bad) => {
            if bad.cluster_moved && repeats_left > 0 {
                Next::Again
            } else {
                Next::Refused(bad)
            }
        },
    }
}

/// What a run came to.
pub enum Outcome {
    Evidence,
    Moved,
    Refused,
}

/// Where a scenario stands: before the run at this position, with so many repeats left, or at its
/// end.
pub enum Course {
    At { run: int, left: nat },
    Refused,
    Report,
}

/// What a run came to.
pub open spec fn outcome_of(outcome: Result<(), Inadmissible>) -> Outcome {
    match outcome {
        Ok(()) => Outcome::Evidence,
        Err(bad) => if bad.cluster_moved {
            Outcome::Moved
        } else {
            Outcome::Refused
        },
    }
}

/// Where a scenario of `n` runs stands after the run at position `done`.
pub open spec fn decided(n: int, done: int, outcome: Outcome, left: nat) -> Course {
    match outcome {
        Outcome::Evidence => if done + 1 < n {
            Course::At { run: done + 1, left }
        } else {
            Course::Report
        },
        Outcome::Moved => if left > 0 {
            Course::At { run: 0, left: (left - 1) as nat }
        } else {
            Course::Refused
        },
        Outcome::Refused => Course::Refused,
    }
}

impl Next {
    /// This leads there. A repeat begins at the first run, and takes one from those left.
    pub open spec fn decides(self, course: Course) -> bool {
        match self {
            Next::Run(k) => course matches Course::At { run, .. } && run == k,
            Next::Again => course matches Course::At { run, .. } && run == 0,
            Next::Refused(_) => course is Refused,
            Next::Report => course is Report,
        }
    }
}

/// Where a scenario of `n` runs stands after a sequence of outcomes, with so many repeats at first.
pub open spec fn course(n: int, outcomes: Seq<Outcome>, repeats: nat) -> Course
    decreases outcomes.len(),
{
    if outcomes.len() == 0 {
        Course::At { run: 0, left: repeats }
    } else {
        match course(n, outcomes.drop_last(), repeats) {
            Course::At { run, left } => decided(n, run, outcomes.last(), left),
            ended => ended,
        }
    }
}

/// From `from` on, every run up to `to` is evidence.
pub open spec fn all_evidence(outcomes: Seq<Outcome>, from: int, to: int) -> bool {
    forall|i: int| from <= i < to ==> #[trigger] outcomes[i] is Evidence
}

proof fn lemma_course(n: int, outcomes: Seq<Outcome>, repeats: nat)
    requires
        n > 0,
    ensures
        match course(n, outcomes, repeats) {
            Course::At { run, left } => {
                &&& 0 <= run < n
                &&& run <= outcomes.len()
                &&& left <= repeats
                &&& all_evidence(outcomes, outcomes.len() - run, outcomes.len() as int)
                &&& outcomes.len() <= (repeats - left) * n + run
            },
            Course::Report => exists|to: int|
                n <= to <= outcomes.len() && #[trigger] all_evidence(outcomes, to - n, to),
            Course::Refused => true,
        },
    decreases outcomes.len(),
{
    if outcomes.len() > 0 {
        let init = outcomes.drop_last();
        lemma_course(n, init, repeats);
        match course(n, init, repeats) {
            Course::At { run, left } => {
                assert forall|i: int|
                    init.len() - run <= i < init.len() implies #[trigger] outcomes[i] is Evidence by {
                    assert(init[i] is Evidence);
                }
                match outcomes.last() {
                    Outcome::Evidence => {
                        assert(all_evidence(
                            outcomes,
                            outcomes.len() - (run + 1),
                            outcomes.len() as int,
                        ));
                    },
                    Outcome::Moved => {
                        if left > 0 {
                            let used = repeats - left;
                            assert((used + 1) * n == used * n + n) by (nonlinear_arith);
                            assert(repeats - (left - 1) == used + 1);
                        }
                    },
                    Outcome::Refused => {},
                }
            },
            Course::Report => {
                let to = choose|to: int|
                    n <= to <= init.len() && #[trigger] all_evidence(init, to - n, to);
                assert forall|i: int| to - n <= i < to implies #[trigger] outcomes[i] is Evidence by {
                    assert(init[i] is Evidence);
                }
                assert(all_evidence(outcomes, to - n, to));
            },
            Course::Refused => {},
        }
    }
}

/// A comparison is reported only where every run of the scenario was evidence, one after the other,
/// with no run between them that was not.
pub proof fn a_report_rests_on_every_run(n: int, outcomes: Seq<Outcome>, repeats: nat)
    requires
        n > 0,
        course(n, outcomes, repeats) is Report,
    ensures
        exists|to: int| n <= to <= outcomes.len() && #[trigger] all_evidence(outcomes, to - n, to),
{
    lemma_course(n, outcomes, repeats);
}

/// A scenario comes to an end: it takes no more runs than it has, once and once for each repeat.
pub proof fn a_scenario_ends(n: int, outcomes: Seq<Outcome>, repeats: nat)
    requires
        n > 0,
        outcomes.len() >= (repeats + 1) * n,
    ensures
        !(course(n, outcomes, repeats) is At),
{
    lemma_course(n, outcomes, repeats);
    if let Course::At { run, left } = course(n, outcomes, repeats) {
        assert((repeats - left) * n <= repeats * n) by (nonlinear_arith)
            requires
                0 <= left,
                n > 0,
        ;
        assert((repeats + 1) * n == repeats * n + n) by (nonlinear_arith);
    }
}

/// A run that is refused for another reason than the cluster ends the scenario without a report.
pub proof fn a_refused_run_ends_the_scenario(n: int, outcomes: Seq<Outcome>, repeats: nat)
    requires
        course(n, outcomes, repeats) is At,
    ensures
        course(n, outcomes.push(Outcome::Refused), repeats) is Refused,
{
    assert(outcomes.push(Outcome::Refused).drop_last() =~= outcomes);
}

/// Where every run is evidence, the runs are taken one after the other, and the last of them is
/// followed by the report.
pub proof fn evidence_leads_to_the_report(n: int, outcomes: Seq<Outcome>, repeats: nat)
    requires
        n > 0,
        outcomes.len() <= n,
        all_evidence(outcomes, 0, outcomes.len() as int),
    ensures
        outcomes.len() < n ==> course(n, outcomes, repeats) == (Course::At {
            run: outcomes.len() as int,
            left: repeats,
        }),
        outcomes.len() == n ==> course(n, outcomes, repeats) is Report,
    decreases outcomes.len(),
{
    if outcomes.len() > 0 {
        let init = outcomes.drop_last();
        assert forall|i: int| 0 <= i < init.len() implies #[trigger] init[i] is Evidence by {
            assert(outcomes[i] is Evidence);
        }
        evidence_leads_to_the_report(n, init, repeats);
        assert(outcomes[outcomes.len() - 1] is Evidence);
    }
}

/// Where the cluster moved, the scenario begins anew with one repeat less, or is refused where none
/// is left. What has ended stays ended.
pub proof fn a_moved_cluster_takes_a_repeat(n: int, outcomes: Seq<Outcome>, repeats: nat, more: Outcome)
    ensures
        match course(n, outcomes, repeats) {
            Course::At { left, .. } => {
                let after = course(n, outcomes.push(Outcome::Moved), repeats);
                &&& left > 0 ==> after == (Course::At { run: 0, left: (left - 1) as nat })
                &&& left == 0 ==> after is Refused
            },
            ended => course(n, outcomes.push(more), repeats) == ended,
        },
{
    assert(outcomes.push(Outcome::Moved).drop_last() =~= outcomes);
    assert(outcomes.push(more).drop_last() =~= outcomes);
}

/// A run is judged by its outcome alone: it is evidence where it was not refused, and where it was
/// refused it is the cluster's exactly where only the cluster stands against it.
pub proof fn what_a_run_comes_to(outcome: Result<(), Inadmissible>)
    ensures
        outcome is Ok <==> outcome_of(outcome) is Evidence,
        outcome is Err && outcome->Err_0.cluster_moved <==> outcome_of(outcome) is Moved,
        outcome is Err && !outcome->Err_0.cluster_moved <==> outcome_of(outcome) is Refused,
{
}

/// The position of the last trace of the run with this name.
pub open spec fn last_trace(traces: Seq<Trace>, run: Seq<char>) -> int
    decreases traces.len(),
{
    if traces.len() == 0 {
        -1
    } else if traces.last().run@ == run {
        traces.len() - 1
    } else {
        last_trace(traces.drop_last(), run)
    }
}

/// The last trace of the run with this name.
fn find_trace<'a>(traces: &'a Vec<Trace>, run: &str) -> (r: Option<&'a Trace>)
    ensures
        match r {
            Some(trace) => {
                &&& 0 <= last_trace(traces@, run@) < traces@.len()
                &&& *trace == traces@[last_trace(traces@, run@)]
            },
            None => last_trace(traces@, run@) == -1,
        },
{
    let mut i: usize = traces.len();
    proof {
        assert(traces@.take(i as int) =~= traces@);
    }
    while i > 0
        invariant
            i <= traces@.len(),
            last_trace(traces@, run@) == last_trace(traces@.take(i as int), run@),
        decreases i,
    {
        proof {
            let upto = traces@.take(i as int);
            assert(upto.last() == traces@[i - 1]);
            assert(upto.drop_last() =~= traces@.take(i - 1));
        }
        i = i - 1;
        if text_same(traces[i].run.as_str(), run) {
            return Some(&traces[i]);
        }
    }
    proof {
        assert(traces@.take(0).len() == 0);
    }
    None
}

/// Why two runs cannot be compared.
pub open spec fn no_trace_text(run: Seq<char>) -> Seq<char> {
    "no trace for `"@ + run + "`"@
}

/// Compare the two runs that the scenario names, the first of them as the oracle.
///
/// This says what happened. Whether that was expected is for others to decide.
pub fn compare(scenario: &Scenario, traces: &Vec<Trace>) -> (r: Result<Vec<Divergence>, String>)
    requires
        scenario.compare@.len() >= 2,
        known_paths(texts(scenario.also_compare@)),
    ensures
        ({
            let also = texts(scenario.also_compare@);
            let a = last_trace(traces@, scenario.compare@[0]@);
            let b = last_trace(traces@, scenario.compare@[1]@);
            match r {
                Ok(d) => {
                    &&& 0 <= a < traces@.len()
                    &&& 0 <= b < traces@.len()
                    &&& all_disagreements(
                        projected(traces@[a].steps@, traces@[a].prefix@, also),
                        projected(traces@[b].steps@, traces@[b].prefix@, also),
                        divergence_views(d@),
                    )
                },
                Err(why) => {
                    ||| a == -1 && why@ == no_trace_text(scenario.compare@[0]@)
                    ||| a >= 0 && b == -1 && why@ == no_trace_text(scenario.compare@[1]@)
                },
            }
        }),
{
    let spec: Spec = Spec { also_compare: copy_texts(&scenario.also_compare) };
    let a: &str = scenario.compare[0].as_str();
    let b: &str = scenario.compare[1].as_str();
    let ta: &Trace = match find_trace(traces, a) {
        Some(trace) => trace,
        None => {
            let mut why: String = "no trace for `".to_owned();
            why.append(a);
            why.append("`");
            return Err(why);
        },
    };
    let tb: &Trace = match find_trace(traces, b) {
        Some(trace) => trace,
        None => {
            let mut why: String = "no trace for `".to_owned();
            why.append(b);
            why.append("`");
            return Err(why);
        },
    };
    Ok(diff(&project(ta, &spec), &project(tb, &spec)))
}

/// A text, or nothing.
pub open spec fn text_or_null(text: Option<String>) -> JsonView {
    match text {
        Some(t) => JsonView::Str(t@),
        None => JsonView::Null,
    }
}

/// A divergence in a report.
pub open spec fn divergence_entry(d: Divergence) -> JsonView {
    JsonView::Object(
        seq![
            ("step"@, JsonView::Str(d.step@)),
            ("path"@, JsonView::Str(d.path@)),
            ("oracle"@, JsonView::Str(d.oracle@)),
            ("subject"@, JsonView::Str(d.subject@)),
        ],
    )
}

/// What is reported of a comparison: what was compared, in which world, and where it diverged.
pub open spec fn report_of(
    scenario: Scenario,
    provenance: JsonView,
    d: Seq<Divergence>,
) -> JsonView {
    JsonView::Object(
        seq![
            ("schema"@, JsonView::Str("parity-divergence/v1"@)),
            ("scenario"@, JsonView::Str(scenario.name@)),
            ("gap"@, text_or_null(scenario.gap)),
            ("provenance"@, provenance),
            ("oracle"@, JsonView::Str(scenario.compare@[0]@)),
            ("subject"@, JsonView::Str(scenario.compare@[1]@)),
            (
                "divergences"@,
                JsonView::Array(d.map_values(|x: Divergence| divergence_entry(x))),
            ),
        ],
    )
}

/// A string value.
fn string(text: &str) -> (r: Json)
    ensures
        r@ == JsonView::Str(text@),
{
    Json::Str(text.to_owned())
}

/// A divergence in a report.
fn divergence_json(d: &Divergence) -> (r: Json)
    ensures
        r@ == divergence_entry(*d),
{
    let mut members: Vec<(String, Json)> = Vec::new();
    members.push(("step".to_owned(), string(d.step.as_str())));
    members.push(("path".to_owned(), string(d.path.as_str())));
    members.push(("oracle".to_owned(), string(d.oracle.as_str())));
    members.push(("subject".to_owned(), string(d.subject.as_str())));
    proof {
        assert(member_views(members@) =~= divergence_entry(*d)->Object_0);
    }
    Json::Object(members)
}

/// What is reported of a comparison.
///
/// The report is an artifact in its own right, and carries the world that it was made in.
pub fn divergence_report(scenario: &Scenario, provenance: &Json, d: &Vec<Divergence>) -> (r: Json)
    requires
        scenario.compare@.len() >= 2,
    ensures
        r@ == report_of(*scenario, provenance@, d@),
{
    let mut entries: Vec<Json> = Vec::new();
    let mut i: usize = 0;
    while i < d.len()
        invariant
            i <= d@.len(),
            entries@.len() == i,
            forall|j: int| 0 <= j < i ==> (#[trigger] entries@[j])@ == divergence_entry(d@[j]),
        decreases d@.len() - i,
    {
        entries.push(divergence_json(&d[i]));
        i = i + 1;
    }
    proof {
        assert(json_views(entries@) =~= d@.map_values(|x: Divergence| divergence_entry(x)));
    }
    let divergences: Json = Json::Array(entries);
    let gap: Json = match &scenario.gap {
        Some(gap) => string(gap.as_str()),
        None => Json::Null,
    };
    let mut members: Vec<(String, Json)> = Vec::new();
    members.push(("schema".to_owned(), string("parity-divergence/v1")));
    members.push(("scenario".to_owned(), string(scenario.name.as_str())));
    members.push(("gap".to_owned(), gap));
    members.push(("provenance".to_owned(), provenance.clone()));
    members.push(("oracle".to_owned(), string(scenario.compare[0].as_str())));
    members.push(("subject".to_owned(), string(scenario.compare[1].as_str())));
    members.push(("divergences".to_owned(), divergences));
    proof {
        assert(gap@ == text_or_null(scenario.gap));
        assert(divergences@ == JsonView::Array(
            d@.map_values(|x: Divergence| divergence_entry(x)),
        ));
        assert(member_views(members@) =~= report_of(*scenario, provenance@, d@)->Object_0);
    }
    Json::Object(members)
}

/// The report as it is written down.
pub fn report_text(report: &Json) -> (r: String)
    ensures
        r@ == json_pretty(report@),
{
    print_pretty(report)
}

} // verus!
