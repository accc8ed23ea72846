//! Scenarios: roles, bound to drivers in runs, and the steps that they take.
//!
//! There are no conditionals, loops, variables or expressions in a scenario. What needs control
//! flow is a test, not a scenario.

use vstd::prelude::*;
use vstd::string::*;

use crate::command::{malformed_text, Command, KeyArg, KeyArgView};
use crate::json::{Json, JsonView};
use crate::observation::Observation;
use crate::order::{text_same, texts};
use crate::project::{known_path, known_paths, the_known_paths, unknown_path_text, Spec};
use crate::sorted::SortedMap;
use crate::text::{
    copy_texts, decimal, decimal_text, occurs, starts_with, where_something_occurs,
};

verus! {

/// The format of a scenario.
pub const SCENARIO_SCHEMA: &'static str = "parity-scenario/v1";

/// A scenario.
pub struct Scenario {
    pub schema: String,
    pub name: String,
    /// What this scenario proves, for a human.
    pub doc: String,
    /// The gap that this scenario is evidence for, if any.
    pub gap: Option<String>,
    pub roles: Vec<String>,
    pub runs: Vec<Run>,
    /// The two runs to compare.
    pub compare: Vec<String>,
    /// What the claim compares besides the defaults.
    pub also_compare: Vec<String>,
    pub steps: Vec<Step>,
}

/// One binding of the roles to drivers.
pub struct Run {
    pub name: String,
    /// The driver of each role.
    pub bind: SortedMap<String>,
}

/// One step.
#[derive(Debug)]
pub struct Step {
    /// Claims bind to ids, never to positions.
    pub id: String,
    /// The role that executes this. Absent for what the runner does itself.
    pub role: Option<String>,
    /// The command, verbatim.
    pub cmd: Json,
    /// The command of the protocol that `cmd` decodes to, or why it decodes to none.
    pub command: Result<Command, String>,
    /// What must hold of the setup. Never a parity claim.
    pub expect: Option<Assert>,
    /// Why this step exists.
    pub why: Option<String>,
}

/// What must hold of an observation for the run to be evidence at all.
#[derive(Debug, Clone)]
pub struct Assert {
    /// The exact number of locks.
    pub lock_count: Option<usize>,
    /// The tag of the class.
    pub class: Option<String>,
}

/// How a list of texts prints for a reader: `format!("{:?}", ..)` of its strings.
pub uninterp spec fn debug_list(items: Seq<Seq<char>>) -> Seq<char>;

/// `format!("{:?}", ..)` of a list of strings. What it prints is a function of the strings alone.
#[verifier::external_body]
fn debug_texts(items: &Vec<String>) -> (r: String)
    ensures
        r@ == debug_list(texts(items@)),
{
    format!("{items:?}")
}

/// Why a run whose lock count is not the expected one is no evidence.
pub open spec fn wrong_locks_text(want: nat, got: nat) -> Seq<char> {
    "expected "@ + decimal(want) + " lock(s), observed "@ + decimal(got)
        + ". The scenario's SETUP did not hold, so nothing downstream of it is evidence about either client."@
}

/// Why a run whose class is not the expected one is no evidence.
pub open spec fn wrong_class_text(want: Seq<char>, got: Seq<char>) -> Seq<char> {
    "expected class `"@ + want + "`, observed `"@ + got
        + "`. The scenario's SETUP did not hold, so nothing downstream of it is evidence about either client."@
}

impl Assert {
    /// Why the observation fails the precondition, if it does.
    pub open spec fn failure(self, obs: Observation) -> Option<Seq<char>> {
        if self.lock_count is Some && self.lock_count->0 != obs.locks@.len() {
            Some(wrong_locks_text(self.lock_count->0 as nat, obs.locks@.len()))
        } else if self.class is Some && self.class->0@ != obs.class@.tag() {
            Some(wrong_class_text(self.class->0@, obs.class@.tag()))
        } else {
            None
        }
    }

    /// Why the precondition failed, or nothing if it held.
    pub fn check(&self, obs: &Observation) -> (r: Option<String>)
        ensures
            r is Some <==> self.failure(*obs) is Some,
            r is Some ==> r->0@ == self.failure(*obs)->0,
    {
        if let Some(want) = self.lock_count {
            let got: usize = obs.locks.len();
            if got != want {
                let mut why: String = "expected ".to_owned();
                why.append(decimal_text(want as u128).as_str());
                why.append(" lock(s), observed ");
                why.append(decimal_text(got as u128).as_str());
                why.append(
                    ". The scenario's SETUP did not hold, so nothing downstream of it is evidence about either client.",
                );
                return Some(why);
            }
        }
        if let Some(want) = &self.class {
            let got: &str = obs.class.tag();
            if !text_same(got, want.as_str()) {
                let mut why: String = "expected class `".to_owned();
                why.append(want.as_str());
                why.append("`, observed `");
                why.append(got);
                why.append(
                    "`. The scenario's SETUP did not hold, so nothing downstream of it is evidence about either client.",
                );
                return Some(why);
            }
        }
        None
    }
}

/// The first of the first `n` faults that is one.
pub open spec fn first_fault(fault: spec_fn(int) -> Option<Seq<char>>, n: int) -> Option<Seq<char>>
    decreases n,
{
    if n <= 0 {
        None
    } else {
        match first_fault(fault, n - 1) {
            Some(why) => Some(why),
            None => fault(n - 1),
        }
    }
}

/// A fault stays the first one, however many follow.
proof fn lemma_fault_stays(fault: spec_fn(int) -> Option<Seq<char>>, n: int, m: int)
    requires
        0 <= n <= m,
        first_fault(fault, n) is Some,
    ensures
        first_fault(fault, m) == first_fault(fault, n),
    decreases m,
{
    if n < m {
        lemma_fault_stays(fault, n, m - 1);
    }
}

/// There is no fault among the first `n` exactly when none of them is one.
proof fn lemma_no_fault(fault: spec_fn(int) -> Option<Seq<char>>, n: int)
    ensures
        first_fault(fault, n) is None <==> forall|i: int| 0 <= i < n ==> #[trigger] fault(i) is None,
    decreases n,
{
    if n > 0 {
        lemma_no_fault(fault, n - 1);
        if first_fault(fault, n) is None {
            assert forall|i: int| 0 <= i < n implies #[trigger] fault(i) is None by {
                if i == n - 1 {
                    assert(first_fault(fault, n) == fault(n - 1));
                }
            }
        } else if first_fault(fault, n - 1) is None {
            assert(fault(n - 1) is Some);
        }
    }
}

/// The operation that a command names.
pub open spec fn named_op(cmd: JsonView) -> Option<Seq<char>> {
    match cmd.get("op"@) {
        Some(op) => op.as_str(),
        None => None,
    }
}

/// The step is a wait of the runner's own.
pub open spec fn is_sleep(cmd: JsonView) -> bool {
    named_op(cmd) == Some("sleep"@)
}

/// Is the step a wait of the runner's own?
pub fn sleeps(cmd: &Json) -> (r: bool)
    ensures
        r == is_sleep(cmd@),
{
    match cmd.get("op") {
        Some(op) => match op.as_str() {
            Some(name) => text_same(name, "sleep"),
            None => false,
        },
        None => false,
    }
}

impl Scenario {
    /// The scenario has a run with this name.
    pub open spec fn has_run(self, name: Seq<char>) -> bool {
        exists|i: int| 0 <= i < self.runs@.len() && (#[trigger] self.runs@[i]).name@ == name
    }

    /// The scenario declares this role.
    pub open spec fn has_role(self, role: Seq<char>) -> bool {
        exists|i: int| 0 <= i < self.roles@.len() && (#[trigger] self.roles@[i])@ == role
    }

    /// An earlier step has the id of this one.
    pub open spec fn repeats_id(self, n: int) -> bool {
        exists|i: int| 0 <= i < n && (#[trigger] self.steps@[i]).id@ == self.steps@[n].id@
    }

    /// What is wrong with a name in `compare`.
    pub open spec fn compare_fault(self, n: int) -> Option<Seq<char>> {
        if self.has_run(self.compare@[n]@) {
            None
        } else {
            Some("`compare` names run `"@ + self.compare@[n]@ + "`, which is not defined"@)
        }
    }

    /// What is wrong with a path in `also_compare`.
    pub open spec fn path_fault(self, n: int) -> Option<Seq<char>> {
        if known_path(self.also_compare@[n]@) {
            None
        } else {
            Some(unknown_path_text(self.also_compare@[n]@))
        }
    }

    /// What is wrong with a step.
    pub open spec fn step_fault(self, n: int) -> Option<Seq<char>> {
        let step = self.steps@[n];
        if self.repeats_id(n) {
            Some("duplicate step id `"@ + step.id@ + "`"@)
        } else if step.role is Some && !self.has_role(step.role->0@) {
            Some(
                "step `"@ + step.id@ + "` names role `"@ + step.role->0@
                    + "`, which is not in `roles`"@,
            )
        } else if is_sleep(step.cmd@) {
            None
        } else {
            match step.command {
                Err(why) => Some("step `"@ + step.id@ + "`: bad command: "@ + why@),
                Ok(command) => match first_fault(
                    arg_fault(command@.args()),
                    command@.args().len() as int,
                ) {
                    Some(why) => Some("step `"@ + step.id@ + "`: "@ + why),
                    None => None,
                },
            }
        }
    }

    /// What is wrong with a role of a run.
    pub open spec fn bind_fault(self, run: int, role: int) -> Option<Seq<char>> {
        if self.runs@[run].bind@.contains_key(self.roles@[role]@) {
            None
        } else {
            Some(
                "run `"@ + self.runs@[run].name@ + "` does not bind role `"@ + self.roles@[role]@
                    + "`"@,
            )
        }
    }

    /// What is wrong with a run.
    pub open spec fn run_fault(self, run: int) -> Option<Seq<char>> {
        first_fault(|role: int| self.bind_fault(run, role), self.roles@.len() as int)
    }

    /// What is wrong with the scenario: the first fault that a reader finds.
    pub open spec fn fault(self) -> Option<Seq<char>> {
        let named = first_fault(|n: int| self.compare_fault(n), self.compare@.len() as int);
        let asked = first_fault(|n: int| self.path_fault(n), self.also_compare@.len() as int);
        let stepped = first_fault(|n: int| self.step_fault(n), self.steps@.len() as int);
        let bound = first_fault(|n: int| self.run_fault(n), self.runs@.len() as int);
        if self.schema@ != SCENARIO_SCHEMA@ {
            Some(
                "unknown scenario schema `"@ + self.schema@ + "` (expected `"@ + SCENARIO_SCHEMA@
                    + "`)"@,
            )
        } else if self.compare@.len() != 2 {
            Some(
                "`compare` must name exactly 2 runs, got "@ + debug_list(texts(self.compare@)),
            )
        } else if named is Some {
            named
        } else if asked is Some {
            asked
        } else if stepped is Some {
            stepped
        } else {
            bound
        }
    }

    /// The step says what it does: it is a wait, or its command decodes and each of its
    /// arguments spells a byte string.
    pub open spec fn step_decodes(self, n: int) -> bool {
        is_sleep(self.steps@[n].cmd@) || (self.steps@[n].command matches Ok(command)
            && forall|k: int|
            0 <= k < command@.args().len() ==> (#[trigger] command@.args()[k]).well_formed())
    }

    /// The scenario can be run, and compares something.
    pub open spec fn well_formed(self) -> bool {
        &&& self.schema@ == SCENARIO_SCHEMA@
        &&& self.compare@.len() == 2
        &&& forall|n: int| 0 <= n < 2 ==> self.has_run(#[trigger] self.compare@[n]@)
        &&& known_paths(texts(self.also_compare@))
        &&& forall|i: int, j: int|
            0 <= i < j < self.steps@.len() ==> (#[trigger] self.steps@[i]).id@ != (
            #[trigger] self.steps@[j]).id@
        &&& forall|n: int|
            0 <= n < self.steps@.len() && (#[trigger] self.steps@[n]).role is Some
                ==> self.has_role(self.steps@[n].role->0@)
        &&& forall|n: int| 0 <= n < self.steps@.len() ==> #[trigger] self.step_decodes(n)
        &&& forall|run: int, role: int|
            0 <= run < self.runs@.len() && 0 <= role < self.roles@.len() ==> (
            #[trigger] self.runs@[run]).bind@.contains_key((#[trigger] self.roles@[role])@)
    }
}

/// What is wrong with an argument.
pub open spec fn arg_fault(args: Seq<KeyArgView>) -> spec_fn(int) -> Option<Seq<char>> {
    |k: int|
        if args[k].well_formed() {
            None
        } else {
            Some(malformed_text(args[k]->b64))
        }
}

/// Why the command's arguments are refused, if one of them is.
fn args_error(command: &Command) -> (r: Option<String>)
    ensures
        r is Some <==> first_fault(arg_fault(command@.args()), command@.args().len() as int) is Some,
        r is Some ==> r->0@ == first_fault(
            arg_fault(command@.args()),
            command@.args().len() as int,
        )->0,
{
    let args: Vec<&KeyArg> = command.args();
    let ghost views = command@.args();
    let ghost fault = arg_fault(views);
    assert(args@.len() == args@.map_values(|k: &KeyArg| k@).len());
    let mut i: usize = 0;
    while i < args.len()
        invariant
            args@.map_values(|k: &KeyArg| k@) == views,
            args@.len() == views.len(),
            fault == arg_fault(views),
            i <= args@.len(),
            first_fault(fault, i as int) is None,
            views == command@.args(),
        decreases args@.len() - i,
    {
        let arg: &KeyArg = args[i];
        assert(views[i as int] == args@.map_values(|k: &KeyArg| k@)[i as int]);
        if let Err(why) = arg.validate() {
            proof {
                assert(first_fault(fault, i + 1) == fault(i as int));
                lemma_fault_stays(fault, i + 1, views.len() as int);
            }
            return Some(why);
        }
        i = i + 1;
    }
    None
}

impl Scenario {
    /// Does the scenario have a run with this name?
    fn find_run(&self, name: &str) -> (r: bool)
        ensures
            r == self.has_run(name@),
    {
        let mut i: usize = 0;
        while i < self.runs.len()
            invariant
                i <= self.runs@.len(),
                forall|j: int| 0 <= j < i ==> (#[trigger] self.runs@[j]).name@ != name@,
            decreases self.runs@.len() - i,
        {
            if text_same(self.runs[i].name.as_str(), name) {
                return true;
            }
            i = i + 1;
        }
        false
    }

    /// Does the scenario declare this role?
    pub(crate) fn find_role(&self, role: &str) -> (r: bool)
        ensures
            r == self.has_role(role@),
    {
        let mut i: usize = 0;
        while i < self.roles.len()
            invariant
                i <= self.roles@.len(),
                forall|j: int| 0 <= j < i ==> (#[trigger] self.roles@[j])@ != role@,
            decreases self.roles@.len() - i,
        {
            if text_same(self.roles[i].as_str(), role) {
                return true;
            }
            i = i + 1;
        }
        false
    }

    /// Does an earlier step have the id of this one?
    fn finds_repeated_id(&self, n: usize) -> (r: bool)
        requires
            n < self.steps@.len(),
        ensures
            r == self.repeats_id(n as int),
    {
        let mut i: usize = 0;
        while i < n
            invariant
                i <= n < self.steps@.len(),
                forall|j: int|
                    0 <= j < i ==> (#[trigger] self.steps@[j]).id@ != self.steps@[n as int].id@,
            decreases n - i,
        {
            if text_same(self.steps[i].id.as_str(), self.steps[n].id.as_str()) {
                return true;
            }
            i = i + 1;
        }
        false
    }

    /// What is wrong with a name in `compare`, if anything is.
    fn compare_error(&self) -> (r: Option<String>)
        ensures
            ({
                let fault = first_fault(|n: int| self.compare_fault(n), self.compare@.len() as int);
                &&& r is Some <==> fault is Some
                &&& r is Some ==> r->0@ == fault->0
            }),
    {
        let ghost fault = |n: int| self.compare_fault(n);
        let mut i: usize = 0;
        while i < self.compare.len()
            invariant
                fault == (|n: int| self.compare_fault(n)),
                i <= self.compare@.len(),
                first_fault(fault, i as int) is None,
            decreases self.compare@.len() - i,
        {
            let want: &str = self.compare[i].as_str();
            if !self.find_run(want) {
                let mut why: String = "`compare` names run `".to_owned();
                why.append(want);
                why.append("`, which is not defined");
                proof {
                    assert(first_fault(fault, i + 1) == fault(i as int));
                    lemma_fault_stays(fault, i + 1, self.compare@.len() as int);
                }
                return Some(why);
            }
            i = i + 1;
        }
        None
    }

    /// What is wrong with a path in `also_compare`, if anything is.
    fn path_error(&self) -> (r: Option<String>)
        ensures
            ({
                let fault = first_fault(
                    |n: int| self.path_fault(n),
                    self.also_compare@.len() as int,
                );
                &&& r is Some <==> fault is Some
                &&& r is Some ==> r->0@ == fault->0
            }),
    {
        let spec: Spec = Spec { also_compare: copy_texts(&self.also_compare) };
        let ghost fault = |n: int| self.path_fault(n);
        let ghost len = self.also_compare@.len() as int;
        proof {
            assert(texts(spec.also_compare@).len() == spec.also_compare@.len());
            assert(texts(self.also_compare@).len() == len);
            assert forall|i: int| 0 <= i < len implies #[trigger] spec.also_compare@[i]@
                == self.also_compare@[i]@ by {
                assert(texts(spec.also_compare@)[i] == texts(self.also_compare@)[i]);
            }
        }
        match spec.validate() {
            Ok(()) => {
                proof {
                    assert forall|i: int| 0 <= i < len implies #[trigger] fault(i) is None by {
                        assert(known_path(texts(spec.also_compare@)[i]));
                    }
                    lemma_no_fault(fault, len);
                }
                None
            },
            Err(why) => {
                proof {
                    let i = choose|i: int|
                        {
                            &&& 0 <= i < spec.also_compare@.len()
                            &&& !known_path((#[trigger] spec.also_compare@[i])@)
                            &&& known_paths(texts(spec.also_compare@).take(i))
                            &&& why@ == unknown_path_text(spec.also_compare@[i]@)
                        };
                    assert forall|j: int| 0 <= j < i implies #[trigger] fault(j) is None by {
                        assert(known_path(texts(spec.also_compare@).take(i)[j]));
                    }
                    lemma_no_fault(fault, i);
                    assert(first_fault(fault, i + 1) == fault(i));
                    lemma_fault_stays(fault, i + 1, len);
                }
                Some(why)
            },
        }
    }

    /// What is wrong with a step, if anything is.
    fn step_error(&self, n: usize) -> (r: Option<String>)
        requires
            n < self.steps@.len(),
        ensures
            r is Some <==> self.step_fault(n as int) is Some,
            r is Some ==> r->0@ == self.step_fault(n as int)->0,
    {
        let step: &Step = &self.steps[n];
        if self.finds_repeated_id(n) {
            let mut why: String = "duplicate step id `".to_owned();
            why.append(step.id.as_str());
            why.append("`");
            return Some(why);
        }
        if let Some(role) = &step.role {
            if !self.find_role(role.as_str()) {
                let mut why: String = "step `".to_owned();
                why.append(step.id.as_str());
                why.append("` names role `");
                why.append(role.as_str());
                why.append("`, which is not in `roles`");
                return Some(why);
            }
        }
        if sleeps(&step.cmd) {
            return None;
        }
        match &step.command {
            Err(bad) => {
                let mut why: String = "step `".to_owned();
                why.append(step.id.as_str());
                why.append("`: bad command: ");
                why.append(bad.as_str());
                Some(why)
            },
            Ok(command) => match args_error(command) {
                Some(bad) => {
                    let mut why: String = "step `".to_owned();
                    why.append(step.id.as_str());
                    why.append("`: ");
                    why.append(bad.as_str());
                    Some(why)
                },
                None => None,
            },
        }
    }

    /// What is wrong with the steps, if anything is.
    fn steps_error(&self) -> (r: Option<String>)
        ensures
            ({
                let fault = first_fault(|n: int| self.step_fault(n), self.steps@.len() as int);
                &&& r is Some <==> fault is Some
                &&& r is Some ==> r->0@ == fault->0
            }),
    {
        let ghost fault = |n: int| self.step_fault(n);
        let mut i: usize = 0;
        while i < self.steps.len()
            invariant
                fault == (|n: int| self.step_fault(n)),
                i <= self.steps@.len(),
                first_fault(fault, i as int) is None,
            decreases self.steps@.len() - i,
        {
            let found: Option<String> = self.step_error(i);
            proof {
                assert(first_fault(fault, i + 1) == fault(i as int));
            }
            if found.is_some() {
                proof {
                    lemma_fault_stays(fault, i + 1, self.steps@.len() as int);
                }
                return found;
            }
            i = i + 1;
        }
        None
    }

    /// What is wrong with a run, if anything is.
    fn run_error(&self, run: usize) -> (r: Option<String>)
        requires
            run < self.runs@.len(),
        ensures
            r is Some <==> self.run_fault(run as int) is Some,
            r is Some ==> r->0@ == self.run_fault(run as int)->0,
    {
        let ghost fault = |role: int| self.bind_fault(run as int, role);
        let mut i: usize = 0;
        while i < self.roles.len()
            invariant
                run < self.runs@.len(),
                fault == (|role: int| self.bind_fault(run as int, role)),
                i <= self.roles@.len(),
                first_fault(fault, i as int) is None,
            decreases self.roles@.len() - i,
        {
            let role: &str = self.roles[i].as_str();
            if self.runs[run].bind.get(role).is_none() {
                let mut why: String = "run `".to_owned();
                why.append(self.runs[run].name.as_str());
                why.append("` does not bind role `");
                why.append(role);
                why.append("`");
                proof {
                    assert(first_fault(fault, i + 1) == fault(i as int));
                    lemma_fault_stays(fault, i + 1, self.roles@.len() as int);
                }
                return Some(why);
            }
            i = i + 1;
        }
        None
    }

    /// What is wrong with the runs, if anything is.
    fn runs_error(&self) -> (r: Option<String>)
        ensures
            ({
                let fault = first_fault(|n: int| self.run_fault(n), self.runs@.len() as int);
                &&& r is Some <==> fault is Some
                &&& r is Some ==> r->0@ == fault->0
            }),
    {
        let ghost fault = |n: int| self.run_fault(n);
        let mut i: usize = 0;
        while i < self.runs.len()
            invariant
                fault == (|n: int| self.run_fault(n)),
                i <= self.runs@.len(),
                first_fault(fault, i as int) is None,
            decreases self.runs@.len() - i,
        {
            let found: Option<String> = self.run_error(i);
            proof {
                assert(first_fault(fault, i + 1) == fault(i as int));
            }
            if found.is_some() {
                proof {
                    lemma_fault_stays(fault, i + 1, self.runs@.len() as int);
                }
                return found;
            }
            i = i + 1;
        }
        None
    }

    /// Catch the mistakes that would otherwise become a mysterious failure of a run or, far worse,
    /// a vacuous pass.
    pub fn validate(&self) -> (r: Result<(), String>)
        ensures
            r is Ok <==> self.well_formed(),
            r is Ok <==> self.fault() is None,
            r is Err ==> r->Err_0@ == self.fault()->0,
    {
        proof {
            a_scenario_without_fault_is_well_formed(*self);
        }
        if !text_same(self.schema.as_str(), SCENARIO_SCHEMA) {
            let mut why: String = "unknown scenario schema `".to_owned();
            why.append(self.schema.as_str());
            why.append("` (expected `");
            why.append(SCENARIO_SCHEMA);
            why.append("`)");
            return Err(why);
        }
        if self.compare.len() != 2 {
            let mut why: String = "`compare` must name exactly 2 runs, got ".to_owned();
            why.append(debug_texts(&self.compare).as_str());
            return Err(why);
        }
        if let Some(why) = self.compare_error() {
            return Err(why);
        }
        if let Some(why) = self.path_error() {
            return Err(why);
        }
        if let Some(why) = self.steps_error() {
            return Err(why);
        }
        if let Some(why) = self.runs_error() {
            return Err(why);
        }
        Ok(())
    }
}

/// The first fault is the first: it is one of the faults, and none stands before it.
pub proof fn the_first_fault_is_the_first(fault: spec_fn(int) -> Option<Seq<char>>, n: int)
    requires
        0 <= n,
    ensures
        match first_fault(fault, n) {
            None => forall|i: int| 0 <= i < n ==> #[trigger] fault(i) is None,
            Some(why) => exists|i: int|
                0 <= i < n && #[trigger] fault(i) == Some(why) && forall|j: int|
                    0 <= j < i ==> #[trigger] fault(j) is None,
        },
    decreases n,
{
    lemma_no_fault(fault, n);
    if n > 0 && first_fault(fault, n) is Some {
        if first_fault(fault, n - 1) is Some {
            the_first_fault_is_the_first(fault, n - 1);
            let why = first_fault(fault, n)->0;
            let i = choose|i: int|
                0 <= i < n - 1 && #[trigger] fault(i) == Some(why) && forall|j: int|
                    0 <= j < i ==> #[trigger] fault(j) is None;
            assert(fault(i) == Some(why));
        } else {
            lemma_no_fault(fault, n - 1);
            assert(fault(n - 1) == first_fault(fault, n));
        }
    }
}

/// A precondition fails exactly where the number of locks or the tag of the class is not the one
/// that it names, and the number is looked at first.
pub proof fn when_a_precondition_fails(expect: Assert, obs: Observation)
    ensures
        expect.failure(obs) is None <==> {
            &&& expect.lock_count is Some ==> expect.lock_count->0 == obs.locks@.len()
            &&& expect.class is Some ==> expect.class->0@ == obs.class@.tag()
        },
        expect.lock_count is Some && expect.lock_count->0 != obs.locks@.len() ==> {
            let why = expect.failure(obs)->0;
            &&& starts_with(why, "expected "@ + decimal(expect.lock_count->0 as nat))
            &&& occurs(why, decimal(obs.locks@.len()))
        },
        expect.lock_count is None && expect.class is Some && expect.class->0@ != obs.class@.tag()
            ==> {
            let why = expect.failure(obs)->0;
            &&& starts_with(why, "expected class `"@ + expect.class->0@)
            &&& occurs(why, obs.class@.tag())
        },
{
    let end = ". The scenario's SETUP did not hold, so nothing downstream of it is evidence about either client."@;
    let close = "`. The scenario's SETUP did not hold, so nothing downstream of it is evidence about either client."@;
    if expect.lock_count is Some {
        where_something_occurs(
            "expected "@ + decimal(expect.lock_count->0 as nat) + " lock(s), observed "@,
            decimal(obs.locks@.len()),
            end,
        );
    }
    if expect.class is Some {
        where_something_occurs(
            "expected class `"@ + expect.class->0@ + "`, observed `"@,
            obs.class@.tag(),
            close,
        );
    }
}

/// Which scenarios can be run: those of this format that compare two runs that they define, ask only
/// for paths that a comparison knows, take steps with different ids in roles that they declare,
/// whose commands decode and carry nothing malformed unless they are waits, and bind every role in
/// every run.
pub proof fn which_scenarios_can_be_run(s: Scenario)
    ensures
        s.fault() is None <==> {
            &&& s.schema@ == "parity-scenario/v1"@
            &&& s.compare@.len() == 2
            &&& forall|n: int|
                0 <= n < s.compare@.len() ==> exists|i: int|
                    0 <= i < s.runs@.len() && (#[trigger] s.runs@[i]).name@ == (
                    #[trigger] s.compare@[n])@
            &&& forall|n: int|
                0 <= n < s.also_compare@.len() ==> {
                    let path = (#[trigger] s.also_compare@[n])@;
                    path == "native.type"@ || path == "proto"@ || path == "errors.count"@
                }
            &&& forall|i: int, j: int|
                0 <= i < j < s.steps@.len() ==> (#[trigger] s.steps@[i]).id@ != (
                #[trigger] s.steps@[j]).id@
            &&& forall|n: int|
                0 <= n < s.steps@.len() && (#[trigger] s.steps@[n]).role is Some ==> exists|i: int|
                    0 <= i < s.roles@.len() && (#[trigger] s.roles@[i])@ == s.steps@[n].role->0@
            &&& forall|n: int|
                0 <= n < s.steps@.len() ==> {
                    ||| (#[trigger] s.steps@[n]).cmd@.get("op"@) == Some(JsonView::Str("sleep"@))
                    ||| s.steps@[n].command is Ok && forall|k: int|
                        0 <= k < s.steps@[n].command->Ok_0@.args().len() ==> (
                        #[trigger] s.steps@[n].command->Ok_0@.args()[k]).well_formed()
                }
            &&& forall|i: int, k: int|
                0 <= i < s.runs@.len() && 0 <= k < s.roles@.len() ==> (
                #[trigger] s.runs@[i]).bind@.contains_key((#[trigger] s.roles@[k])@)
        },
{
    a_scenario_without_fault_is_well_formed(s);
    assert forall|n: int| 0 <= n < s.steps@.len() implies (#[trigger] s.step_decodes(n) <==> {
        ||| s.steps@[n].cmd@.get("op"@) == Some(JsonView::Str("sleep"@))
        ||| s.steps@[n].command is Ok && forall|k: int|
            0 <= k < s.steps@[n].command->Ok_0@.args().len() ==> (
            #[trigger] s.steps@[n].command->Ok_0@.args()[k]).well_formed()
    }) by {
        if s.steps@[n].command is Ok {
            let command = s.steps@[n].command->Ok_0;
            if s.step_decodes(n) && !is_sleep(s.steps@[n].cmd@) {
                assert forall|k: int|
                    0 <= k < s.steps@[n].command->Ok_0@.args().len() implies (
                #[trigger] s.steps@[n].command->Ok_0@.args()[k]).well_formed() by {
                    assert(command@.args()[k].well_formed());
                }
            }
        }
    }
    assert forall|n: int| 0 <= n < s.also_compare@.len() implies (known_path(
        #[trigger] s.also_compare@[n]@,
    ) <==> {
        let path = s.also_compare@[n]@;
        path == "native.type"@ || path == "proto"@ || path == "errors.count"@
    }) by {
        the_known_paths(s.also_compare@[n]@);
    }
    if s.well_formed() {
        assert forall|n: int| 0 <= n < s.compare@.len() implies exists|i: int|
            0 <= i < s.runs@.len() && (#[trigger] s.runs@[i]).name@ == (
            #[trigger] s.compare@[n])@ by {
            assert(s.has_run(s.compare@[n]@));
        }
        assert forall|n: int| 0 <= n < s.also_compare@.len() implies {
            let path = (#[trigger] s.also_compare@[n])@;
            path == "native.type"@ || path == "proto"@ || path == "errors.count"@
        } by {
            assert(known_path(texts(s.also_compare@)[n]));
        }
        assert forall|n: int| 0 <= n < s.steps@.len() implies {
            ||| (#[trigger] s.steps@[n]).cmd@.get("op"@) == Some(JsonView::Str("sleep"@))
            ||| s.steps@[n].command is Ok && forall|k: int|
                0 <= k < s.steps@[n].command->Ok_0@.args().len() ==> (
                #[trigger] s.steps@[n].command->Ok_0@.args()[k]).well_formed()
        } by {
            assert(s.step_decodes(n));
        }
    }
}

/// The fault of a step names the step, that of a name in the comparison the name, that of a path the
/// path, and that of a run the run and the role that it does not bind.
pub proof fn a_fault_names_what_is_wrong(s: Scenario, n: int, run: int, role: int)
    ensures
        s.step_fault(n) is Some ==> occurs(s.step_fault(n)->0, s.steps@[n].id@),
        s.step_fault(n) is Some && !s.repeats_id(n) && s.steps@[n].role is Some && !s.has_role(
            s.steps@[n].role->0@,
        ) ==> occurs(s.step_fault(n)->0, s.steps@[n].role->0@),
        s.step_fault(n) is Some && !s.repeats_id(n) && (s.steps@[n].role is Some ==> s.has_role(
            s.steps@[n].role->0@,
        )) ==> match s.steps@[n].command {
            Err(why) => occurs(s.step_fault(n)->0, why@),
            Ok(command) => exists|k: int|
                {
                    &&& 0 <= k < command@.args().len()
                    &&& !(#[trigger] command@.args()[k]).well_formed()
                    &&& occurs(s.step_fault(n)->0, malformed_text(command@.args()[k]->b64))
                },
        },
        s.compare_fault(n) is Some ==> occurs(s.compare_fault(n)->0, s.compare@[n]@),
        s.path_fault(n) is Some ==> occurs(s.path_fault(n)->0, s.also_compare@[n]@),
        s.bind_fault(run, role) is Some ==> occurs(
            s.bind_fault(run, role)->0,
            s.runs@[run].name@,
        ) && occurs(s.bind_fault(run, role)->0, s.roles@[role]@),
{
    let step = s.steps@[n];
    if let Some(why) = s.step_fault(n) {
        if s.repeats_id(n) {
            where_something_occurs("duplicate step id `"@, step.id@, "`"@);
        } else {
            let tail = why.skip(("step `"@ + step.id@).len() as int);
            where_something_occurs("step `"@, step.id@, tail);
            assert(why =~= "step `"@ + step.id@ + tail);
            if step.role is Some && !s.has_role(step.role->0@) {
                where_something_occurs(
                    "step `"@ + step.id@ + "` names role `"@,
                    step.role->0@,
                    "`, which is not in `roles`"@,
                );
            } else {
                lemma_command_fault_named(s, n);
            }
        }
    }
    where_something_occurs("`compare` names run `"@, s.compare@[n]@, "`, which is not defined"@);
    where_something_occurs(
        "`also_compare` names `"@,
        s.also_compare@[n]@,
        "`, which is not a projection path. Known paths: native.type, proto, errors.count. An unknown path would compare NOTHING while looking like it compared something."@,
    );
    let name = s.runs@[run].name@;
    let bound = s.roles@[role]@;
    let said = "` does not bind role `"@;
    let text = "run `"@ + name + said + bound + "`"@;
    where_something_occurs("run `"@, name, said + bound + "`"@);
    assert("run `"@ + name + (said + bound + "`"@) =~= text);
    where_something_occurs("run `"@ + name + said, bound, "`"@);
}

proof fn lemma_command_fault_named(s: Scenario, n: int)
    requires
        s.step_fault(n) is Some,
        !s.repeats_id(n),
        s.steps@[n].role is Some ==> s.has_role(s.steps@[n].role->0@),
    ensures
        match s.steps@[n].command {
            Err(why) => occurs(s.step_fault(n)->0, why@),
            Ok(command) => exists|k: int|
                {
                    &&& 0 <= k < command@.args().len()
                    &&& !(#[trigger] command@.args()[k]).well_formed()
                    &&& occurs(s.step_fault(n)->0, malformed_text(command@.args()[k]->b64))
                },
        },
{
    let step = s.steps@[n];
    match step.command {
        Err(why) => {
            let head = "step `"@ + step.id@ + "`: bad command: "@;
            where_something_occurs(head, why@, Seq::empty());
            assert(head + why@ + Seq::<char>::empty() =~= head + why@);
        },
        Ok(command) => {
            let args = command@.args();
            let fault = arg_fault(args);
            let len = args.len() as int;
            the_first_fault_is_the_first(fault, len);
            let why = first_fault(fault, len)->0;
            let k = choose|k: int|
                0 <= k < len && #[trigger] fault(k) == Some(why) && forall|j: int|
                    0 <= j < k ==> #[trigger] fault(j) is None;
            assert(!args[k].well_formed());
            let head = "step `"@ + step.id@ + "`: "@;
            where_something_occurs(head, why, Seq::empty());
            assert(head + why + Seq::<char>::empty() =~= head + why);
        },
    }
}

/// Faults are found in this order: the format, the number of runs to compare, their names, the paths
/// that are asked for, the steps, and the bindings of the runs; and of each, the first one.
pub proof fn faults_are_found_in_order(s: Scenario)
    requires
        s.fault() is Some,
    ensures
        ({
            let named = forall|n: int|
                0 <= n < s.compare@.len() ==> #[trigger] s.compare_fault(n) is None;
            let asked = forall|n: int|
                0 <= n < s.also_compare@.len() ==> #[trigger] s.path_fault(n) is None;
            let stepped = forall|n: int|
                0 <= n < s.steps@.len() ==> #[trigger] s.step_fault(n) is None;
            if s.schema@ != SCENARIO_SCHEMA@ {
                occurs(s.fault()->0, s.schema@)
            } else if s.compare@.len() != 2 {
                occurs(s.fault()->0, debug_list(texts(s.compare@)))
            } else if !named {
                exists|n: int|
                    0 <= n < s.compare@.len() && #[trigger] s.compare_fault(n) == s.fault()
                        && forall|j: int| 0 <= j < n ==> #[trigger] s.compare_fault(j) is None
            } else if !asked {
                exists|n: int|
                    0 <= n < s.also_compare@.len() && #[trigger] s.path_fault(n) == s.fault()
                        && forall|j: int| 0 <= j < n ==> #[trigger] s.path_fault(j) is None
            } else if !stepped {
                exists|n: int|
                    0 <= n < s.steps@.len() && #[trigger] s.step_fault(n) == s.fault()
                        && forall|j: int| 0 <= j < n ==> #[trigger] s.step_fault(j) is None
            } else {
                exists|run: int, role: int|
                    0 <= run < s.runs@.len() && 0 <= role < s.roles@.len()
                        && #[trigger] s.bind_fault(run, role) == s.fault()
            }
        }),
{
    let named = |n: int| s.compare_fault(n);
    let asked = |n: int| s.path_fault(n);
    let stepped = |n: int| s.step_fault(n);
    let bound = |n: int| s.run_fault(n);
    the_first_fault_is_the_first(named, s.compare@.len() as int);
    the_first_fault_is_the_first(asked, s.also_compare@.len() as int);
    the_first_fault_is_the_first(stepped, s.steps@.len() as int);
    the_first_fault_is_the_first(bound, s.runs@.len() as int);
    assert forall|n: int| #[trigger] s.compare_fault(n) == named(n) by {}
    assert forall|n: int| #[trigger] s.path_fault(n) == asked(n) by {}
    assert forall|n: int| #[trigger] s.step_fault(n) == stepped(n) by {}
    if s.schema@ != SCENARIO_SCHEMA@ {
        let behind = "` (expected `"@ + SCENARIO_SCHEMA@ + "`)"@;
        where_something_occurs("unknown scenario schema `"@, s.schema@, behind);
        assert("unknown scenario schema `"@ + s.schema@ + behind =~= s.fault()->0);
    } else if s.compare@.len() != 2 {
        let head = "`compare` must name exactly 2 runs, got "@;
        let list = debug_list(texts(s.compare@));
        where_something_occurs(head, list, Seq::empty());
        assert(head + list + Seq::<char>::empty() =~= head + list);
    } else if first_fault(named, s.compare@.len() as int) is Some {
        let n = choose|n: int|
            0 <= n < s.compare@.len() && #[trigger] named(n) == s.fault() && forall|j: int|
                0 <= j < n ==> #[trigger] named(j) is None;
        assert(s.compare_fault(n) == s.fault());
    } else if first_fault(asked, s.also_compare@.len() as int) is Some {
        let n = choose|n: int|
            0 <= n < s.also_compare@.len() && #[trigger] asked(n) == s.fault() && forall|j: int|
                0 <= j < n ==> #[trigger] asked(j) is None;
        assert(s.path_fault(n) == s.fault());
    } else if first_fault(stepped, s.steps@.len() as int) is Some {
        let n = choose|n: int|
            0 <= n < s.steps@.len() && #[trigger] stepped(n) == s.fault() && forall|j: int|
                0 <= j < n ==> #[trigger] stepped(j) is None;
        assert(s.step_fault(n) == s.fault());
    } else {
        let run = choose|run: int|
            0 <= run < s.runs@.len() && #[trigger] bound(run) == s.fault() && forall|j: int|
                0 <= j < run ==> #[trigger] bound(j) is None;
        let roles = |role: int| s.bind_fault(run, role);
        the_first_fault_is_the_first(roles, s.roles@.len() as int);
        let role = choose|role: int|
            0 <= role < s.roles@.len() && #[trigger] roles(role) == s.fault() && forall|j: int|
                0 <= j < role ==> #[trigger] roles(j) is None;
        assert(s.bind_fault(run, role) == s.fault());
    }
}

/// A scenario is refused exactly when it is not well formed.
pub proof fn a_scenario_without_fault_is_well_formed(s: Scenario)
    ensures
        s.fault() is None <==> s.well_formed(),
{
    let named = |n: int| s.compare_fault(n);
    let asked = |n: int| s.path_fault(n);
    let stepped = |n: int| s.step_fault(n);
    let bound = |n: int| s.run_fault(n);
    lemma_no_fault(named, s.compare@.len() as int);
    lemma_no_fault(asked, s.also_compare@.len() as int);
    lemma_no_fault(stepped, s.steps@.len() as int);
    lemma_no_fault(bound, s.runs@.len() as int);
    assert forall|n: int| 0 <= n < s.steps@.len() implies (#[trigger] s.step_fault(n) is None <==> {
        &&& !s.repeats_id(n)
        &&& s.steps@[n].role is Some ==> s.has_role(s.steps@[n].role->0@)
        &&& s.step_decodes(n)
    }) by {
        lemma_step_fault(s, n);
    }
    assert forall|run: int| 0 <= run < s.runs@.len() implies (#[trigger] s.run_fault(run) is None
        <==> forall|role: int|
        0 <= role < s.roles@.len() ==> s.runs@[run].bind@.contains_key(
            (#[trigger] s.roles@[role])@,
        )) by {
        let fault = |role: int| s.bind_fault(run, role);
        lemma_no_fault(fault, s.roles@.len() as int);
        if s.run_fault(run) is None {
            assert forall|role: int| 0 <= role < s.roles@.len() implies s.runs@[run].bind@.contains_key(
                (#[trigger] s.roles@[role])@,
            ) by {
                assert(fault(role) is None);
            }
        } else {
            let role = choose|role: int|
                0 <= role < s.roles@.len() && !(#[trigger] fault(role) is None);
            assert(!s.runs@[run].bind@.contains_key(s.roles@[role]@));
        }
    }
    if s.fault() is None {
        assert forall|n: int| 0 <= n < 2 implies s.has_run(#[trigger] s.compare@[n]@) by {
            assert(named(n) is None);
        }
        assert forall|n: int| 0 <= n < s.also_compare@.len() implies known_path(
            #[trigger] texts(s.also_compare@)[n],
        ) by {
            assert(asked(n) is None);
        }
        assert forall|i: int, j: int| 0 <= i < j < s.steps@.len() implies (
        #[trigger] s.steps@[i]).id@ != (#[trigger] s.steps@[j]).id@ by {
            assert(stepped(j) is None);
            assert(!s.repeats_id(j));
        }
        assert forall|n: int|
            0 <= n < s.steps@.len() && (#[trigger] s.steps@[n]).role is Some implies s.has_role(
            s.steps@[n].role->0@,
        ) by {
            assert(stepped(n) is None);
        }
        assert forall|n: int| 0 <= n < s.steps@.len() implies #[trigger] s.step_decodes(n) by {
            assert(stepped(n) is None);
        }
        assert forall|run: int, role: int|
            0 <= run < s.runs@.len() && 0 <= role < s.roles@.len() implies (
        #[trigger] s.runs@[run]).bind@.contains_key((#[trigger] s.roles@[role])@) by {
            assert(bound(run) is None);
        }
    }
    if s.well_formed() {
        assert forall|n: int| 0 <= n < s.compare@.len() implies #[trigger] named(n) is None by {
            assert(s.has_run(s.compare@[n]@));
        }
        assert forall|n: int| 0 <= n < s.also_compare@.len() implies #[trigger] asked(
            n,
        ) is None by {
            assert(known_path(texts(s.also_compare@)[n]));
        }
        assert forall|n: int| 0 <= n < s.steps@.len() implies #[trigger] stepped(n) is None by {
            if s.repeats_id(n) {
                let i = choose|i: int| 0 <= i < n && (#[trigger] s.steps@[i]).id@ == s.steps@[n].id@;
                assert(s.steps@[i].id@ != s.steps@[n].id@);
            }
            assert(s.step_decodes(n));
            assert(s.step_fault(n) is None);
        }
        assert forall|run: int| 0 <= run < s.runs@.len() implies #[trigger] bound(run) is None by {
            assert(s.run_fault(run) is None);
        }
    }
}

proof fn lemma_step_fault(s: Scenario, n: int)
    requires
        0 <= n < s.steps@.len(),
    ensures
        s.step_fault(n) is None <==> {
            &&& !s.repeats_id(n)
            &&& s.steps@[n].role is Some ==> s.has_role(s.steps@[n].role->0@)
            &&& s.step_decodes(n)
        },
{
    let step = s.steps@[n];
    if let Ok(command) = step.command {
        let args = command@.args();
        let fault = arg_fault(args);
        lemma_no_fault(fault, args.len() as int);
        if first_fault(fault, args.len() as int) is None {
            assert forall|k: int| 0 <= k < args.len() implies (
            #[trigger] args[k]).well_formed() by {
                assert(fault(k) is None);
            }
        } else {
            let k = choose|k: int| 0 <= k < args.len() && !(#[trigger] fault(k) is None);
            assert(!args[k].well_formed());
        }
    }
}

} // verus!
