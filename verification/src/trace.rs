//! A trace: what one run of a scenario observed, in order.
//!
//! The trace is the evidence, and evidence is not edited on the way in.

use vstd::prelude::*;
use vstd::string::*;

use crate::class::{
    a_held_harness_leaves_the_cluster, moved_text, refusals_have_reasons, what_can_be_evidence, Class,
    ClassView,
};
use crate::command::Hello;
use crate::json::Json;
use crate::observation::Observation;
use crate::order::{text_same, texts};
use crate::text::{occurs, where_something_occurs};

verus! {

/// The format of a trace.
pub const TRACE_SCHEMA: &'static str = "parity-trace/v1";

/// What one run of a scenario observed.
#[derive(Debug, Clone)]
pub struct Trace {
    pub schema: String,
    /// The scenario that produced this.
    pub scenario: String,
    /// Which binding of roles to clients this run was.
    pub run: String,
    /// The world that the run happened in.
    pub provenance: Json,
    /// Which driver played each role.
    pub roles: Vec<RoleBinding>,
    /// The run's unique key prefix. It is redacted out of the projection.
    pub prefix: String,
    pub steps: Vec<Step>,
}

/// The driver that played a role.
#[derive(Debug, Clone)]
pub struct RoleBinding {
    pub role: String,
    pub driver: String,
    pub hello: Hello,
}

/// One observation.
#[derive(Debug, Clone)]
pub struct Step {
    /// The scenario's step id. Claims bind to ids, not to positions.
    pub id: String,
    pub role: String,
    /// The name of the operation, for the reader.
    pub op: String,
    pub observation: Observation,
}

/// Why a step's observation cannot be evidence, with the step named.
pub open spec fn refusal(step: Step) -> Option<Seq<char>> {
    match step.observation.class@.reason() {
        Some(why) => Some("step `"@ + step.id@ + "` ("@ + step.op@ + "): "@ + why),
        None => None,
    }
}

/// Why the steps' observations cannot be evidence, in order.
pub open spec fn refusals(steps: Seq<Step>) -> Seq<Seq<char>>
    decreases steps.len(),
{
    if steps.len() == 0 {
        Seq::empty()
    } else {
        let before = refusals(steps.drop_last());
        match refusal(steps.last()) {
            Some(why) => before.push(why),
            None => before,
        }
    }
}

/// Every step's observation can be evidence.
pub open spec fn all_admissible(steps: Seq<Step>) -> bool {
    forall|i: int| 0 <= i < steps.len() ==> (#[trigger] steps[i]).observation.class@.admissible()
}

/// A trace has no reason against it exactly when every observation in it can be evidence.
pub proof fn clean_traces_are_admissible(steps: Seq<Step>)
    ensures
        refusals(steps).len() == 0 <==> all_admissible(steps),
    decreases steps.len(),
{
    if steps.len() > 0 {
        let init = steps.drop_last();
        clean_traces_are_admissible(init);
        refusals_have_reasons(steps.last().observation.class@);
        if all_admissible(steps) {
            assert forall|i: int| 0 <= i < init.len() implies (
            #[trigger] init[i]).observation.class@.admissible() by {
                assert(steps[i].observation.class@.admissible());
            }
        }
        if refusals(steps).len() == 0 {
            assert forall|i: int| 0 <= i < steps.len() implies (
            #[trigger] steps[i]).observation.class@.admissible() by {
                if i < init.len() {
                    assert(init[i].observation.class@.admissible());
                }
            }
        }
    }
}

/// The classes that the steps observed.
pub open spec fn step_classes(steps: Seq<Step>) -> Seq<ClassView> {
    steps.map_values(|s: Step| s.observation.class@)
}

/// The cluster moved: something that was observed cannot be evidence, and whatever cannot be is a
/// routing error.
pub open spec fn cluster_moved(classes: Seq<ClassView>) -> bool {
    &&& exists|i: int| 0 <= i < classes.len() && !(#[trigger] classes[i]).admissible()
    &&& forall|i: int| 0 <= i < classes.len() ==> (#[trigger] classes[i]).harness_held()
}

/// Where the cluster moved, every reason against a step is that it did.
pub proof fn a_moved_cluster_is_the_only_reason(steps: Seq<Step>)
    requires
        cluster_moved(step_classes(steps)),
    ensures
        forall|i: int|
            0 <= i < steps.len() && (#[trigger] steps[i]).observation.class@.reason() is Some
                ==> steps[i].observation.class@.reason() == Some(moved_text()),
{
    assert forall|i: int|
        0 <= i < steps.len() && (
        #[trigger] steps[i]).observation.class@.reason() is Some implies steps[i].observation.class@.reason()
        == Some(moved_text()) by {
        assert(step_classes(steps)[i].harness_held());
        a_held_harness_leaves_the_cluster(steps[i].observation.class@);
    }
}

/// A trace is refused step by step: the reasons against two stretches of steps are those against the
/// first and then those against the second.
pub proof fn steps_are_refused_one_by_one(a: Seq<Step>, b: Seq<Step>)
    ensures
        refusals(a + b) == refusals(a) + refusals(b),
    decreases b.len(),
{
    if b.len() == 0 {
        assert(a + b =~= a);
    } else {
        let init = b.drop_last();
        steps_are_refused_one_by_one(a, init);
        assert((a + b).drop_last() =~= a + init);
        assert((a + b).last() == b.last());
    }
    assert(refusals(a + b) =~= refusals(a) + refusals(b));
}

/// Exactly one reason stands against a step that cannot be evidence, and none against another; the
/// reason names the step and its operation, and says why.
pub proof fn a_refusal_names_its_step(step: Step)
    ensures
        step.observation.class@.admissible() ==> refusals(seq![step]).len() == 0,
        !step.observation.class@.admissible() ==> {
            let why = refusals(seq![step]);
            &&& why.len() == 1
            &&& occurs(why[0], step.id@)
            &&& occurs(why[0], step.op@)
            &&& occurs(why[0], step.observation.class@.reason()->0)
        },
{
    refusals_have_reasons(step.observation.class@);
    assert(seq![step].drop_last() =~= Seq::<Step>::empty());
    assert(refusals(Seq::<Step>::empty()) =~= Seq::<Seq<char>>::empty());
    if let Some(why) = step.observation.class@.reason() {
        let text = "step `"@ + step.id@ + "` ("@ + step.op@ + "): "@ + why;
        let behind_id = "` ("@ + step.op@ + "): "@ + why;
        let before_op = "step `"@ + step.id@ + "` ("@;
        let behind_op = "): "@ + why;
        let before_why = "step `"@ + step.id@ + "` ("@ + step.op@ + "): "@;
        where_something_occurs("step `"@, step.id@, behind_id);
        where_something_occurs(before_op, step.op@, behind_op);
        where_something_occurs(before_why, why, Seq::empty());
        assert("step `"@ + step.id@ + behind_id =~= text);
        assert(before_op + step.op@ + behind_op =~= text);
        assert(before_why + why + Seq::<char>::empty() =~= text);
        assert(refusals(seq![step])[0] == text);
    }
}

/// Where no class is a mixture, the cluster moved exactly where there was a routing error and
/// nothing broke.
pub proof fn when_the_cluster_moved(classes: Seq<ClassView>)
    requires
        forall|i: int| 0 <= i < classes.len() ==> (#[trigger] classes[i]) !is Mixed,
    ensures
        cluster_moved(classes) <==> {
            &&& exists|i: int| 0 <= i < classes.len() && #[trigger] classes[i] is RegionError
            &&& forall|i: int|
                0 <= i < classes.len() ==> !(#[trigger] classes[i] is Internal
                    || classes[i] is DriverError)
        },
{
    assert forall|i: int| 0 <= i < classes.len() implies ((#[trigger] classes[i]).admissible()
        <==> !(classes[i] is Internal || classes[i] is DriverError || classes[i] is RegionError))
        && (classes[i].harness_held() <==> !(classes[i] is Internal
        || classes[i] is DriverError)) by {
        what_can_be_evidence(classes[i]);
    }
    if cluster_moved(classes) {
        let i = choose|i: int| 0 <= i < classes.len() && !(#[trigger] classes[i]).admissible();
        assert(classes[i].harness_held());
        assert(classes[i] is RegionError);
        assert forall|j: int| 0 <= j < classes.len() implies !(#[trigger] classes[j] is Internal
            || classes[j] is DriverError) by {
            assert(classes[j].harness_held());
        }
    } else if (exists|i: int| 0 <= i < classes.len() && #[trigger] classes[i] is RegionError) && (
    forall|i: int|
        0 <= i < classes.len() ==> !(#[trigger] classes[i] is Internal || classes[i] is DriverError)) {
        let i = choose|i: int| 0 <= i < classes.len() && #[trigger] classes[i] is RegionError;
        assert(!classes[i].admissible());
        assert forall|j: int| 0 <= j < classes.len() implies (
        #[trigger] classes[j]).harness_held() by {
            assert(!(classes[j] is Internal || classes[j] is DriverError));
        }
    }
}

/// Did the cluster move, and nothing worse happen, in these steps?
pub(crate) fn moved_in(steps: &Vec<Step>) -> (r: bool)
    ensures
        r == cluster_moved(step_classes(steps@)),
{
    let ghost classes = step_classes(steps@);
    let mut moved: bool = false;
    let mut i: usize = 0;
    while i < steps.len()
        invariant
            classes == step_classes(steps@),
            i <= steps@.len(),
            moved == exists|j: int| 0 <= j < i && !(#[trigger] classes[j]).admissible(),
            forall|j: int| 0 <= j < i ==> (#[trigger] classes[j]).harness_held(),
        decreases steps@.len() - i,
    {
        let class: &Class = &steps[i].observation.class;
        assert(classes[i as int] == class@);
        if !class.is_harness_held() {
            assert(!cluster_moved(classes));
            return false;
        }
        if !class.is_admissible() {
            moved = true;
        }
        i = i + 1;
    }
    moved
}

impl Trace {
    /// Every reason why this trace cannot settle a claim.
    ///
    /// A trace with an inadmissible step is not a divergence: it is not evidence at all.
    pub fn inadmissible(&self) -> (r: Vec<String>)
        ensures
            texts(r@) == refusals(self.steps@),
            r@.len() == 0 <==> all_admissible(self.steps@),
    {
        let mut out: Vec<String> = Vec::new();
        let mut i: usize = 0;
        assert(self.steps@.take(0) =~= Seq::<Step>::empty());
        assert(texts(out@) =~= Seq::<Seq<char>>::empty());
        while i < self.steps.len()
            invariant
                i <= self.steps@.len(),
                texts(out@) == refusals(self.steps@.take(i as int)),
            decreases self.steps@.len() - i,
        {
            let step: &Step = &self.steps[i];
            proof {
                let next = self.steps@.take(i + 1);
                assert(next.drop_last() =~= self.steps@.take(i as int));
                assert(next.last() == step);
            }
            match step.observation.class.inadmissible_reason() {
                Some(why) => {
                    let mut line: String = "step `".to_owned();
                    line.append(step.id.as_str());
                    line.append("` (");
                    line.append(step.op.as_str());
                    line.append("): ");
                    line.append(why.as_str());
                    let ghost old_out = out@;
                    out.push(line);
                    assert(texts(out@) =~= texts(old_out).push(line@));
                },
                None => {},
            }
            i = i + 1;
        }
        proof {
            assert(self.steps@.take(i as int) =~= self.steps@);
            assert(texts(out@).len() == out@.len());
            clean_traces_are_admissible(self.steps@);
        }
        out
    }

    /// The first step with this id.
    pub fn step(&self, id: &str) -> (r: Option<&Step>)
        ensures
            match r {
                Some(step) => exists|i: int|
                    {
                        &&& 0 <= i < self.steps@.len()
                        &&& self.steps@[i] == *step
                        &&& step.id@ == id@
                        &&& forall|j: int| 0 <= j < i ==> (#[trigger] self.steps@[j]).id@ != id@
                    },
                None => forall|j: int|
                    0 <= j < self.steps@.len() ==> (#[trigger] self.steps@[j]).id@ != id@,
            },
    {
        let mut i: usize = 0;
        while i < self.steps.len()
            invariant
                i <= self.steps@.len(),
                forall|j: int| 0 <= j < i ==> (#[trigger] self.steps@[j]).id@ != id@,
            decreases self.steps@.len() - i,
        {
            if text_same(self.steps[i].id.as_str(), id) {
                return Some(&self.steps[i]);
            }
            i = i + 1;
        }
        None
    }
}

} // verus!
