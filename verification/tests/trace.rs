use tikv_parity::class::Class;
use tikv_parity::json::Json;
use tikv_parity::observation::Observation;
use tikv_parity::trace::{Step, Trace, TRACE_SCHEMA};

fn trace_with(steps: Vec<Step>) -> Trace {
    Trace {
        schema: TRACE_SCHEMA.to_owned(),
        scenario: "s".to_owned(),
        run: "subject".to_owned(),
        provenance: Json::Null,
        roles: vec![],
        prefix: "p/".to_owned(),
        steps,
    }
}

fn step(id: &str, class: Class) -> Step {
    Step {
        id: id.to_owned(),
        role: "reader".to_owned(),
        op: "get".to_owned(),
        observation: Observation::new(class),
    }
}

#[test]
fn a_clean_trace_is_admissible() {
    let t = trace_with(vec![step("a", Class::Success), step("b", Class::NotFound)]);
    assert!(t.inadmissible().is_empty());
}

#[test]
fn an_unmapped_error_makes_the_whole_trace_inadmissible() {
    let t = trace_with(vec![
        step("a", Class::Success),
        step(
            "b",
            Class::Internal {
                detail: "surprise".to_owned(),
            },
        ),
    ]);
    let bad = t.inadmissible();
    assert_eq!(bad.len(), 1);
    assert!(bad[0].contains("step `b`"), "{:?}", bad);
}

#[test]
fn a_region_error_makes_the_run_evidence_of_nothing() {
    let t = trace_with(vec![step("a", Class::RegionError)]);
    assert_eq!(t.inadmissible().len(), 1);
}

#[test]
fn unsupported_does_not_taint_a_trace() {
    let t = trace_with(vec![step(
        "a",
        Class::Unsupported {
            detail: "no checksum".to_owned(),
        },
    )]);
    assert!(t.inadmissible().is_empty());
}

#[test]
fn every_bad_step_is_named_in_order() {
    let t = trace_with(vec![
        step("a", Class::DriverError { detail: "x".to_owned() }),
        step("b", Class::Success),
        step("c", Class::DriverError { detail: "y".to_owned() }),
    ]);
    assert_eq!(
        t.inadmissible(),
        vec![
            "step `a` (get): the harness itself failed: x".to_owned(),
            "step `c` (get): the harness itself failed: y".to_owned(),
        ]
    );
}

#[test]
fn a_step_is_found_by_its_id() {
    let t = trace_with(vec![
        step("a", Class::Success),
        step("b", Class::NotFound),
        step("b", Class::Deadlock),
    ]);
    assert_eq!(t.step("b").unwrap().observation.class, Class::NotFound);
    assert!(t.step("z").is_none());
    assert_eq!(TRACE_SCHEMA, "parity-trace/v1");
}
