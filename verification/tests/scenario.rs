use tikv_parity::base64::b64_encode;
use tikv_parity::class::Class;
use tikv_parity::command::{Command, KeyArg};
use tikv_parity::json::{object_of, Json};
use tikv_parity::observation::Observation;
use tikv_parity::scenario::{sleeps, Assert, Run, Scenario, Step, SCENARIO_SCHEMA};
use tikv_parity::sorted::SortedMap;

fn op(name: &str) -> Json {
    object_of("op", Json::Str(name.to_owned()))
}

fn hello_step(id: &str, role: &str) -> Step {
    Step {
        id: id.to_owned(),
        role: Some(role.to_owned()),
        cmd: op("hello"),
        command: Ok(Command::Hello),
        expect: None,
        why: None,
    }
}

fn run(name: &str, bind: &[(&str, &str)]) -> Run {
    let mut map = SortedMap::new();
    for (role, driver) in bind {
        map.insert((*role).to_owned(), (*driver).to_owned());
    }
    Run { name: name.to_owned(), bind: map }
}

fn runs() -> Vec<Run> {
    vec![run("oracle", &[("r", "go")]), run("subject", &[("r", "rust")])]
}

fn scenario(compare: &[&str], roles: &[&str], steps: Vec<Step>, runs: Vec<Run>) -> Scenario {
    let own = |names: &[&str]| names.iter().map(|n| (*n).to_owned()).collect();
    Scenario {
        schema: "parity-scenario/v1".to_owned(),
        name: "n".to_owned(),
        doc: "d".to_owned(),
        gap: None,
        roles: own(roles),
        runs,
        compare: own(compare),
        also_compare: vec![],
        steps,
    }
}

fn both() -> [&'static str; 2] {
    ["oracle", "subject"]
}

#[test]
fn a_valid_scenario_parses() {
    let s = scenario(&both(), &["r"], vec![hello_step("a", "r")], runs());
    assert!(s.validate().is_ok());
}

#[test]
fn a_step_naming_an_undeclared_role_is_rejected() {
    let s = scenario(&both(), &["r"], vec![hello_step("a", "ghost")], runs());
    assert!(s.validate().unwrap_err().contains("ghost"));
}

#[test]
fn a_run_that_does_not_bind_every_role_is_rejected() {
    let runs = vec![run("oracle", &[]), run("subject", &[("r", "rust")])];
    let s = scenario(&both(), &["r"], vec![hello_step("a", "r")], runs);
    assert!(s.validate().unwrap_err().contains("does not bind role"));
}

#[test]
fn duplicate_step_ids_are_rejected() {
    let s = scenario(
        &both(),
        &["r"],
        vec![hello_step("a", "r"), hello_step("a", "r")],
        runs(),
    );
    assert!(s.validate().unwrap_err().contains("duplicate step id"));
}

#[test]
fn a_failed_lock_count_assert_explains_that_the_setup_did_not_hold() {
    let a = Assert {
        lock_count: Some(1),
        class: None,
    };
    let obs = Observation::ok(); // zero locks
    let why = a.check(&obs).expect("must fail");
    assert!(why.contains("expected 1 lock"));
    assert!(why.contains("SETUP did not hold"));
}

#[test]
fn the_precondition_messages_in_full() {
    let a = Assert { lock_count: Some(1), class: None };
    assert_eq!(
        a.check(&Observation::ok()).unwrap(),
        "expected 1 lock(s), observed 0. The scenario's SETUP did not hold, so nothing downstream \
         of it is evidence about either client."
    );
    let b = Assert { lock_count: Some(0), class: Some("not_found".to_owned()) };
    assert_eq!(
        b.check(&Observation::ok()).unwrap(),
        "expected class `not_found`, observed `ok`. The scenario's SETUP did not hold, so nothing \
         downstream of it is evidence about either client."
    );
    assert!(b.check(&Observation::new(Class::NotFound)).is_none());
    let none = Assert { lock_count: None, class: None };
    assert!(none.check(&Observation::ok()).is_none());
}

#[test]
fn every_fault_is_named() {
    let fine = || vec![hello_step("a", "r")];

    let mut s = scenario(&both(), &["r"], fine(), runs());
    s.schema = "v0".to_owned();
    assert_eq!(
        s.validate().unwrap_err(),
        "unknown scenario schema `v0` (expected `parity-scenario/v1`)"
    );

    let s = scenario(&["oracle"], &["r"], fine(), runs());
    assert_eq!(
        s.validate().unwrap_err(),
        "`compare` must name exactly 2 runs, got [\"oracle\"]"
    );

    let s = scenario(&["oracle", "nobody"], &["r"], fine(), runs());
    assert_eq!(
        s.validate().unwrap_err(),
        "`compare` names run `nobody`, which is not defined"
    );

    let mut s = scenario(&both(), &["r"], fine(), runs());
    s.also_compare = vec!["proto".to_owned(), "native.typo".to_owned()];
    assert!(s
        .validate()
        .unwrap_err()
        .starts_with("`also_compare` names `native.typo`, which is not a projection path."));

    let s = scenario(&both(), &["r"], vec![hello_step("a", "r"), hello_step("a", "r")], runs());
    assert_eq!(s.validate().unwrap_err(), "duplicate step id `a`");

    let s = scenario(&both(), &["r"], vec![hello_step("a", "ghost")], runs());
    assert_eq!(
        s.validate().unwrap_err(),
        "step `a` names role `ghost`, which is not in `roles`"
    );

    let mut bad = hello_step("a", "r");
    bad.cmd = op("fly");
    bad.command = Err("unknown variant `fly`".to_owned());
    let s = scenario(&both(), &["r"], vec![bad], runs());
    assert_eq!(
        s.validate().unwrap_err(),
        "step `a`: bad command: unknown variant `fly`"
    );

    let mut bad = hello_step("a", "r");
    bad.cmd = op("get");
    bad.command = Ok(Command::Get {
        session: "t".to_owned(),
        key: KeyArg::B64 { b64: "!".to_owned() },
    });
    let s = scenario(&both(), &["r"], vec![bad], runs());
    assert!(s
        .validate()
        .unwrap_err()
        .starts_with("step `a`: `!` is not valid base64."));

    let mut bad = hello_step("a", "r");
    bad.cmd = op("put");
    bad.command = Ok(Command::Put {
        session: "t".to_owned(),
        key: KeyArg::B64 { b64: b64_encode(&[1]) },
        value: KeyArg::B64 { b64: "A".to_owned() },
    });
    let s = scenario(&both(), &["r"], vec![bad], self::runs());
    assert!(s
        .validate()
        .unwrap_err()
        .starts_with("step `a`: `A` is not valid base64."));

    let runs = vec![run("oracle", &[("r", "go")]), run("subject", &[])];
    let s = scenario(&both(), &["r"], fine(), runs);
    assert_eq!(s.validate().unwrap_err(), "run `subject` does not bind role `r`");
}

#[test]
fn the_first_fault_is_the_one_that_is_named() {
    let mut s = scenario(&["oracle"], &["r"], vec![hello_step("a", "ghost")], vec![]);
    assert!(s.validate().unwrap_err().starts_with("`compare` must name"));
    s.compare = vec!["oracle".to_owned(), "x\"y".to_owned(), "z".to_owned()];
    assert_eq!(
        s.validate().unwrap_err(),
        "`compare` must name exactly 2 runs, got [\"oracle\", \"x\\\"y\", \"z\"]"
    );
}

#[test]
fn a_wait_needs_no_command_of_the_protocol() {
    let wait = Step {
        id: "w".to_owned(),
        role: None,
        cmd: Json::Object(vec![
            ("op".to_owned(), Json::Str("sleep".to_owned())),
            ("ms".to_owned(), Json::Number("5".to_owned())),
        ]),
        command: Err("unknown variant `sleep`".to_owned()),
        expect: None,
        why: Some("the lock expires".to_owned()),
    };
    assert!(sleeps(&wait.cmd));
    assert!(!sleeps(&op("hello")));
    assert!(!sleeps(&Json::Null));
    let s = scenario(&both(), &["r"], vec![wait, hello_step("a", "r")], runs());
    assert!(s.validate().is_ok());
    assert_eq!(SCENARIO_SCHEMA, "parity-scenario/v1");
}

#[test]
fn binary_arguments_that_decode_are_accepted() {
    let mut step = hello_step("a", "r");
    step.cmd = op("put");
    step.command = Ok(Command::Put {
        session: "t".to_owned(),
        key: KeyArg::B64 { b64: b64_encode(&[0xff]) },
        value: KeyArg::B64 { b64: b64_encode(&[]) },
    });
    let s = scenario(&both(), &["r"], vec![step], runs());
    assert!(s.validate().is_ok());
}
