use distributed_datalog::deduce::Outputs;
use distributed_datalog::failure::{failure, ErrorKind, Fault, RealizeError, Stage};
use distributed_datalog::realize::realize;
use distributed_datalog::schema::{Addr, NodeCfg, RelCfg, Sink, Source};
use distributed_datalog::wiring::{
    plan, Step, CONNECT_INTERVAL_MS, CONNECT_TIMEOUT_MS, WORKERS,
};
use std::cell::RefCell;
use std::collections::{HashMap, HashSet};

fn source(path: &str) -> RelCfg {
    RelCfg::Source(Source::File(path.to_string()))
}

fn sink(path: &str) -> RelCfg {
    RelCfg::Sink(Sink::File(path.to_string()))
}

fn ids(rel_ids: &[usize]) -> HashSet<usize> {
    rel_ids.iter().copied().collect()
}

fn sample_steps() -> Vec<Step> {
    let here = Addr::v4(10, 0, 0, 1, 1);
    let there = Addr::v4(10, 0, 0, 2, 1);
    vec![
        Step::StartEngine { workers: 2, redirects: HashMap::new() },
        Step::ConnectSender { addr: there, timeout_ms: 30000, interval_ms: 500, rel_ids: ids(&[0]) },
        Step::OpenSink { path: "out".to_string(), rel_ids: ids(&[1]) },
        Step::CreateMux,
        Step::BindReceiver { addr: here },
        Step::OpenSource { path: "in".to_string() },
    ]
}

#[test]
fn the_parameters_of_a_realization_are_fixed() {
    assert_eq!(WORKERS, 2);
    assert_eq!(CONNECT_TIMEOUT_MS, 30_000);
    assert_eq!(CONNECT_INTERVAL_MS, 500);
}

#[test]
fn a_plan_builds_outputs_before_the_multiplexer_and_inputs_after_it() {
    let here = Addr::v4(10, 0, 0, 1, 1);
    let near = Addr::v4(10, 0, 0, 2, 1);
    let far = Addr::v4(10, 0, 0, 3, 1);
    let mut node_cfg = NodeCfg::new();
    node_cfg.insert(0, vec![source("input.dat"), sink("out.dump")]);
    node_cfg.insert(1, vec![RelCfg::Input(2), RelCfg::Input(4)]);
    node_cfg.insert(2, vec![sink("out.dump"), source("a.dat")]);
    node_cfg.insert(3, vec![sink("out3.dump"), RelCfg::Input(0)]);
    let mut outputs = Outputs::new();
    outputs.insert(&far, 3);
    outputs.insert(&near, 0);
    outputs.insert(&near, 2);

    let steps = plan(&here, &node_cfg, outputs);

    let mut redirects = HashMap::new();
    redirects.insert(2, 1);
    redirects.insert(4, 1);
    redirects.insert(0, 3);
    let expected = vec![
        Step::StartEngine { workers: 2, redirects },
        Step::ConnectSender { addr: near, timeout_ms: 30000, interval_ms: 500, rel_ids: ids(&[0, 2]) },
        Step::ConnectSender { addr: far, timeout_ms: 30000, interval_ms: 500, rel_ids: ids(&[3]) },
        Step::OpenSink { path: "out.dump".to_string(), rel_ids: ids(&[0, 2]) },
        Step::OpenSink { path: "out3.dump".to_string(), rel_ids: ids(&[3]) },
        Step::CreateMux,
        Step::BindReceiver { addr: here },
        Step::OpenSource { path: "a.dat".to_string() },
        Step::OpenSource { path: "input.dat".to_string() },
    ];
    assert_eq!(steps, expected);
}

#[test]
fn the_plan_of_an_empty_configuration_still_runs_an_engine_and_a_receiver() {
    let here = Addr::v4(10, 0, 0, 1, 1);
    let steps = plan(&here, &NodeCfg::new(), Outputs::new());
    let expected = vec![
        Step::StartEngine { workers: 2, redirects: HashMap::new() },
        Step::CreateMux,
        Step::BindReceiver { addr: here },
    ];
    assert_eq!(steps, expected);
}

#[test]
fn a_failure_names_its_stage_and_its_kind() {
    let steps = sample_steps();
    let there = Addr::v4(10, 0, 0, 2, 1);
    let here = Addr::v4(10, 0, 0, 1, 1);
    let failed = |text: &str| Fault::Failed(text.to_string());
    let error = |kind, stage, detail: &str| RealizeError { kind, stage, detail: detail.to_string() };

    assert_eq!(
        failure(&steps[0], failed("no workers")),
        error(ErrorKind::EngineStart, Stage::Engine, "no workers")
    );
    assert_eq!(failure(&steps[0], Fault::Refused), error(ErrorKind::EngineStart, Stage::Engine, ""));
    assert_eq!(
        failure(&steps[1], failed("timed out")),
        error(ErrorKind::Connection, Stage::Sender(there), "timed out")
    );
    assert_eq!(
        failure(&steps[1], Fault::Refused),
        error(ErrorKind::Subscription, Stage::Sender(there), "")
    );
    assert_eq!(
        failure(&steps[2], failed("read-only")),
        error(ErrorKind::Io, Stage::Sink("out".to_string()), "read-only")
    );
    assert_eq!(
        failure(&steps[2], Fault::Refused),
        error(ErrorKind::Subscription, Stage::Sink("out".to_string()), "")
    );
    assert_eq!(failure(&steps[3], Fault::Refused), error(ErrorKind::Subscription, Stage::Mux, ""));
    assert_eq!(
        failure(&steps[3], failed("busy")),
        error(ErrorKind::Subscription, Stage::Mux, "busy")
    );
    assert_eq!(
        failure(&steps[4], failed("in use")),
        error(ErrorKind::Io, Stage::Receiver(here), "in use")
    );
    assert_eq!(
        failure(&steps[4], Fault::Refused),
        error(ErrorKind::Subscription, Stage::Receiver(here), "")
    );
    assert_eq!(
        failure(&steps[5], failed("missing")),
        error(ErrorKind::Io, Stage::Source("in".to_string()), "missing")
    );
    assert_eq!(
        failure(&steps[5], Fault::Refused),
        error(ErrorKind::Subscription, Stage::Source("in".to_string()), "")
    );
}

#[test]
fn the_steps_are_carried_out_in_their_order() {
    let steps = sample_steps();
    let seen: RefCell<Vec<String>> = RefCell::new(Vec::new());
    let result = realize(0usize, &steps, |count: usize, step: &Step| {
        seen.borrow_mut().push(format!("{:?}", step));
        Ok(count + 1)
    });
    assert_eq!(result, Ok(6));
    let expected: Vec<String> = steps.iter().map(|step| format!("{:?}", step)).collect();
    assert_eq!(*seen.borrow(), expected);
}

#[test]
fn the_first_fault_ends_a_realization() {
    let steps = sample_steps();
    let seen = RefCell::new(0usize);
    let result = realize((), &steps, |_: (), step: &Step| {
        *seen.borrow_mut() += 1;
        match step {
            Step::OpenSink { .. } => Err(Fault::Failed("disk full".to_string())),
            Step::BindReceiver { .. } => Err(Fault::Refused),
            _ => Ok(()),
        }
    });
    assert_eq!(
        result,
        Err(RealizeError {
            kind: ErrorKind::Io,
            stage: Stage::Sink("out".to_string()),
            detail: "disk full".to_string(),
        })
    );
    assert_eq!(*seen.borrow(), 3);
}

#[test]
fn an_empty_plan_leaves_what_it_started_from() {
    let steps: Vec<Step> = Vec::new();
    let result = realize(41u8, &steps, |_: u8, _: &Step| Err(Fault::Refused));
    assert_eq!(result, Ok(41));
}

#[test]
fn each_step_works_on_what_the_steps_before_it_built() {
    let steps = sample_steps();
    let result = realize(String::new(), &steps, |mut built: String, step: &Step| {
        built.push(match step {
            Step::StartEngine { .. } => 'e',
            Step::ConnectSender { .. } => 'c',
            Step::OpenSink { .. } => 'k',
            Step::CreateMux => 'm',
            Step::BindReceiver { .. } => 'r',
            Step::OpenSource { .. } => 's',
        });
        Ok(built)
    });
    assert_eq!(result, Ok("eckmrs".to_string()));
}
