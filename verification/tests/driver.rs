use distributed_datalog::driver::{accumulate, instantiate, Realization};
use distributed_datalog::schema::{Addr, Assignment, NodeCfg, RelCfg, Sink, Source, SysCfg};
use distributed_datalog::wiring::Step;
use std::cell::{Cell, RefCell};
use std::collections::{HashMap, HashSet};
use std::rc::Rc;
use uuid::Uuid;

fn ids(rel_ids: &[usize]) -> HashSet<usize> {
    rel_ids.iter().copied().collect()
}

struct Mux {
    torn_down: Rc<Cell<usize>>,
}

impl Drop for Mux {
    fn drop(&mut self) {
        self.torn_down.set(self.torn_down.get() + 1);
    }
}

fn receiver_of(steps: &[Step]) -> Addr {
    for step in steps {
        if let Step::BindReceiver { addr } = step {
            return *addr;
        }
    }
    panic!("a plan without a receiver");
}

fn sinks_of(steps: &[Step]) -> Vec<String> {
    let mut sinks = Vec::new();
    for step in steps {
        if let Step::OpenSink { path, .. } = step {
            sinks.push(path.clone());
        }
    }
    sinks
}

fn three_nodes() -> (SysCfg, Assignment, [Addr; 3]) {
    let x = Addr::v4(127, 0, 0, 1, 1);
    let y = Addr::v4(127, 0, 0, 1, 2);
    let z = Addr::v4(127, 0, 0, 1, 3);
    let mut node0 = NodeCfg::new();
    node0.insert(0, vec![RelCfg::Source(Source::File("input0.dat".to_string()))]);
    node0.insert(1, vec![]);
    let mut node1 = NodeCfg::new();
    node1.insert(2, vec![RelCfg::Source(Source::File("input2.dat".to_string()))]);
    node1.insert(3, vec![]);
    let mut node2 = NodeCfg::new();
    node2.insert(4, vec![RelCfg::Input(1)]);
    node2.insert(5, vec![RelCfg::Input(3)]);
    node2.insert(6, vec![RelCfg::Sink(Sink::File("node2.dump".to_string()))]);
    let mut sys_cfg = SysCfg::new();
    sys_cfg.insert(10, node0);
    sys_cfg.insert(20, node1);
    sys_cfg.insert(30, node2);
    let mut assignment = Assignment::new();
    assignment.insert(10, x);
    assignment.insert(20, y);
    assignment.insert(30, z);
    (sys_cfg, assignment, [x, y, z])
}

#[test]
fn every_node_is_realized_where_it_is_placed() {
    let (sys_cfg, assignment, [x, y, z]) = three_nodes();

    let plans: RefCell<Vec<Vec<Step>>> = RefCell::new(Vec::new());
    let result = instantiate(&sys_cfg, &x, &assignment, |steps: Vec<Step>| {
        plans.borrow_mut().push(steps);
        Ok::<(), String>(())
    });
    assert_eq!(result.map(|realized| realized.len()), Ok(1));
    let mut redirects = HashMap::new();
    let expected = vec![vec![
        Step::StartEngine { workers: 2, redirects: redirects.clone() },
        Step::ConnectSender { addr: z, timeout_ms: 30000, interval_ms: 500, rel_ids: ids(&[1]) },
        Step::CreateMux,
        Step::BindReceiver { addr: x },
        Step::OpenSource { path: "input0.dat".to_string() },
    ]];
    assert_eq!(*plans.borrow(), expected);

    plans.borrow_mut().clear();
    let result = instantiate(&sys_cfg, &y, &assignment, |steps: Vec<Step>| {
        plans.borrow_mut().push(steps);
        Ok::<(), String>(())
    });
    assert_eq!(result.map(|realized| realized.len()), Ok(1));
    let expected = vec![vec![
        Step::StartEngine { workers: 2, redirects: redirects.clone() },
        Step::ConnectSender { addr: z, timeout_ms: 30000, interval_ms: 500, rel_ids: ids(&[3]) },
        Step::CreateMux,
        Step::BindReceiver { addr: y },
        Step::OpenSource { path: "input2.dat".to_string() },
    ]];
    assert_eq!(*plans.borrow(), expected);

    plans.borrow_mut().clear();
    let result = instantiate(&sys_cfg, &z, &assignment, |steps: Vec<Step>| {
        plans.borrow_mut().push(steps);
        Ok::<(), String>(())
    });
    assert_eq!(result.map(|realized| realized.len()), Ok(1));
    redirects.insert(1, 4);
    redirects.insert(3, 5);
    let expected = vec![vec![
        Step::StartEngine { workers: 2, redirects },
        Step::OpenSink { path: "node2.dump".to_string(), rel_ids: ids(&[6]) },
        Step::CreateMux,
        Step::BindReceiver { addr: z },
    ]];
    assert_eq!(*plans.borrow(), expected);
}

#[test]
fn an_address_without_nodes_gets_an_empty_result() {
    let (sys_cfg, assignment, _) = three_nodes();
    let nowhere = Addr::v4(127, 0, 0, 1, 4);
    let calls = Cell::new(0usize);
    let result = instantiate(&sys_cfg, &nowhere, &assignment, |_: Vec<Step>| {
        calls.set(calls.get() + 1);
        Err::<(), String>("must not be carried out".to_string())
    });
    assert_eq!(result.map(|realized| realized.len()), Ok(0));
    assert_eq!(calls.get(), 0);

    let result =
        instantiate(&SysCfg::new(), &nowhere, &Assignment::new(), |_: Vec<Step>| Ok::<(), String>(()));
    assert_eq!(result.map(|realized| realized.len()), Ok(0));
}

#[test]
fn exactly_the_nodes_placed_at_the_address_are_realized_in_ascending_order() {
    let here = Addr::v4(10, 0, 0, 1, 1);
    let there = Addr::v4(10, 0, 0, 2, 1);
    let mut ids_here: Vec<u128> = (0..4).map(|_| Uuid::new_v4().as_u128()).collect();
    let ids_there: Vec<u128> = (0..3).map(|_| Uuid::new_v4().as_u128()).collect();
    let unconfigured = Uuid::new_v4().as_u128();

    let mut sys_cfg = SysCfg::new();
    let mut assignment = Assignment::new();
    for (i, node) in ids_here.iter().enumerate() {
        let mut node_cfg = NodeCfg::new();
        node_cfg.insert(i, vec![RelCfg::Sink(Sink::File(format!("{}.dump", node)))]);
        sys_cfg.insert(*node, node_cfg);
        assignment.insert(*node, here);
    }
    for node in &ids_there {
        sys_cfg.insert(*node, NodeCfg::new());
        assignment.insert(*node, there);
    }
    assignment.insert(unconfigured, here);
    sys_cfg.insert(Uuid::new_v4().as_u128(), NodeCfg::new());

    let sinks: RefCell<Vec<String>> = RefCell::new(Vec::new());
    let result = instantiate(&sys_cfg, &here, &assignment, |steps: Vec<Step>| {
        assert_eq!(receiver_of(&steps), here);
        sinks.borrow_mut().extend(sinks_of(&steps));
        Ok::<(), String>(())
    });
    assert_eq!(result.map(|realized| realized.len()), Ok(4));
    ids_here.sort();
    let expected: Vec<String> = ids_here.iter().map(|node| format!("{}.dump", node)).collect();
    assert_eq!(*sinks.borrow(), expected);

    let calls = Cell::new(0usize);
    let result = instantiate(&sys_cfg, &there, &assignment, |steps: Vec<Step>| {
        assert_eq!(receiver_of(&steps), there);
        assert!(sinks_of(&steps).is_empty());
        calls.set(calls.get() + 1);
        Ok::<(), String>(())
    });
    assert_eq!(result.map(|realized| realized.len()), Ok(3));
    assert_eq!(calls.get(), 3);
}

#[test]
fn the_first_failure_leaves_nothing_realized() {
    let here = Addr::v4(10, 0, 0, 1, 1);
    let mut sys_cfg = SysCfg::new();
    let mut assignment = Assignment::new();
    for node in 1..=5u128 {
        let mut node_cfg = NodeCfg::new();
        node_cfg.insert(0, vec![RelCfg::Sink(Sink::File(format!("{}", node)))]);
        sys_cfg.insert(node, node_cfg);
        assignment.insert(node, here);
    }

    let torn_down = Rc::new(Cell::new(0usize));
    let attempts = Cell::new(0usize);
    let result = instantiate(&sys_cfg, &here, &assignment, |steps: Vec<Step>| {
        attempts.set(attempts.get() + 1);
        if sinks_of(&steps) == vec!["3".to_string()] {
            Err(format!("failed at attempt {}", attempts.get()))
        } else {
            Ok(Mux { torn_down: torn_down.clone() })
        }
    });
    assert_eq!(result.err(), Some("failed at attempt 3".to_string()));
    assert_eq!(attempts.get(), 3);
    assert_eq!(torn_down.get(), 2);
}

#[test]
fn dropping_a_realization_tears_it_down() {
    let here = Addr::v4(10, 0, 0, 1, 1);
    let mut sys_cfg = SysCfg::new();
    let mut assignment = Assignment::new();
    for node in 1..=2u128 {
        sys_cfg.insert(node, NodeCfg::new());
        assignment.insert(node, here);
    }
    let torn_down = Rc::new(Cell::new(0usize));
    let result: Result<Vec<Realization<Mux>>, String> =
        instantiate(&sys_cfg, &here, &assignment, |_: Vec<Step>| {
            Ok(Mux { torn_down: torn_down.clone() })
        });
    let mut realized = result.unwrap();
    assert_eq!(realized.len(), 2);
    assert_eq!(torn_down.get(), 0);
    drop(realized.pop());
    assert_eq!(torn_down.get(), 1);
    drop(realized);
    assert_eq!(torn_down.get(), 2);
}

#[test]
fn a_success_joins_the_earlier_ones_and_a_failure_replaces_them() {
    assert_eq!(accumulate(vec![1, 2], Ok::<i32, String>(3)), Ok(vec![1, 2, 3]));
    assert_eq!(accumulate(Vec::new(), Ok::<i32, String>(3)), Ok(vec![3]));
    assert_eq!(accumulate(vec![1, 2], Err::<i32, String>("no".to_string())), Err("no".to_string()));
}
