use distributed_datalog::deduce::{
    deduce_outputs, deduce_redirects, deduce_sinks_or_sources, Outputs,
};
use distributed_datalog::schema::{Addr, Assignment, NodeCfg, RelCfg, Sink, Source, SysCfg};
use std::collections::HashSet;
use uuid::Uuid;

fn source(path: &str) -> RelCfg {
    RelCfg::Source(Source::File(path.to_string()))
}

fn sink(path: &str) -> RelCfg {
    RelCfg::Sink(Sink::File(path.to_string()))
}

fn ids(rel_ids: &[usize]) -> HashSet<usize> {
    rel_ids.iter().copied().collect()
}

#[test]
fn file_sink_deduction() {
    let mut node_cfg = NodeCfg::new();
    node_cfg.insert(0, vec![source("input.dat"), sink("output_0_2.dump")]);
    node_cfg.insert(1, vec![RelCfg::Input(2), RelCfg::Input(4)]);
    node_cfg.insert(2, vec![sink("output_0_2.dump")]);
    node_cfg.insert(3, vec![sink("output_3.dump"), RelCfg::Input(0)]);

    let sinks = deduce_sinks_or_sources(&node_cfg, true);
    assert_eq!(sinks.len(), 2);

    let rel_ids = sinks.get(&"output_0_2.dump".to_string()).unwrap();
    assert_eq!(rel_ids.len(), 2);
    assert!(rel_ids.contains(&0));
    assert!(rel_ids.contains(&2));

    let rel_ids = sinks.get(&"output_3.dump".to_string()).unwrap();
    assert_eq!(rel_ids.len(), 1);
    assert!(rel_ids.contains(&3));
}

#[test]
fn output_deduction_two_nodes() {
    let uuid0 = Uuid::new_v4().as_u128();
    let uuid1 = Uuid::new_v4().as_u128();
    let node0 = Addr::v4(127, 0, 0, 1, 1);
    let node1 = Addr::v4(127, 0, 0, 1, 2);

    let mut node0_cfg = NodeCfg::new();
    node0_cfg.insert(0, vec![source("input.cmd")]);
    let mut node1_cfg = NodeCfg::new();
    node1_cfg.insert(1, vec![RelCfg::Input(0)]);

    let mut sys_cfg = SysCfg::new();
    sys_cfg.insert(uuid0, node0_cfg.clone());
    sys_cfg.insert(uuid1, node1_cfg.clone());
    let mut assignment = Assignment::new();
    assignment.insert(uuid0, node0);
    assignment.insert(uuid1, node1);

    let outputs = deduce_outputs(&node0, &node0_cfg, &sys_cfg, &assignment);
    let mut expected = Outputs::new();
    expected.insert(&node1, 0);
    assert_eq!(outputs, expected);
    assert_eq!(outputs.len(), 1);
    assert_eq!(outputs.get(&node1), Some(&ids(&[0])));

    let outputs = deduce_outputs(&node1, &node1_cfg, &sys_cfg, &assignment);
    assert_eq!(outputs, Outputs::new());
}

#[test]
fn output_deduction_three_nodes() {
    let uuid0 = Uuid::new_v4().as_u128();
    let uuid1 = Uuid::new_v4().as_u128();
    let uuid2 = Uuid::new_v4().as_u128();
    let node0 = Addr::v4(127, 0, 0, 1, 1);
    let node1 = Addr::v4(127, 0, 0, 1, 2);
    let node2 = Addr::v4(127, 0, 0, 1, 3);

    let mut node0_cfg = NodeCfg::new();
    node0_cfg.insert(0, vec![source("input0.dat")]);
    node0_cfg.insert(1, vec![]);
    let mut node1_cfg = NodeCfg::new();
    node1_cfg.insert(2, vec![source("input2.dat")]);
    node1_cfg.insert(3, vec![]);
    let mut node2_cfg = NodeCfg::new();
    node2_cfg.insert(4, vec![RelCfg::Input(1)]);
    node2_cfg.insert(5, vec![RelCfg::Input(3)]);
    node2_cfg.insert(6, vec![sink("node2.dump")]);

    let mut sys_cfg = SysCfg::new();
    sys_cfg.insert(uuid0, node0_cfg.clone());
    sys_cfg.insert(uuid1, node1_cfg.clone());
    sys_cfg.insert(uuid2, node2_cfg.clone());

    let mut assignment = Assignment::new();
    assignment.insert(uuid0, node0);
    assignment.insert(uuid1, node1);
    assignment.insert(uuid2, node2);

    let outputs = deduce_outputs(&node0, &node0_cfg, &sys_cfg, &assignment);
    let mut expected = Outputs::new();
    expected.insert(&node2, 1);
    assert_eq!(outputs, expected);

    let outputs = deduce_outputs(&node1, &node1_cfg, &sys_cfg, &assignment);
    let mut expected = Outputs::new();
    expected.insert(&node2, 3);
    assert_eq!(outputs, expected);

    let outputs = deduce_outputs(&node2, &node2_cfg, &sys_cfg, &assignment);
    let expected = Outputs::new();
    assert_eq!(outputs, expected);
}

#[test]
fn redirects_lead_to_the_consumer() {
    let mut node_cfg = NodeCfg::new();
    node_cfg.insert(1, vec![RelCfg::Input(2), RelCfg::Input(4)]);
    node_cfg.insert(3, vec![sink("out3.dump"), RelCfg::Input(0)]);
    let redirects = deduce_redirects(&node_cfg);
    assert_eq!(redirects.len(), 3);
    assert_eq!(redirects.get(&2), Some(&1));
    assert_eq!(redirects.get(&4), Some(&1));
    assert_eq!(redirects.get(&0), Some(&3));
}

#[test]
fn sinks_are_grouped_by_descriptor() {
    let mut node_cfg = NodeCfg::new();
    node_cfg.insert(0, vec![source("input.dat"), sink("out.dump")]);
    node_cfg.insert(1, vec![RelCfg::Input(2), RelCfg::Input(4)]);
    node_cfg.insert(2, vec![sink("out.dump")]);
    node_cfg.insert(3, vec![sink("out3.dump"), RelCfg::Input(0)]);

    let sinks = deduce_sinks_or_sources(&node_cfg, true);
    assert_eq!(sinks.len(), 2);
    assert_eq!(sinks.key(0), "out.dump");
    assert_eq!(sinks.rel_ids(0), &ids(&[0, 2]));
    assert_eq!(sinks.key(1), "out3.dump");
    assert_eq!(sinks.rel_ids(1), &ids(&[3]));
    assert_eq!(sinks.get(&"input.dat".to_string()), None);
}

#[test]
fn sources_are_deduced_apart_from_sinks() {
    let mut node_cfg = NodeCfg::new();
    node_cfg.insert(0, vec![source("input.dat"), sink("out.dump")]);
    node_cfg.insert(2, vec![sink("out.dump")]);
    node_cfg.insert(5, vec![source("input.dat"), source("other.dat")]);

    let sources = deduce_sinks_or_sources(&node_cfg, false);
    assert_eq!(sources.len(), 2);
    assert_eq!(sources.get(&"input.dat".to_string()), Some(&ids(&[0, 5])));
    assert_eq!(sources.get(&"other.dat".to_string()), Some(&ids(&[5])));
    assert!(!sources.contains_key(&"out.dump".to_string()));
}

#[test]
fn a_configuration_without_files_has_no_sinks_and_no_sources() {
    let mut node_cfg = NodeCfg::new();
    node_cfg.insert(1, vec![RelCfg::Input(2)]);
    node_cfg.insert(2, vec![]);
    assert!(deduce_sinks_or_sources(&node_cfg, true).is_empty());
    assert!(deduce_sinks_or_sources(&node_cfg, false).is_empty());
    assert!(deduce_sinks_or_sources(&NodeCfg::new(), true).is_empty());
}

#[test]
fn files_stand_in_the_order_of_their_descriptors() {
    let mut node_cfg = NodeCfg::new();
    node_cfg.insert(0, vec![sink("b.dump")]);
    node_cfg.insert(1, vec![sink("a/b.dump")]);
    node_cfg.insert(2, vec![sink("a-b.dump")]);
    node_cfg.insert(3, vec![sink("a")]);
    node_cfg.insert(4, vec![sink("")]);
    let sinks = deduce_sinks_or_sources(&node_cfg, true);
    let keys: Vec<&str> = (0..sinks.len()).map(|i| sinks.key(i).as_str()).collect();
    assert_eq!(keys, vec!["", "a", "a-b.dump", "a/b.dump", "b.dump"]);
}

#[test]
fn the_same_directive_twice_counts_once() {
    let mut node_cfg = NodeCfg::new();
    node_cfg.insert(7, vec![sink("x"), sink("x"), RelCfg::Input(1), RelCfg::Input(1)]);
    let sinks = deduce_sinks_or_sources(&node_cfg, true);
    assert_eq!(sinks.len(), 1);
    assert_eq!(sinks.get(&"x".to_string()), Some(&ids(&[7])));
    let redirects = deduce_redirects(&node_cfg);
    assert_eq!(redirects.len(), 1);
    assert_eq!(redirects.get(&1), Some(&7));
}

#[test]
fn of_two_consumers_of_one_input_the_larger_relation_is_kept() {
    let mut node_cfg = NodeCfg::new();
    node_cfg.insert(1, vec![RelCfg::Input(0)]);
    node_cfg.insert(2, vec![RelCfg::Input(0)]);
    let redirects = deduce_redirects(&node_cfg);
    assert_eq!(redirects.len(), 1);
    assert_eq!(redirects.get(&0), Some(&2));

    let mut node_cfg = NodeCfg::new();
    node_cfg.insert(9, vec![RelCfg::Input(0), RelCfg::Input(3)]);
    node_cfg.insert(4, vec![RelCfg::Input(0)]);
    node_cfg.insert(6, vec![source("in"), RelCfg::Input(3)]);
    let redirects = deduce_redirects(&node_cfg);
    assert_eq!(redirects.len(), 2);
    assert_eq!(redirects.get(&0), Some(&9));
    assert_eq!(redirects.get(&3), Some(&9));
}

#[test]
fn a_configuration_without_inputs_has_no_redirects() {
    let mut node_cfg = NodeCfg::new();
    node_cfg.insert(0, vec![source("input.dat"), sink("out.dump")]);
    node_cfg.insert(1, vec![]);
    assert!(deduce_redirects(&node_cfg).is_empty());
    assert!(deduce_redirects(&NodeCfg::new()).is_empty());
}

#[test]
fn a_relation_may_feed_itself() {
    let mut node_cfg = NodeCfg::new();
    node_cfg.insert(5, vec![RelCfg::Input(5)]);
    let redirects = deduce_redirects(&node_cfg);
    assert_eq!(redirects.get(&5), Some(&5));
}

#[test]
fn nothing_is_streamed_to_the_own_address() {
    let here = Addr::v4(10, 0, 0, 1, 5000);
    let there = Addr::v4(10, 0, 0, 2, 5000);
    let mut producer = NodeCfg::new();
    producer.insert(0, vec![source("in")]);
    let mut neighbour = NodeCfg::new();
    neighbour.insert(1, vec![RelCfg::Input(0)]);
    let mut remote = NodeCfg::new();
    remote.insert(2, vec![RelCfg::Input(0)]);

    let mut sys_cfg = SysCfg::new();
    sys_cfg.insert(1, producer.clone());
    sys_cfg.insert(2, neighbour);
    sys_cfg.insert(3, remote);
    let mut assignment = Assignment::new();
    assignment.insert(1, here);
    assignment.insert(2, here);
    assignment.insert(3, there);

    let outputs = deduce_outputs(&here, &producer, &sys_cfg, &assignment);
    assert!(!outputs.contains_key(&here));
    assert_eq!(outputs.len(), 1);
    assert_eq!(outputs.get(&there), Some(&ids(&[0])));
}

#[test]
fn nodes_at_one_address_share_one_entry() {
    let here = Addr::v4(10, 0, 0, 1, 1);
    let there = Addr::v4(10, 0, 0, 2, 1);
    let mut producer = NodeCfg::new();
    producer.insert(0, vec![]);
    producer.insert(1, vec![]);
    producer.insert(2, vec![]);
    let mut first = NodeCfg::new();
    first.insert(10, vec![RelCfg::Input(0)]);
    let mut second = NodeCfg::new();
    second.insert(11, vec![RelCfg::Input(1), RelCfg::Input(0)]);

    let mut sys_cfg = SysCfg::new();
    sys_cfg.insert(1, producer.clone());
    sys_cfg.insert(2, first);
    sys_cfg.insert(3, second);
    let mut assignment = Assignment::new();
    assignment.insert(1, here);
    assignment.insert(2, there);
    assignment.insert(3, there);

    let outputs = deduce_outputs(&here, &producer, &sys_cfg, &assignment);
    assert_eq!(outputs.len(), 1);
    assert_eq!(outputs.get(&there), Some(&ids(&[0, 1])));
}

#[test]
fn unassigned_nodes_and_foreign_relations_are_ignored() {
    let here = Addr::v4(10, 0, 0, 1, 1);
    let there = Addr::v4(10, 0, 0, 2, 1);
    let mut producer = NodeCfg::new();
    producer.insert(0, vec![]);
    let mut unassigned = NodeCfg::new();
    unassigned.insert(1, vec![RelCfg::Input(0)]);
    let mut remote = NodeCfg::new();
    remote.insert(2, vec![RelCfg::Input(7), sink("out")]);

    let mut sys_cfg = SysCfg::new();
    sys_cfg.insert(1, producer.clone());
    sys_cfg.insert(2, unassigned);
    sys_cfg.insert(3, remote);
    let mut assignment = Assignment::new();
    assignment.insert(1, here);
    assignment.insert(3, there);
    assignment.insert(4, there);

    let outputs = deduce_outputs(&here, &producer, &sys_cfg, &assignment);
    assert!(outputs.is_empty());
}

#[test]
fn without_cross_references_every_output_map_is_empty() {
    let a = Addr::v4(10, 0, 0, 1, 1);
    let b = Addr::v4(10, 0, 0, 2, 1);
    let mut first = NodeCfg::new();
    first.insert(0, vec![source("in")]);
    first.insert(1, vec![RelCfg::Input(0)]);
    let mut second = NodeCfg::new();
    second.insert(2, vec![source("in2")]);
    second.insert(3, vec![RelCfg::Input(2), sink("out")]);

    let mut sys_cfg = SysCfg::new();
    sys_cfg.insert(1, first.clone());
    sys_cfg.insert(2, second.clone());
    let mut assignment = Assignment::new();
    assignment.insert(1, a);
    assignment.insert(2, b);

    assert!(deduce_outputs(&a, &first, &sys_cfg, &assignment).is_empty());
    assert!(deduce_outputs(&b, &second, &sys_cfg, &assignment).is_empty());
}

#[test]
fn outputs_stand_in_the_order_of_the_addresses() {
    let here = Addr::v4(10, 0, 0, 1, 1);
    let v6 = Addr::V6 { ip: 1, port: 1, flowinfo: 0, scope_id: 0 };
    let high_port = Addr::v4(10, 0, 0, 2, 9);
    let low_port = Addr::v4(10, 0, 0, 2, 3);
    let low_ip = Addr::v4(9, 255, 255, 255, 65535);
    let mut producer = NodeCfg::new();
    producer.insert(0, vec![]);
    let mut consumer = NodeCfg::new();
    consumer.insert(1, vec![RelCfg::Input(0)]);

    let mut sys_cfg = SysCfg::new();
    sys_cfg.insert(0, producer.clone());
    let mut assignment = Assignment::new();
    assignment.insert(0, here);
    for (node, addr) in [(1, v6), (2, high_port), (3, low_port), (4, low_ip)] {
        sys_cfg.insert(node, consumer.clone());
        assignment.insert(node, addr);
    }

    let outputs = deduce_outputs(&here, &producer, &sys_cfg, &assignment);
    assert_eq!(outputs.len(), 4);
    assert_eq!(*outputs.key(0), low_ip);
    assert_eq!(*outputs.key(1), low_port);
    assert_eq!(*outputs.key(2), high_port);
    assert_eq!(*outputs.key(3), v6);
    for i in 0..4 {
        assert_eq!(outputs.rel_ids(i), &ids(&[0]));
    }
}
