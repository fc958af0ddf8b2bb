//! The steps by which the configuration of one node is realized locally.
//!
//! Realizing a node means starting a computation engine, attaching network
//! senders and file sinks to its output, wrapping it in a multiplexer, and
//! feeding that from a network receiver and from file sources. What has to
//! be built, with which parameters and in which order, is decided here; the
//! steps are then carried out by whoever holds the network and the files.

use crate::deduce::{
    deduce_redirects, deduce_sinks_or_sources, files_of, redirects_of, FileGroups, Outputs,
};
use crate::groups::Group;
use crate::keys::walk;
use crate::schema::{node_model, Addr, NodeCfg, NodeModel, RelId};
use std::collections::HashMap;
use std::collections::HashSet;
use vstd::prelude::*;

verus! {

/// The number of workers that every engine runs with.
pub const WORKERS: usize = 2;

/// How long connecting to a remote node is retried, in milliseconds.
pub const CONNECT_TIMEOUT_MS: u64 = 30000;

/// The pause between two attempts to connect, in milliseconds.
pub const CONNECT_INTERVAL_MS: u64 = 500;

/// One step of realizing a node.
#[derive(Debug, PartialEq, Eq)]
pub enum Step {
    /// Start the engine with `workers` workers and without replay, and
    /// install the redirect map, so that incoming updates are relabeled
    /// before they are applied.
    StartEngine { workers: usize, redirects: HashMap<RelId, RelId> },
    /// Connect to `addr`, polling every `interval_ms` until the connection
    /// stands or `timeout_ms` have passed, and subscribe the connection to
    /// the engine's output restricted to `rel_ids`.
    ConnectSender { addr: Addr, timeout_ms: u64, interval_ms: u64, rel_ids: HashSet<RelId> },
    /// Create or truncate the file `path` and subscribe it, as a sink, to
    /// the engine's output restricted to `rel_ids`.
    OpenSink { path: String, rel_ids: HashSet<RelId> },
    /// Wrap the engine in the multiplexer, which applies the update batches
    /// of all its inputs one transaction at a time.
    CreateMux,
    /// Bind a network receiver to `addr` and register it as an input of the
    /// multiplexer.
    BindReceiver { addr: Addr },
    /// Open the file `path` as a source and register it as an input of the
    /// multiplexer.
    OpenSource { path: String },
}

/// A step as a mathematical value.
pub enum StepModel {
    StartEngine { workers: usize, redirects: Map<RelId, RelId> },
    ConnectSender { addr: Addr, timeout_ms: u64, interval_ms: u64, rel_ids: Set<RelId> },
    OpenSink { path: Seq<char>, rel_ids: Set<RelId> },
    CreateMux,
    BindReceiver { addr: Addr },
    OpenSource { path: Seq<char> },
}

impl View for Step {
    type V = StepModel;

    open spec fn view(&self) -> StepModel {
        match self {
            Step::StartEngine { workers, redirects } => StepModel::StartEngine {
                workers: *workers,
                redirects: redirects@,
            },
            Step::ConnectSender { addr, timeout_ms, interval_ms, rel_ids } => {
                StepModel::ConnectSender {
                    addr: *addr,
                    timeout_ms: *timeout_ms,
                    interval_ms: *interval_ms,
                    rel_ids: rel_ids@,
                }
            },
            Step::OpenSink { path, rel_ids } => StepModel::OpenSink {
                path: path@,
                rel_ids: rel_ids@,
            },
            Step::CreateMux => StepModel::CreateMux,
            Step::BindReceiver { addr } => StepModel::BindReceiver { addr: *addr },
            Step::OpenSource { path } => StepModel::OpenSource { path: path@ },
        }
    }
}

/// The steps of a plan as mathematical values.
pub open spec fn steps_model(steps: Seq<Step>) -> Seq<StepModel> {
    steps.map_values(|step: Step| step@)
}

/// One sender for each address of the output map, in ascending order of the
/// addresses.
pub open spec fn sender_steps(outputs: Map<Addr, Set<RelId>>) -> Seq<StepModel> {
    let addrs = walk::<Addr>(outputs.dom());
    Seq::new(
        addrs.len(),
        |i: int|
            StepModel::ConnectSender {
                addr: addrs[i],
                timeout_ms: CONNECT_TIMEOUT_MS,
                interval_ms: CONNECT_INTERVAL_MS,
                rel_ids: outputs[addrs[i]],
            },
    )
}

/// One sink for each file, in ascending order of the descriptors.
pub open spec fn sink_steps(files: Map<Seq<char>, Set<RelId>>) -> Seq<StepModel> {
    let paths = walk::<String>(files.dom());
    Seq::new(
        paths.len(),
        |i: int| StepModel::OpenSink { path: paths[i], rel_ids: files[paths[i]] },
    )
}

/// One source for each file, in ascending order of the descriptors.
pub open spec fn source_steps(files: Map<Seq<char>, Set<RelId>>) -> Seq<StepModel> {
    let paths = walk::<String>(files.dom());
    Seq::new(paths.len(), |i: int| StepModel::OpenSource { path: paths[i] })
}

/// The plan for the node with configuration `cfg` at `addr`, given its
/// output map: the engine first, then what listens to its output (senders,
/// then sinks), then the multiplexer, then what feeds it (the receiver, then
/// the sources).
pub open spec fn plan_of(addr: Addr, cfg: NodeModel, outputs: Map<Addr, Set<RelId>>) -> Seq<
    StepModel,
> {
    seq![StepModel::StartEngine { workers: WORKERS, redirects: redirects_of(cfg) }] + sender_steps(
        outputs,
    ) + sink_steps(files_of(cfg, true)) + seq![
        StepModel::CreateMux,
        StepModel::BindReceiver { addr },
    ] + source_steps(files_of(cfg, false))
}

/// Appends one step to a plan.
fn push_step(steps: &mut Vec<Step>, step: Step)
    ensures
        steps_model(final(steps)@) == steps_model(old(steps)@).push(step@),
{
    steps.push(step);
    assert(steps_model(steps@) =~= steps_model(old(steps)@).push(step@));
}

/// Appends the senders for an output map.
fn push_senders(steps: &mut Vec<Step>, outputs: Outputs)
    requires
        outputs.wf(),
    ensures
        steps_model(final(steps)@) == steps_model(old(steps)@) + sender_steps(outputs@),
{
    proof {
        outputs.lemma_walk();
    }
    let ghost before = steps_model(steps@);
    let ghost expected = sender_steps(outputs@);
    let groups = outputs.into_groups();
    let ghost all = groups@;
    for group in it: groups.into_iter()
        invariant
            it.seq() == all,
            all.len() == expected.len(),
            forall|i: int|
                #![trigger all[i]]
                0 <= i < all.len() ==> expected[i] == (StepModel::ConnectSender {
                    addr: all[i].key,
                    timeout_ms: CONNECT_TIMEOUT_MS,
                    interval_ms: CONNECT_INTERVAL_MS,
                    rel_ids: all[i].rel_ids@,
                }),
            steps_model(steps@) == before + expected.take(it.index()),
    {
        let ghost n = it.index();
        let Group { key, rel_ids } = group;
        push_step(
            steps,
            Step::ConnectSender {
                addr: key,
                timeout_ms: CONNECT_TIMEOUT_MS,
                interval_ms: CONNECT_INTERVAL_MS,
                rel_ids,
            },
        );
        assert(steps_model(steps@) =~= before + expected.take(n + 1));
    }
    assert(expected.take(expected.len() as int) =~= expected);
}

/// Appends the sinks for the files that are written to.
fn push_sinks(steps: &mut Vec<Step>, files: FileGroups)
    requires
        files.wf(),
    ensures
        steps_model(final(steps)@) == steps_model(old(steps)@) + sink_steps(files@),
{
    proof {
        files.lemma_walk();
    }
    let ghost before = steps_model(steps@);
    let ghost expected = sink_steps(files@);
    let groups = files.into_groups();
    let ghost all = groups@;
    for group in it: groups.into_iter()
        invariant
            it.seq() == all,
            all.len() == expected.len(),
            forall|i: int|
                #![trigger all[i]]
                0 <= i < all.len() ==> expected[i] == (StepModel::OpenSink {
                    path: all[i].key@,
                    rel_ids: all[i].rel_ids@,
                }),
            steps_model(steps@) == before + expected.take(it.index()),
    {
        let ghost n = it.index();
        let Group { key, rel_ids } = group;
        push_step(steps, Step::OpenSink { path: key, rel_ids });
        assert(steps_model(steps@) =~= before + expected.take(n + 1));
    }
    assert(expected.take(expected.len() as int) =~= expected);
}

/// Appends the sources for the files that are read from.
fn push_sources(steps: &mut Vec<Step>, files: FileGroups)
    requires
        files.wf(),
    ensures
        steps_model(final(steps)@) == steps_model(old(steps)@) + source_steps(files@),
{
    proof {
        files.lemma_walk();
    }
    let ghost before = steps_model(steps@);
    let ghost expected = source_steps(files@);
    let groups = files.into_groups();
    let ghost all = groups@;
    for group in it: groups.into_iter()
        invariant
            it.seq() == all,
            all.len() == expected.len(),
            forall|i: int|
                #![trigger all[i]]
                0 <= i < all.len() ==> expected[i] == (StepModel::OpenSource { path: all[i].key@ }),
            steps_model(steps@) == before + expected.take(it.index()),
    {
        let ghost n = it.index();
        let Group { key, rel_ids: _ } = group;
        push_step(steps, Step::OpenSource { path: key });
        assert(steps_model(steps@) =~= before + expected.take(n + 1));
    }
    assert(expected.take(expected.len() as int) =~= expected);
}

/// Plans the realization of the node with configuration `node_cfg` at
/// `addr`, which has to stream what `outputs` says.
///
/// The plan starts the engine with the deduced redirect map, connects one
/// sender per address of the output map, opens one sink per file written to,
/// creates the multiplexer, binds the receiver to `addr`, and opens one
/// source per file read from: in this order, and within each kind in
/// ascending order of address or descriptor.
pub fn plan(addr: &Addr, node_cfg: &NodeCfg, outputs: Outputs) -> (steps: Vec<Step>)
    requires
        outputs.wf(),
    ensures
        steps_model(steps@) == plan_of(*addr, node_model(node_cfg@), outputs@),
{
    let mut steps: Vec<Step> = Vec::new();
    assert(steps_model(steps@) =~= Seq::<StepModel>::empty());
    let redirects = deduce_redirects(node_cfg);
    push_step(&mut steps, Step::StartEngine { workers: WORKERS, redirects });
    push_senders(&mut steps, outputs);
    push_sinks(&mut steps, deduce_sinks_or_sources(node_cfg, true));
    push_step(&mut steps, Step::CreateMux);
    push_step(&mut steps, Step::BindReceiver { addr: *addr });
    push_sources(&mut steps, deduce_sinks_or_sources(node_cfg, false));
    assert(steps_model(steps@) =~= plan_of(*addr, node_model(node_cfg@), outputs@));
    steps
}

} // verus!
