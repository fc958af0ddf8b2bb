//! What holds of the deductions on every configuration.

use crate::deduce::{
    consumer_at, consumes, declares, file_directive, files_of, outputs_of, redirects_of, relabels,
    streams,
};
use crate::groups::holds;
use crate::schema::{Addr, Directive, Node, NodeModel, RelId, SysModel};
use vstd::prelude::*;

verus! {

/// Whether `consumer` is fed by the relation `rel` of `producer` while the
/// two nodes are placed at different addresses.
pub open spec fn cross_reference(
    sys: SysModel,
    assignment: Map<Node, Addr>,
    producer: Node,
    consumer: Node,
    rel: RelId,
) -> bool {
    &&& sys.contains_key(producer)
    &&& assignment.contains_key(producer)
    &&& sys[producer].contains_key(rel)
    &&& sys.contains_key(consumer)
    &&& assignment.contains_key(consumer)
    &&& consumes(sys[consumer], rel)
    &&& assignment[producer] != assignment[consumer]
}

/// Every declared input is served: if a node placed at one address is fed by
/// a relation of a node placed at another address, then the output map of
/// the producing node has an entry for the consumer's address, and that
/// entry holds the relation.
pub proof fn lemma_outputs_serve_inputs(
    sys: SysModel,
    assignment: Map<Node, Addr>,
    producer: Node,
    consumer: Node,
    rel: RelId,
)
    requires
        cross_reference(sys, assignment, producer, consumer, rel),
    ensures
        holds(
            outputs_of(assignment[producer], sys[producer], sys, assignment),
            assignment[consumer],
            rel,
        ),
{
    let from = assignment[producer];
    let to = assignment[consumer];
    assert(consumer_at(sys, assignment, consumer, to, rel));
    assert(streams(from, sys[producer], sys, assignment, to, rel));
}

/// Nothing is streamed without a declared input: whatever the output map of
/// a node holds under an address is a relation of the node that a node
/// placed at that address is fed by.
pub proof fn lemma_outputs_only_inputs(
    addr: Addr,
    cfg: NodeModel,
    sys: SysModel,
    assignment: Map<Node, Addr>,
    to: Addr,
    rel: RelId,
)
    requires
        holds(outputs_of(addr, cfg, sys, assignment), to, rel),
    ensures
        to != addr,
        cfg.contains_key(rel),
        exists|node: Node| consumer_at(sys, assignment, node, to, rel),
{
    assert(streams(addr, cfg, sys, assignment, to, rel));
}

/// A node never streams to its own address: the output map has no entry
/// under the address that it was deduced for.
pub proof fn lemma_outputs_exclude_self(
    addr: Addr,
    cfg: NodeModel,
    sys: SysModel,
    assignment: Map<Node, Addr>,
)
    ensures
        !outputs_of(addr, cfg, sys, assignment).contains_key(addr),
{
}

/// In a system in which no node is fed by a relation of a node placed at
/// another address, the output map of every placed node is empty.
pub proof fn lemma_outputs_empty_without_cross_references(
    sys: SysModel,
    assignment: Map<Node, Addr>,
    node: Node,
)
    requires
        forall|producer: Node, consumer: Node, rel: RelId|
            !cross_reference(sys, assignment, producer, consumer, rel),
        sys.contains_key(node),
        assignment.contains_key(node),
    ensures
        outputs_of(assignment[node], sys[node], sys, assignment) == Map::<
            Addr,
            Set<RelId>,
        >::empty(),
{
    let addr = assignment[node];
    let outputs = outputs_of(addr, sys[node], sys, assignment);
    assert forall|to: Addr| !outputs.contains_key(to) by {
        if outputs.contains_key(to) {
            let rel = choose|rel: RelId| streams(addr, sys[node], sys, assignment, to, rel);
            let consumer = choose|consumer: Node|
                consumer_at(sys, assignment, consumer, to, rel);
            assert(cross_reference(sys, assignment, node, consumer, rel));
        }
    }
    assert(outputs =~= Map::<Addr, Set<RelId>>::empty());
}

/// Among the relations up to `top` that are fed by `source` there is a
/// largest one.
proof fn lemma_largest_consumer(cfg: NodeModel, source: RelId, witness: RelId, top: RelId)
    requires
        declares(cfg, witness, Directive::Input(source)),
        forall|other: RelId| #[trigger]
            declares(cfg, other, Directive::Input(source)) ==> other <= top,
    ensures
        exists|rel: RelId| relabels(cfg, source, rel),
    decreases top,
{
    if declares(cfg, top, Directive::Input(source)) {
        assert(relabels(cfg, source, top));
    } else {
        assert(witness < top);
        lemma_largest_consumer(cfg, source, witness, (top - 1) as RelId);
    }
}

/// Every relation id that some relation is fed by has exactly one redirect:
/// it leads to a relation that is fed by that id, and of all such relations
/// to the one with the largest id.
pub proof fn lemma_redirect_survivor(cfg: NodeModel, source: RelId)
    requires
        consumes(cfg, source),
    ensures
        redirects_of(cfg).contains_key(source),
        relabels(cfg, source, redirects_of(cfg)[source]),
{
    let witness = choose|rel: RelId| declares(cfg, rel, Directive::Input(source));
    lemma_largest_consumer(cfg, source, witness, usize::MAX);
}

/// An input is redirected to the relation that declares it: if `rel` is fed
/// by `source` and no relation with a larger id is, updates tagged with
/// `source` are relabeled to `rel`. This holds in particular where `rel` is
/// the only relation fed by `source`.
pub proof fn lemma_redirect_to_consumer(cfg: NodeModel, rel: RelId, source: RelId)
    requires
        relabels(cfg, source, rel),
    ensures
        redirects_of(cfg).contains_key(source),
        redirects_of(cfg)[source] == rel,
{
    let chosen = redirects_of(cfg)[source];
    assert(relabels(cfg, source, chosen));
}

/// Only inputs are redirected: an id that no relation is fed by has no
/// redirect.
pub proof fn lemma_redirect_only_inputs(cfg: NodeModel, source: RelId)
    requires
        !consumes(cfg, source),
    ensures
        !redirects_of(cfg).contains_key(source),
{
}

/// Relations that share a descriptor share a group: two relations bound to
/// the same file in the same mode both stand under that file's key.
pub proof fn lemma_files_group_together(
    cfg: NodeModel,
    sinks: bool,
    path: Seq<char>,
    first: RelId,
    second: RelId,
)
    requires
        declares(cfg, first, file_directive(sinks, path)),
        declares(cfg, second, file_directive(sinks, path)),
    ensures
        files_of(cfg, sinks).contains_key(path),
        files_of(cfg, sinks)[path].contains(first),
        files_of(cfg, sinks)[path].contains(second),
{
}

/// Relations bound to different descriptors do not mix: a relation stands
/// under a file's key exactly if a directive of the requested mode binds it
/// to that file.
pub proof fn lemma_files_never_mix(cfg: NodeModel, sinks: bool, path: Seq<char>, rel: RelId)
    ensures
        holds(files_of(cfg, sinks), path, rel) <==> declares(
            cfg,
            rel,
            file_directive(sinks, path),
        ),
{
}

} // verus!
