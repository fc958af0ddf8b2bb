//! Realizing every logical node that is placed at the local address.

use crate::deduce::{deduce_outputs, outputs_of};
use crate::keys::{ascending, is_walk, lemma_walk_is, walk};
use crate::schema::{sys_model, Addr, Assignment, Node, SysCfg, SysModel};
use crate::walks::lemma_increasing_nodes;
use crate::wiring::{plan, plan_of, steps_model, Step, StepModel};
use vstd::prelude::*;
use vstd::std_specs::btree::group_btree_axioms;
use vstd::std_specs::iter::IteratorSpec;

verus! {

/// A realized configuration: the owner of the multiplexer of one node and,
/// through it, of the engine and of every channel and file that was attached
/// while the node was realized.
///
/// All that can be done with a realization is to drop it, which tears
/// everything down.
#[derive(Debug)]
pub struct Realization<M> {
    /// The transaction multiplexer that everything is registered to.
    txnmux: M,
}

impl<M> Realization<M> {
    /// The multiplexer that the realization owns.
    pub closed spec fn txnmux(&self) -> M {
        self.txnmux
    }
}

/// Whether `node` is realized at `addr`: it is placed there and it is
/// configured.
pub open spec fn is_local(
    sys: SysModel,
    assignment: Map<Node, Addr>,
    addr: Addr,
    node: Node,
) -> bool {
    &&& assignment.contains_key(node)
    &&& assignment[node] == addr
    &&& sys.contains_key(node)
}

/// The nodes that are realized at `addr`, in ascending order.
pub open spec fn local_nodes(sys: SysModel, assignment: Map<Node, Addr>, addr: Addr) -> Seq<Node> {
    walk::<Node>(Set::new(|node: Node| is_local(sys, assignment, addr, node)))
}

/// The plan by which `node` is realized at `addr`: the plan for its
/// configuration and for the output map that is deduced for it from the
/// whole system.
pub open spec fn node_plan(
    sys: SysModel,
    assignment: Map<Node, Addr>,
    addr: Addr,
    node: Node,
) -> Seq<StepModel> {
    plan_of(addr, sys[node], outputs_of(addr, sys[node], sys, assignment))
}

/// Whether `node` is among the first `n` nodes of a walk through an
/// assignment.
spec fn seen(walked: Seq<(&Node, &Addr)>, n: int, node: Node) -> bool {
    exists|i: int| 0 <= i < n && *(#[trigger] walked[i]).0 == node
}

/// Adds the outcome of one realization to those that succeeded before it:
/// a success joins them, a failure takes their place, so that they are
/// dropped.
pub fn accumulate<R, E>(realized: Vec<R>, outcome: Result<R, E>) -> (result: Result<Vec<R>, E>)
    ensures
        match outcome {
            Ok(realization) => result matches Ok(all) && all@ == realized@.push(realization),
            Err(error) => result == Err::<Vec<R>, E>(error),
        },
{
    match outcome {
        Ok(realization) => {
            let mut realized = realized;
            realized.push(realization);
            Ok(realized)
        },
        Err(error) => Err(error),
    }
}

/// Whether `txnmux` is a multiplexer that carrying out the plan of `node`
/// may end with.
pub open spec fn realizes<M, E, F: Fn(Vec<Step>) -> Result<M, E>>(
    realize: F,
    sys: SysModel,
    assignment: Map<Node, Addr>,
    addr: Addr,
    node: Node,
    txnmux: M,
) -> bool {
    exists|steps: Vec<Step>|
        steps_model(steps@) == node_plan(sys, assignment, addr, node) && #[trigger] call_ensures(
            realize,
            (steps,),
            Ok::<M, E>(txnmux),
        )
}

/// Whether `error` is a failure that carrying out the plan of `node` may end
/// with.
pub open spec fn fails<M, E, F: Fn(Vec<Step>) -> Result<M, E>>(
    realize: F,
    sys: SysModel,
    assignment: Map<Node, Addr>,
    addr: Addr,
    node: Node,
    error: E,
) -> bool {
    exists|steps: Vec<Step>|
        steps_model(steps@) == node_plan(sys, assignment, addr, node) && #[trigger] call_ensures(
            realize,
            (steps,),
            Err::<M, E>(error),
        )
}

/// Instantiates the configuration at `addr` under the given assignment.
///
/// Every configured node that the assignment places at `addr` is realized,
/// in ascending order of the node identifiers: its output map is deduced
/// from the whole system, its plan is made, and `realize` carries the plan
/// out and hands back the multiplexer that it built. The realizations are
/// returned in that order. The first failure ends the call with its error;
/// the realizations made before it are dropped, which tears them down, so
/// that either all local nodes are realized or none is left. Where no node
/// is placed at `addr`, nothing is carried out and the result is empty.
pub fn instantiate<M, E, F: Fn(Vec<Step>) -> Result<M, E>>(
    sys_cfg: &SysCfg,
    addr: &Addr,
    assignment: &Assignment,
    realize: F,
) -> (result: Result<Vec<Realization<M>>, E>)
    requires
        forall|steps: Vec<Step>| #[trigger] call_requires(realize, (steps,)),
    ensures
        match result {
            Ok(realized) => {
                let nodes = local_nodes(sys_model(sys_cfg@), assignment@, *addr);
                &&& realized@.len() == nodes.len()
                &&& forall|i: int|
                    #![trigger realized@[i]]
                    0 <= i < nodes.len() ==> realizes(
                        realize,
                        sys_model(sys_cfg@),
                        assignment@,
                        *addr,
                        nodes[i],
                        realized@[i].txnmux(),
                    )
            },
            Err(error) => exists|node: Node|
                #![trigger is_local(sys_model(sys_cfg@), assignment@, *addr, node)]
                {
                    &&& is_local(sys_model(sys_cfg@), assignment@, *addr, node)
                    &&& fails(realize, sys_model(sys_cfg@), assignment@, *addr, node, error)
                    &&& forall|earlier: Node|
                        #![trigger is_local(sys_model(sys_cfg@), assignment@, *addr, earlier)]
                        is_local(sys_model(sys_cfg@), assignment@, *addr, earlier) && earlier
                            < node ==> exists|txnmux: M|
                            realizes(
                                realize,
                                sys_model(sys_cfg@),
                                assignment@,
                                *addr,
                                earlier,
                                txnmux,
                            )
                },
        },
        (forall|node: Node| !is_local(sys_model(sys_cfg@), assignment@, *addr, node)) ==> (
        result matches Ok(realized) && realized@.len() == 0),
        (forall|steps: Vec<Step>, outcome: Result<M, E>| #[trigger]
            call_ensures(realize, (steps,), outcome) ==> outcome is Ok) ==> result is Ok,
{
    broadcast use group_btree_axioms;

    let ghost sys = sys_model(sys_cfg@);
    let ghost walked = assignment.iter().remaining();
    let ghost mut picked: Seq<Node> = Seq::empty();
    let mut realized: Vec<Realization<M>> = Vec::new();
    let iter = assignment.iter();
    proof {
        let keys = iter.remaining().map_values(|kv: (&Node, &Addr)| *kv.0);
        lemma_increasing_nodes(keys);
        assert forall|i: int, j: int| 0 <= i < j < walked.len() implies *(#[trigger] walked[i]).0
            < *(#[trigger] walked[j]).0 by {
            assert(keys[i] == *walked[i].0);
            assert(keys[j] == *walked[j].0);
        }
    }
    proof {
        assert forall|k: Node| #[trigger] assignment@.contains_key(k) implies seen(
            walked,
            walked.len() as int,
            k,
        ) by {
            assert(walked.contains((&k, &assignment@[k])));
            let i = choose|i: int| 0 <= i < walked.len() && walked[i] == (&k, &assignment@[k]);
            assert(*walked[i].0 == k);
        }
    }
    for entry in it: iter
        invariant
            it.seq() == walked,
            sys == sys_model(sys_cfg@),
            forall|steps: Vec<Step>| #[trigger] call_requires(realize, (steps,)),
            forall|i: int, j: int|
                0 <= i < j < walked.len() ==> *(#[trigger] walked[i]).0 < *(
                #[trigger] walked[j]).0,
            forall|i: int|
                #![trigger walked[i]]
                0 <= i < walked.len() ==> assignment@.contains_key(*walked[i].0)
                    && assignment@[*walked[i].0] == *walked[i].1,
            forall|k: Node| #[trigger]
                assignment@.contains_key(k) ==> seen(walked, walked.len() as int, k),
            ascending::<Node>(picked),
            forall|j: int|
                #![trigger picked[j]]
                0 <= j < picked.len() ==> is_local(sys, assignment@, *addr, picked[j])
                    && seen(walked, it.index(), picked[j]),
            forall|i: int|
                #![trigger walked[i]]
                0 <= i < it.index() && is_local(sys, assignment@, *addr, *walked[i].0)
                    ==> picked.contains(*walked[i].0),
            realized@.len() == picked.len(),
            forall|j: int|
                #![trigger realized@[j]]
                0 <= j < picked.len() ==> realizes(
                    realize,
                    sys,
                    assignment@,
                    *addr,
                    picked[j],
                    realized@[j].txnmux(),
                ),
    {
        let ghost n = it.index();
        let ghost node = *entry.0;
        proof {
            assert forall|k: Node| seen(walked, n, k) implies seen(walked, n + 1, k) by {
                let i = choose|i: int| 0 <= i < n && *(#[trigger] walked[i]).0 == k;
                assert(*walked[i].0 == k);
            }
        }
        if *entry.1 == *addr {
            match sys_cfg.get(entry.0) {
                Some(node_cfg) => {
                    let outputs = deduce_outputs(addr, node_cfg, sys_cfg, assignment);
                    let steps = plan(addr, node_cfg, outputs);
                    assert(steps_model(steps@) == node_plan(sys, assignment@, *addr, node));
                    let outcome = match realize(steps) {
                        Ok(txnmux) => Ok(Realization { txnmux }),
                        Err(error) => Err(error),
                    };
                    let ghost before = realized@;
                    match accumulate(realized, outcome) {
                        Ok(all) => {
                            realized = all;
                        },
                        Err(error) => {
                            proof {
                                assert(is_local(sys, assignment@, *addr, node));
                                assert(fails(realize, sys, assignment@, *addr, node, error));
                                assert forall|earlier: Node|
                                    #![trigger is_local(sys, assignment@, *addr, earlier)]
                                    is_local(sys, assignment@, *addr, earlier) && earlier
                                        < node implies exists|txnmux: M|
                                    realizes(
                                        realize,
                                        sys,
                                        assignment@,
                                        *addr,
                                        earlier,
                                        txnmux,
                                    ) by {
                                    assert(seen(walked, walked.len() as int, earlier));
                                    let i = choose|i: int|
                                        0 <= i < walked.len() && *(#[trigger] walked[i]).0
                                            == earlier;
                                    if n < i {
                                        assert(*walked[n].0 < *walked[i].0);
                                    }
                                    assert(picked.contains(*walked[i].0));
                                    let j = choose|j: int|
                                        0 <= j < picked.len() && picked[j] == earlier;
                                    assert(realizes(
                                        realize,
                                        sys,
                                        assignment@,
                                        *addr,
                                        picked[j],
                                        before[j].txnmux(),
                                    ));
                                }
                            }
                            return Err(error);
                        },
                    }
                    proof {
                        let ghost earlier = picked;
                        picked = picked.push(node);
                        assert(realizes(
                            realize,
                            sys,
                            assignment@,
                            *addr,
                            node,
                            realized@[earlier.len() as int].txnmux(),
                        ));
                        assert forall|x: int, y: int|
                            #![trigger picked[x], picked[y]]
                            0 <= x < y < picked.len() implies picked[x] < picked[y] by {
                            if y == earlier.len() {
                                assert(seen(walked, n, earlier[x]));
                                let i = choose|i: int|
                                    0 <= i < n && *(#[trigger] walked[i]).0 == earlier[x];
                                assert(*walked[i].0 < *walked[n].0);
                            } else {
                                assert(earlier[x] < earlier[y]);
                            }
                        }
                        assert forall|i: int|
                            #![trigger walked[i]]
                            0 <= i < n + 1 && is_local(
                                sys,
                                assignment@,
                                *addr,
                                *walked[i].0,
                            ) implies picked.contains(*walked[i].0) by {
                            if i < n {
                                assert(earlier.contains(*walked[i].0));
                                let j = choose|j: int|
                                    0 <= j < earlier.len() && earlier[j] == *walked[i].0;
                                assert(picked[j] == *walked[i].0);
                            } else {
                                assert(picked[earlier.len() as int] == node);
                            }
                        }
                        assert(seen(walked, n + 1, node));
                        assert forall|j: int|
                            #![trigger realized@[j]]
                            0 <= j < picked.len() implies realizes(
                            realize,
                            sys,
                            assignment@,
                            *addr,
                            picked[j],
                            realized@[j].txnmux(),
                        ) by {
                            if j < earlier.len() {
                                assert(realized@[j] == before[j]);
                                assert(picked[j] == earlier[j]);
                            }
                        }
                    }
                },
                None => {},
            }
        }
    }
    proof {
        let local = Set::new(|node: Node| is_local(sys, assignment@, *addr, node));
        assert forall|k: Node|
            #![trigger picked.contains(k)]
            #![trigger local.contains(k)]
            picked.contains(k) <==> local.contains(k) by {
            if local.contains(k) {
                assert(seen(walked, walked.len() as int, k));
                let i = choose|i: int| 0 <= i < walked.len() && *(#[trigger] walked[i]).0 == k;
                assert(picked.contains(*walked[i].0));
            }
            if picked.contains(k) {
                let j = choose|j: int| 0 <= j < picked.len() && picked[j] == k;
                assert(is_local(sys, assignment@, *addr, picked[j]));
            }
        }
        assert(is_walk::<Node>(picked, local));
        lemma_walk_is::<Node>(picked, local);
        if picked.len() > 0 {
            assert(is_local(sys, assignment@, *addr, picked[0]));
        }
    }
    Ok(realized)
}

} // verus!
