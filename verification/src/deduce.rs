//! What one node has to wire up, deduced from the declared configuration.

use crate::groups::{holds, lemma_groups_determined, no_empty_group, Groups};
use crate::schema::{
    directives, node_model, sys_model, Addr, Assignment, Directive, Node, NodeCfg, NodeModel,
    RelCfg, RelId, Sink, Source, SysCfg, SysModel,
};
use crate::walks::lemma_increasing_rel_ids;
use std::collections::HashMap;
use vstd::prelude::*;
use vstd::std_specs::btree::group_btree_axioms;
use vstd::std_specs::iter::IteratorSpec;

verus! {

/// For each remote address, the relations that must be streamed to it.
pub type Outputs = Groups<Addr>;

/// Whether relation `rel` of the configuration carries the directive `d`.
pub open spec fn declares(cfg: NodeModel, rel: RelId, d: Directive) -> bool {
    cfg.contains_key(rel) && cfg[rel].contains(d)
}

/// Whether some relation of the configuration is fed by `source`.
pub open spec fn consumes(cfg: NodeModel, source: RelId) -> bool {
    exists|rel: RelId| declares(cfg, rel, Directive::Input(source))
}

/// Whether `node` is configured, is placed at `to`, and is fed by `rel`.
pub open spec fn consumer_at(
    sys: SysModel,
    assignment: Map<Node, Addr>,
    node: Node,
    to: Addr,
    rel: RelId,
) -> bool {
    &&& sys.contains_key(node)
    &&& assignment.contains_key(node)
    &&& assignment[node] == to
    &&& consumes(sys[node], rel)
}

/// Whether the node with configuration `cfg`, running at `addr`, has to
/// stream its relation `rel` to the address `to`: `to` is another address,
/// `rel` is a relation of the node, and a node placed at `to` is fed by it.
pub open spec fn streams(
    addr: Addr,
    cfg: NodeModel,
    sys: SysModel,
    assignment: Map<Node, Addr>,
    to: Addr,
    rel: RelId,
) -> bool {
    &&& to != addr
    &&& cfg.contains_key(rel)
    &&& exists|node: Node| consumer_at(sys, assignment, node, to, rel)
}

/// The output map of the node with configuration `cfg` running at `addr`:
/// every address that something has to be streamed to, with the relations
/// that have to be streamed there.
pub open spec fn outputs_of(
    addr: Addr,
    cfg: NodeModel,
    sys: SysModel,
    assignment: Map<Node, Addr>,
) -> Map<Addr, Set<RelId>> {
    Map::new(
        |to: Addr| exists|rel: RelId| streams(addr, cfg, sys, assignment, to, rel),
        |to: Addr| Set::new(|rel: RelId| streams(addr, cfg, sys, assignment, to, rel)),
    )
}

/// Whether the directive `d` is among the first `n` directives of `list`.
spec fn occurs(list: Seq<RelCfg>, n: int, d: Directive) -> bool {
    exists|i: int| 0 <= i < n && (#[trigger] list[i])@ == d
}

/// A directive is among the first `n + 1` of a list if it is among the first
/// `n` or is the one that follows them.
proof fn lemma_occurs_next(list: Seq<RelCfg>, n: int, d: Directive)
    requires
        0 <= n < list.len(),
    ensures
        occurs(list, n + 1, d) <==> occurs(list, n, d) || list[n]@ == d,
{
    if occurs(list, n + 1, d) {
        let i = choose|i: int| 0 <= i < n + 1 && (#[trigger] list[i])@ == d;
        if i < n {
            assert(occurs(list, n, d));
        }
    }
}

/// The directives among all of a list are the directives of the list.
proof fn lemma_occurs_all(list: Seq<RelCfg>, d: Directive)
    ensures
        occurs(list, list.len() as int, d) <==> directives(list).contains(d),
{
}

/// Records under `to` every relation of `node_cfg` that a directive of
/// `list` names as its input.
fn add_inputs(outputs: &mut Outputs, to: &Addr, node_cfg: &NodeCfg, list: &Vec<RelCfg>)
    requires
        old(outputs).wf(),
    ensures
        final(outputs).wf(),
        no_empty_group(old(outputs)@) ==> no_empty_group(final(outputs)@),
        forall|k: Addr, r: RelId|
            #![trigger holds(final(outputs)@, k, r)]
            holds(final(outputs)@, k, r) <==> holds(old(outputs)@, k, r) || (k == *to
                && node_cfg@.contains_key(r) && directives(list@).contains(Directive::Input(r))),
{
    broadcast use group_btree_axioms;

    let ghost before = outputs@;
    let mut j: usize = 0;
    while j < list.len()
        invariant
            j <= list@.len(),
            outputs.wf(),
            no_empty_group(before) ==> no_empty_group(outputs@),
            forall|k: Addr, r: RelId|
                #![trigger holds(outputs@, k, r)]
                holds(outputs@, k, r) <==> holds(before, k, r) || (k == *to
                    && node_cfg@.contains_key(r) && occurs(list@, j as int, Directive::Input(r))),
        decreases list@.len() - j,
    {
        match &list[j] {
            RelCfg::Input(input) => {
                if node_cfg.contains_key(input) {
                    outputs.insert(to, *input);
                }
            },
            _ => {},
        }
        proof {
            assert forall|r: RelId|
                occurs(list@, j + 1, Directive::Input(r)) <==> occurs(
                    list@,
                    j as int,
                    Directive::Input(r),
                ) || list@[j as int]@ == Directive::Input(r) by {
                lemma_occurs_next(list@, j as int, Directive::Input(r));
            }
        }
        j += 1;
    }
    proof {
        assert forall|r: RelId|
            occurs(list@, list@.len() as int, Directive::Input(r)) <==> directives(
                list@,
            ).contains(Directive::Input(r)) by {
            lemma_occurs_all(list@, Directive::Input(r));
        }
    }
}

/// Whether one of the first `n` relations of a walk through a configuration
/// names `source` as its input.
spec fn walk_consumes(walk: Seq<(&RelId, &Vec<RelCfg>)>, n: int, source: RelId) -> bool {
    exists|i: int|
        0 <= i < n && directives((*(#[trigger] walk[i]).1)@).contains(Directive::Input(source))
}

/// Records under `to` every relation of `node_cfg` that feeds a relation of
/// the configuration `other`.
fn add_requests(outputs: &mut Outputs, to: &Addr, node_cfg: &NodeCfg, other: &NodeCfg)
    requires
        old(outputs).wf(),
    ensures
        final(outputs).wf(),
        no_empty_group(old(outputs)@) ==> no_empty_group(final(outputs)@),
        forall|k: Addr, r: RelId|
            #![trigger holds(final(outputs)@, k, r)]
            holds(final(outputs)@, k, r) <==> holds(old(outputs)@, k, r) || (k == *to
                && node_cfg@.contains_key(r) && consumes(node_model(other@), r)),
{
    broadcast use group_btree_axioms;

    let ghost before = outputs@;
    let ghost walk = other.iter().remaining();
    for entry in it: other.iter()
        invariant
            it.seq() == walk,
            outputs.wf(),
            no_empty_group(before) ==> no_empty_group(outputs@),
            forall|k: Addr, r: RelId|
                #![trigger holds(outputs@, k, r)]
                holds(outputs@, k, r) <==> holds(before, k, r) || (k == *to
                    && node_cfg@.contains_key(r) && walk_consumes(walk, it.index(), r)),
    {
        let ghost n = it.index();
        add_inputs(outputs, to, node_cfg, entry.1);
        proof {
            assert forall|r: RelId|
                walk_consumes(walk, n + 1, r) <==> walk_consumes(walk, n, r) || directives(
                    (*walk[n].1)@,
                ).contains(Directive::Input(r)) by {
                if walk_consumes(walk, n + 1, r) {
                    let i = choose|i: int|
                        0 <= i < n + 1 && directives((*(#[trigger] walk[i]).1)@).contains(
                            Directive::Input(r),
                        );
                    if i < n {
                        assert(walk_consumes(walk, n, r));
                    }
                }
            }
        }
    }
    proof {
        let model = node_model(other@);
        assert forall|r: RelId| walk_consumes(walk, walk.len() as int, r) <==> consumes(
            model,
            r,
        ) by {
            if walk_consumes(walk, walk.len() as int, r) {
                let i = choose|i: int|
                    0 <= i < walk.len() && directives((*(#[trigger] walk[i]).1)@).contains(
                        Directive::Input(r),
                    );
                let rel = *walk[i].0;
                assert(other@.contains_key(rel) && other@[rel] == *walk[i].1);
                assert(declares(model, rel, Directive::Input(r)));
            }
            if consumes(model, r) {
                let rel = choose|rel: RelId| declares(model, rel, Directive::Input(r));
                assert(walk.contains((&rel, &other@[rel])));
                let i = choose|i: int| 0 <= i < walk.len() && walk[i] == (&rel, &other@[rel]);
                assert(directives((*walk[i].1)@).contains(Directive::Input(r)));
            }
        }
    }
}

/// Whether one of the first `n` nodes of a walk through a system
/// configuration is placed at `to` and is fed by `rel`.
spec fn walk_requests(
    walk: Seq<(&Node, &NodeCfg)>,
    n: int,
    assignment: Map<Node, Addr>,
    to: Addr,
    rel: RelId,
) -> bool {
    exists|i: int|
        0 <= i < n && assignment.contains_key(*(#[trigger] walk[i]).0) && assignment[*walk[i].0]
            == to && consumes(node_model((*walk[i].1)@), rel)
}

/// Deduces the output map of the node with configuration `node_cfg` that
/// runs at `addr`.
///
/// Output relations are never configured: a relation has to be streamed to
/// another address exactly when a node placed there names it as an input.
/// Nodes placed at `addr` itself are reached locally and get no entry, and
/// nodes without an assignment are ignored.
pub fn deduce_outputs(
    addr: &Addr,
    node_cfg: &NodeCfg,
    sys_cfg: &SysCfg,
    assignment: &Assignment,
) -> (outputs: Outputs)
    ensures
        outputs.wf(),
        outputs@ == outputs_of(*addr, node_model(node_cfg@), sys_model(sys_cfg@), assignment@),
        !outputs@.contains_key(*addr),
{
    broadcast use group_btree_axioms;

    let mut outputs = Outputs::new();
    let ghost walk = sys_cfg.iter().remaining();
    for entry in it: sys_cfg.iter()
        invariant
            it.seq() == walk,
            outputs.wf(),
            no_empty_group(outputs@),
            forall|k: Addr, r: RelId|
                #![trigger holds(outputs@, k, r)]
                holds(outputs@, k, r) <==> k != *addr && node_cfg@.contains_key(r)
                    && walk_requests(walk, it.index(), assignment@, k, r),
    {
        let ghost n = it.index();
        match assignment.get(entry.0) {
            Some(to) => {
                if *to != *addr {
                    add_requests(&mut outputs, to, node_cfg, entry.1);
                }
            },
            None => {},
        }
        proof {
            assert forall|k: Addr, r: RelId|
                walk_requests(walk, n + 1, assignment@, k, r) <==> walk_requests(
                    walk,
                    n,
                    assignment@,
                    k,
                    r,
                ) || (assignment@.contains_key(*walk[n].0) && assignment@[*walk[n].0] == k
                    && consumes(node_model((*walk[n].1)@), r)) by {
                if walk_requests(walk, n + 1, assignment@, k, r) {
                    let i = choose|i: int|
                        0 <= i < n + 1 && assignment@.contains_key(*(#[trigger] walk[i]).0)
                            && assignment@[*walk[i].0] == k && consumes(
                            node_model((*walk[i].1)@),
                            r,
                        );
                    if i < n {
                        assert(walk_requests(walk, n, assignment@, k, r));
                    }
                }
            }
        }
    }
    proof {
        let cfg = node_model(node_cfg@);
        let sys = sys_model(sys_cfg@);
        let expected = outputs_of(*addr, cfg, sys, assignment@);
        assert forall|k: Addr, r: RelId|
            walk_requests(walk, walk.len() as int, assignment@, k, r) <==> (exists|node: Node|
                consumer_at(sys, assignment@, node, k, r)) by {
            if walk_requests(walk, walk.len() as int, assignment@, k, r) {
                let i = choose|i: int|
                    0 <= i < walk.len() && assignment@.contains_key(*(#[trigger] walk[i]).0)
                        && assignment@[*walk[i].0] == k && consumes(
                        node_model((*walk[i].1)@),
                        r,
                    );
                let node = *walk[i].0;
                assert(sys_cfg@.contains_key(node) && sys_cfg@[node] == *walk[i].1);
                assert(consumer_at(sys, assignment@, node, k, r));
            }
            if exists|node: Node| consumer_at(sys, assignment@, node, k, r) {
                let node = choose|node: Node| consumer_at(sys, assignment@, node, k, r);
                assert(walk.contains((&node, &sys_cfg@[node])));
                let i = choose|i: int| 0 <= i < walk.len() && walk[i] == (&node, &sys_cfg@[node]);
                assert(assignment@.contains_key(*walk[i].0));
            }
        }
        assert forall|k: Addr, r: RelId| #![trigger holds(outputs@, k, r)] holds(outputs@, k, r)
            <==> holds(expected, k, r) by {
            assert(holds(expected, k, r) <==> streams(*addr, cfg, sys, assignment@, k, r));
        }
        assert(no_empty_group(expected)) by {
            assert forall|k: Addr| #[trigger] expected.contains_key(k) implies exists|r: RelId|
                holds(expected, k, r) by {
                let r = choose|r: RelId| streams(*addr, cfg, sys, assignment@, k, r);
                assert(holds(expected, k, r));
            }
        }
        lemma_groups_determined(outputs@, expected);
    }
    outputs
}

/// Whether `rel` is the relation of the configuration that updates tagged
/// with `source` are relabeled to: it is fed by `source`, and no relation
/// with a larger id is.
pub open spec fn relabels(cfg: NodeModel, source: RelId, rel: RelId) -> bool {
    &&& declares(cfg, rel, Directive::Input(source))
    &&& forall|other: RelId| #[trigger]
        declares(cfg, other, Directive::Input(source)) ==> other <= rel
}

/// The redirect map of a configuration: every relation id that some relation
/// is fed by, mapped to the relation that it feeds. Where several relations
/// are fed by the same id, the one with the largest id is kept.
pub open spec fn redirects_of(cfg: NodeModel) -> Map<RelId, RelId> {
    Map::new(
        |source: RelId| consumes(cfg, source),
        |source: RelId| choose|rel: RelId| relabels(cfg, source, rel),
    )
}

/// Redirects to `rel` every relation id that a directive of `list` names as
/// its input.
fn add_redirects(redirects: &mut HashMap<RelId, RelId>, rel: RelId, list: &Vec<RelCfg>)
    ensures
        forall|s: RelId|
            #![trigger final(redirects)@.contains_key(s)]
            #![trigger final(redirects)@[s]]
            if directives(list@).contains(Directive::Input(s)) {
                final(redirects)@.contains_key(s) && final(redirects)@[s] == rel
            } else {
                &&& final(redirects)@.contains_key(s) == old(redirects)@.contains_key(s)
                &&& final(redirects)@[s] == old(redirects)@[s]
            },
{
    let ghost before = redirects@;
    let mut j: usize = 0;
    while j < list.len()
        invariant
            j <= list@.len(),
            forall|s: RelId|
                #![trigger redirects@.contains_key(s)]
                #![trigger redirects@[s]]
                if occurs(list@, j as int, Directive::Input(s)) {
                    redirects@.contains_key(s) && redirects@[s] == rel
                } else {
                    &&& redirects@.contains_key(s) == before.contains_key(s)
                    &&& redirects@[s] == before[s]
                },
        decreases list@.len() - j,
    {
        match &list[j] {
            RelCfg::Input(input) => {
                let _ = redirects.insert(*input, rel);
            },
            _ => {},
        }
        proof {
            assert forall|r: RelId|
                occurs(list@, j + 1, Directive::Input(r)) <==> occurs(
                    list@,
                    j as int,
                    Directive::Input(r),
                ) || list@[j as int]@ == Directive::Input(r) by {
                lemma_occurs_next(list@, j as int, Directive::Input(r));
            }
        }
        j += 1;
    }
    proof {
        assert forall|r: RelId|
            occurs(list@, list@.len() as int, Directive::Input(r)) <==> directives(
                list@,
            ).contains(Directive::Input(r)) by {
            lemma_occurs_all(list@, Directive::Input(r));
        }
    }
}

/// Among the first `n` relations of a walk, the position of the last one
/// that names `source` as its input, if there is one.
spec fn last_consumer(walk: Seq<(&RelId, &Vec<RelCfg>)>, n: int, source: RelId) -> int
    decreases n,
{
    if n <= 0 {
        -1
    } else if directives((*walk[n - 1].1)@).contains(Directive::Input(source)) {
        n - 1
    } else {
        last_consumer(walk, n - 1, source)
    }
}

proof fn lemma_last_consumer(walk: Seq<(&RelId, &Vec<RelCfg>)>, n: int, source: RelId)
    requires
        0 <= n <= walk.len(),
    ensures
        -1 <= last_consumer(walk, n, source) < n,
        last_consumer(walk, n, source) >= 0 ==> directives(
            (*walk[last_consumer(walk, n, source)].1)@,
        ).contains(Directive::Input(source)),
        forall|i: int|
            last_consumer(walk, n, source) < i < n ==> !directives(
                (*(#[trigger] walk[i]).1)@,
            ).contains(Directive::Input(source)),
    decreases n,
{
    if n > 0 && !directives((*walk[n - 1].1)@).contains(Directive::Input(source)) {
        lemma_last_consumer(walk, n - 1, source);
    }
}

/// Deduces the redirect map of a configuration: for every directive
/// `Input(s)` of a relation `r`, updates tagged with `s` are relabeled to
/// `r`. Relations are visited in ascending order and a later one replaces an
/// earlier one, so that among several relations fed by the same id the one
/// with the largest id is kept.
pub fn deduce_redirects(config: &NodeCfg) -> (redirects: HashMap<RelId, RelId>)
    ensures
        redirects@ == redirects_of(node_model(config@)),
        forall|s: RelId| #[trigger]
            redirects@.contains_key(s) <==> consumes(node_model(config@), s),
        forall|s: RelId| #[trigger]
            redirects@.contains_key(s) ==> relabels(node_model(config@), s, redirects@[s]),
{
    broadcast use group_btree_axioms;

    let mut redirects: HashMap<RelId, RelId> = HashMap::new();
    let ghost walk = config.iter().remaining();
    let iter = config.iter();
    proof {
        let keys = iter.remaining().map_values(|kv: (&RelId, &Vec<RelCfg>)| *kv.0);
        lemma_increasing_rel_ids(keys);
        assert forall|i: int, j: int| 0 <= i < j < walk.len() implies *(#[trigger] walk[i]).0 < *(
        #[trigger] walk[j]).0 by {
            assert(keys[i] == *walk[i].0);
            assert(keys[j] == *walk[j].0);
        }
    }
    for entry in it: iter
        invariant
            it.seq() == walk,
            forall|s: RelId|
                #![trigger redirects@.contains_key(s)]
                #![trigger redirects@[s]]
                {
                    let last = last_consumer(walk, it.index(), s);
                    &&& redirects@.contains_key(s) == (last >= 0)
                    &&& last >= 0 ==> redirects@[s] == *walk[last].0
                },
    {
        add_redirects(&mut redirects, *entry.0, entry.1);
    }
    proof {
        let model = node_model(config@);
        let n = walk.len() as int;
        assert forall|s: RelId| #[trigger] redirects@.contains_key(s) implies relabels(
            model,
            s,
            redirects@[s],
        ) by {
            lemma_last_consumer(walk, n, s);
            let last = last_consumer(walk, n, s);
            let rel = *walk[last].0;
            assert(config@.contains_key(rel) && config@[rel] == *walk[last].1);
            assert forall|other: RelId| #[trigger]
                declares(model, other, Directive::Input(s)) implies other <= rel by {
                assert(walk.contains((&other, &config@[other])));
                let i = choose|i: int| 0 <= i < n && walk[i] == (&other, &config@[other]);
                assert(directives((*walk[i].1)@).contains(Directive::Input(s)));
                assert(i <= last);
            }
        }
        assert forall|s: RelId| #[trigger]
            redirects@.contains_key(s) <==> consumes(model, s) by {
            lemma_last_consumer(walk, n, s);
            if consumes(model, s) {
                let rel = choose|rel: RelId| declares(model, rel, Directive::Input(s));
                assert(walk.contains((&rel, &config@[rel])));
                let i = choose|i: int| 0 <= i < n && walk[i] == (&rel, &config@[rel]);
                assert(directives((*walk[i].1)@).contains(Directive::Input(s)));
            }
            if redirects@.contains_key(s) {
                assert(declares(model, redirects@[s], Directive::Input(s)));
            }
        }
        assert forall|s: RelId| #[trigger] redirects@.contains_key(s) implies redirects@[s]
            == redirects_of(model)[s] by {
            let chosen = choose|rel: RelId| relabels(model, s, rel);
            assert(relabels(model, s, redirects@[s]));
            assert(relabels(model, s, chosen));
        }
        assert(redirects@ =~= redirects_of(model));
    }
    redirects
}

/// For each descriptor, the relations bound to it.
pub type FileGroups = Groups<String>;

/// The directive that binds a relation to the file `path`: as a sink if
/// `sinks` is set, as a source otherwise.
pub open spec fn file_directive(sinks: bool, path: Seq<char>) -> Directive {
    if sinks {
        Directive::Sink(path)
    } else {
        Directive::Source(path)
    }
}

/// The files that a configuration writes to (if `sinks` is set) or reads
/// from (otherwise), each with the relations bound to it.
pub open spec fn files_of(cfg: NodeModel, sinks: bool) -> Map<Seq<char>, Set<RelId>> {
    Map::new(
        |path: Seq<char>| exists|rel: RelId| declares(cfg, rel, file_directive(sinks, path)),
        |path: Seq<char>| Set::new(|rel: RelId| declares(cfg, rel, file_directive(sinks, path))),
    )
}

/// Groups `rel` under every file that a directive of `list` binds it to in
/// the given mode.
fn add_files(files: &mut FileGroups, rel: RelId, list: &Vec<RelCfg>, sinks: bool)
    requires
        old(files).wf(),
    ensures
        final(files).wf(),
        no_empty_group(old(files)@) ==> no_empty_group(final(files)@),
        forall|p: Seq<char>, r: RelId|
            #![trigger holds(final(files)@, p, r)]
            holds(final(files)@, p, r) <==> holds(old(files)@, p, r) || (r == rel && directives(
                list@,
            ).contains(file_directive(sinks, p))),
{
    let ghost before = files@;
    let mut j: usize = 0;
    while j < list.len()
        invariant
            j <= list@.len(),
            files.wf(),
            no_empty_group(before) ==> no_empty_group(files@),
            forall|p: Seq<char>, r: RelId|
                #![trigger holds(files@, p, r)]
                holds(files@, p, r) <==> holds(before, p, r) || (r == rel && occurs(
                    list@,
                    j as int,
                    file_directive(sinks, p),
                )),
        decreases list@.len() - j,
    {
        match &list[j] {
            RelCfg::Sink(Sink::File(path)) => {
                if sinks {
                    files.insert(path, rel);
                }
            },
            RelCfg::Source(Source::File(path)) => {
                if !sinks {
                    files.insert(path, rel);
                }
            },
            RelCfg::Input(_) => {},
        }
        proof {
            assert forall|p: Seq<char>|
                occurs(list@, j + 1, file_directive(sinks, p)) <==> occurs(
                    list@,
                    j as int,
                    file_directive(sinks, p),
                ) || list@[j as int]@ == file_directive(sinks, p) by {
                lemma_occurs_next(list@, j as int, file_directive(sinks, p));
            }
        }
        j += 1;
    }
    proof {
        assert forall|p: Seq<char>|
            occurs(list@, list@.len() as int, file_directive(sinks, p)) <==> directives(
                list@,
            ).contains(file_directive(sinks, p)) by {
            lemma_occurs_all(list@, file_directive(sinks, p));
        }
    }
}

/// Whether one of the first `n` relations of a walk through a configuration
/// is `rel` and is bound to the file `path` in the given mode.
spec fn walk_binds(
    walk: Seq<(&RelId, &Vec<RelCfg>)>,
    n: int,
    sinks: bool,
    path: Seq<char>,
    rel: RelId,
) -> bool {
    exists|i: int|
        0 <= i < n && *(#[trigger] walk[i]).0 == rel && directives((*walk[i].1)@).contains(
            file_directive(sinks, path),
        )
}

/// Deduces the file sinks (if `sinks` is set) or the file sources
/// (otherwise) of a configuration: each descriptor that a directive of the
/// requested mode names, with all the relations bound to it, so that one
/// file handle per descriptor serves them all. Directives of the other mode
/// and inputs contribute nothing. The groups stand in the lexicographic order
/// of the descriptors.
pub fn deduce_sinks_or_sources(node_cfg: &NodeCfg, sinks: bool) -> (files: FileGroups)
    ensures
        files.wf(),
        files@ == files_of(node_model(node_cfg@), sinks),
        forall|path: Seq<char>, rel: RelId|
            #![trigger holds(files@, path, rel)]
            holds(files@, path, rel) <==> declares(
                node_model(node_cfg@),
                rel,
                file_directive(sinks, path),
            ),
{
    broadcast use group_btree_axioms;

    let mut files = FileGroups::new();
    let ghost walk = node_cfg.iter().remaining();
    for entry in it: node_cfg.iter()
        invariant
            it.seq() == walk,
            files.wf(),
            no_empty_group(files@),
            forall|p: Seq<char>, r: RelId|
                #![trigger holds(files@, p, r)]
                holds(files@, p, r) <==> walk_binds(walk, it.index(), sinks, p, r),
    {
        let ghost n = it.index();
        add_files(&mut files, *entry.0, entry.1, sinks);
        proof {
            assert forall|p: Seq<char>, r: RelId|
                walk_binds(walk, n + 1, sinks, p, r) <==> walk_binds(walk, n, sinks, p, r) || (
                *walk[n].0 == r && directives((*walk[n].1)@).contains(file_directive(sinks, p))) by {
                if walk_binds(walk, n + 1, sinks, p, r) {
                    let i = choose|i: int|
                        0 <= i < n + 1 && *(#[trigger] walk[i]).0 == r && directives(
                            (*walk[i].1)@,
                        ).contains(file_directive(sinks, p));
                    if i < n {
                        assert(walk_binds(walk, n, sinks, p, r));
                    }
                }
            }
        }
    }
    proof {
        let model = node_model(node_cfg@);
        let expected = files_of(model, sinks);
        assert forall|p: Seq<char>, r: RelId|
            walk_binds(walk, walk.len() as int, sinks, p, r) <==> declares(
                model,
                r,
                file_directive(sinks, p),
            ) by {
            if walk_binds(walk, walk.len() as int, sinks, p, r) {
                let i = choose|i: int|
                    0 <= i < walk.len() && *(#[trigger] walk[i]).0 == r && directives(
                        (*walk[i].1)@,
                    ).contains(file_directive(sinks, p));
                assert(node_cfg@.contains_key(r) && node_cfg@[r] == *walk[i].1);
            }
            if declares(model, r, file_directive(sinks, p)) {
                assert(walk.contains((&r, &node_cfg@[r])));
                let i = choose|i: int| 0 <= i < walk.len() && walk[i] == (&r, &node_cfg@[r]);
                assert(*walk[i].0 == r);
            }
        }
        assert forall|p: Seq<char>, r: RelId| #![trigger holds(files@, p, r)] holds(files@, p, r)
            <==> holds(expected, p, r) by {
            assert(holds(expected, p, r) <==> declares(model, r, file_directive(sinks, p)));
        }
        assert(no_empty_group(expected)) by {
            assert forall|p: Seq<char>| #[trigger] expected.contains_key(p) implies exists|
                r: RelId,
            |
                holds(expected, p, r) by {
                let r = choose|r: RelId| declares(model, r, file_directive(sinks, p));
                assert(holds(expected, p, r));
            }
        }
        lemma_groups_determined(files@, expected);
    }
    files
}

} // verus!
