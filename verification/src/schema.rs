//! The declarative description of a distributed computation.

use std::collections::BTreeMap;
use vstd::prelude::*;

verus! {

/// Identifier of a relation inside the shared, globally compiled program.
pub type RelId = usize;

/// Identifier of a logical node, unique across the system.
///
/// The numeric order of identifiers is the order in which nodes are visited.
pub type Node = u128;

/// The network endpoint of one running process: an IP address and a port.
///
/// Addresses are ordered by family (IPv4 first), then by the numeric value of
/// the IP address, then by port, then by the remaining IPv6 fields.
#[allow(inconsistent_fields)]
#[derive(Clone, Copy, Debug, PartialEq, Eq, Structural, Hash)]
pub enum Addr {
    /// An IPv4 endpoint; `ip` holds the four octets in network order.
    V4 { ip: u32, port: u16 },
    /// An IPv6 endpoint; `ip` holds the sixteen octets in network order.
    V6 { ip: u128, port: u16, flowinfo: u32, scope_id: u32 },
}

/// Where a relation's contents are read from.
#[derive(Clone, Debug, PartialEq, Eq, Hash)]
pub enum Source {
    /// A file, named by its descriptor.
    File(String),
}

/// Where a relation's output is written to.
#[derive(Clone, Debug, PartialEq, Eq, Hash)]
pub enum Sink {
    /// A file, named by its descriptor.
    File(String),
}

/// One directive attached to a relation in a node's configuration.
#[derive(Clone, Debug, PartialEq, Eq, Hash)]
pub enum RelCfg {
    /// The relation is fed by the updates produced under the given relation,
    /// possibly on another node.
    Input(RelId),
    /// The relation is populated from an external source.
    Source(Source),
    /// The relation's output goes to an external sink.
    Sink(Sink),
}

/// The configuration of one logical node: the directives of each of its
/// relations. The order of the directives of one relation carries no meaning.
pub type NodeCfg = BTreeMap<RelId, Vec<RelCfg>>;

/// The configuration of the whole system, by logical node.
pub type SysCfg = BTreeMap<Node, NodeCfg>;

/// The placement of logical nodes on physical addresses.
pub type Assignment = BTreeMap<Node, Addr>;

/// A directive as a mathematical value: descriptors are character sequences.
pub enum Directive {
    Input(RelId),
    Source(Seq<char>),
    Sink(Seq<char>),
}

/// A node configuration as a mathematical value: the set of directives of
/// each declared relation.
pub type NodeModel = Map<RelId, Set<Directive>>;

/// A system configuration as a mathematical value.
pub type SysModel = Map<Node, NodeModel>;

impl View for Source {
    type V = Seq<char>;

    /// The descriptor that the source reads from.
    open spec fn view(&self) -> Seq<char> {
        match self {
            Source::File(path) => path@,
        }
    }
}

impl View for Sink {
    type V = Seq<char>;

    /// The descriptor that the sink writes to.
    open spec fn view(&self) -> Seq<char> {
        match self {
            Sink::File(path) => path@,
        }
    }
}

impl View for RelCfg {
    type V = Directive;

    open spec fn view(&self) -> Directive {
        match self {
            RelCfg::Input(rel) => Directive::Input(*rel),
            RelCfg::Source(source) => Directive::Source(source@),
            RelCfg::Sink(sink) => Directive::Sink(sink@),
        }
    }
}

/// The set of directives that occur in a list.
pub open spec fn directives(list: Seq<RelCfg>) -> Set<Directive> {
    Set::new(|d: Directive| exists|i: int| 0 <= i < list.len() && (#[trigger] list[i])@ == d)
}

/// The mathematical value of a node configuration.
pub open spec fn node_model(cfg: Map<RelId, Vec<RelCfg>>) -> NodeModel {
    Map::new(|rel: RelId| cfg.contains_key(rel), |rel: RelId| directives(cfg[rel]@))
}

/// The mathematical value of a system configuration.
pub open spec fn sys_model(sys: Map<Node, NodeCfg>) -> SysModel {
    Map::new(|node: Node| sys.contains_key(node), |node: Node| node_model(sys[node]@))
}

impl Addr {
    /// An IPv4 endpoint from its four octets, most significant first, and
    /// its port.
    pub fn v4(a: u8, b: u8, c: u8, d: u8, port: u16) -> (addr: Addr)
        ensures
            addr == (Addr::V4 { ip: (a * 0x100_0000 + b * 0x1_0000 + c * 0x100 + d) as u32, port }),
    {
        let ip: u32 = (a as u32) * 0x100_0000 + (b as u32) * 0x1_0000 + (c as u32) * 0x100 + (
        d as u32);
        Addr::V4 { ip, port }
    }
}

} // verus!
