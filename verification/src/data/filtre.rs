use vstd::prelude::*;
use crate::data::link::Link;
use crate::data::link::Node;
use crate::data::link::Time;

verus! {

/// A predicate over nodes.
#[derive(Debug)]
pub enum NodeFilter {
    /// Accepts every node.
    All,
    /// Accepts the nodes listed.
    Members(Vec<Node>),
    /// Accepts what both filters accept.
    And(Box<NodeFilter>, Box<NodeFilter>),
}

/// A predicate over instants.
#[derive(Debug)]
pub enum TimeFilter {
    /// Accepts every instant.
    All,
    /// Accepts the instants from `start` to `stop`, both included.
    Range { start: Time, stop: Time },
    /// Accepts what both filters accept.
    And(Box<TimeFilter>, Box<TimeFilter>),
}

/// Whether `node` occurs in `nodes`.
pub fn contains_node(nodes: &Vec<Node>, node: Node) -> (found: bool)
    ensures
        found == nodes@.contains(node),
{
    let mut i: usize = 0;
    while i < nodes.len()
        invariant
            i <= nodes.len(),
            forall|k: int| 0 <= k < i ==> nodes@[k] != node,
        decreases nodes.len() - i,
    {
        if nodes[i] == node {
            return true;
        }
        i = i + 1;
    }
    false
}

impl NodeFilter {
    /// The nodes that the filter lets through.
    pub open spec fn accepts(&self, node: Node) -> bool
        decreases self,
    {
        match self {
            NodeFilter::All => true,
            NodeFilter::Members(nodes) => nodes@.contains(node),
            NodeFilter::And(left, right) => left.accepts(node) && right.accepts(node),
        }
    }

    /// The set of the nodes that the filter lets through.
    pub open spec fn accepted(&self) -> Set<Node> {
        Set::new(|node: Node| self.accepts(node))
    }

    /// Apply the filter to one node.
    pub fn evaluate(&self, node: Node) -> (kept: bool)
        ensures
            kept == self.accepts(node),
        decreases self,
    {
        match self {
            NodeFilter::All => true,
            NodeFilter::Members(nodes) => contains_node(nodes, node),
            NodeFilter::And(left, right) => left.evaluate(node) && right.evaluate(node),
        }
    }
}

impl TimeFilter {
    /// The instants that the filter lets through.
    pub open spec fn accepts(&self, time: Time) -> bool
        decreases self,
    {
        match self {
            TimeFilter::All => true,
            TimeFilter::Range { start, stop } => *start <= time && time <= *stop,
            TimeFilter::And(left, right) => left.accepts(time) && right.accepts(time),
        }
    }

    /// Apply the filter to one instant.
    pub fn evaluate(&self, time: Time) -> (kept: bool)
        ensures
            kept == self.accepts(time),
        decreases self,
    {
        match self {
            TimeFilter::All => true,
            TimeFilter::Range { start, stop } => *start <= time && time <= *stop,
            TimeFilter::And(left, right) => left.evaluate(time) && right.evaluate(time),
        }
    }
}

/// What `combine` computes: both ends of the link pass the node filter and
/// its instant passes the time filter.
pub open spec fn passes(link: Link, nfilter: &NodeFilter, tfilter: &TimeFilter) -> bool {
    nfilter.accepts(link.node1) && nfilter.accepts(link.node2) && tfilter.accepts(link.time)
}

/// Check if a link respects a node filter and a time filter.
pub fn combine(link: Link, nfilter: &NodeFilter, tfilter: &TimeFilter) -> (kept: bool)
    ensures
        kept == passes(link, nfilter, tfilter),
{
    nfilter.evaluate(link.node1) && nfilter.evaluate(link.node2) && tfilter.evaluate(link.time)
}

/// The membership vector of a node list: index `n` holds `true` exactly when
/// `n` occurs in `nodes`.
pub fn node_filter(nodes: &Vec<Node>, size: usize) -> (mask: Vec<bool>)
    ensures
        mask@.len() == size,
        forall|n: int| 0 <= n < size ==> mask@[n] == nodes@.contains(n as usize),
{
    let mut res: Vec<bool> = Vec::with_capacity(size);
    let mut i: usize = 0;
    while i < size
        invariant
            i <= size,
            res@.len() == i,
            forall|n: int| 0 <= n < i ==> res@[n] == nodes@.contains(n as usize),
        decreases size - i,
    {
        res.push(contains_node(nodes, i));
        i = i + 1;
    }
    res
}

} // verus!
