use vstd::prelude::*;
use crate::data::link::Link;
use crate::data::link::Node;
use crate::data::link::Time;

verus! {

/// A place in the run through all the links that a generator may give: the
/// instants from `time_max` down to zero, and at each instant the pairs of
/// nodes below `nb_nodes`, the smaller node first, in increasing order.
#[derive(Debug, Copy, Clone)]
pub struct LinkCursor {
    pub nb_nodes: usize,
    pub time_max: Time,
    pub time: Time,
    pub node1: Node,
    pub node2: Node,
    pub done: bool,
}

impl LinkCursor {
    /// The place is one that the run comes through.
    pub open spec fn wf(&self) -> bool {
        &&& self.nb_nodes < usize::MAX
        &&& self.node1 <= self.nb_nodes
        &&& self.node2 <= self.nb_nodes + 1
    }

    /// What is left of the run, as a measure that every step lowers.
    pub open spec fn left(&self) -> (nat, nat) {
        (
            if self.done {
                0nat
            } else {
                (self.time + 1) as nat
            },
            (self.nb_nodes - self.node1 + 1) as nat,
        )
    }

    /// The place one step further, where this place holds no link: the
    /// next first node, or the instant before, or the end of the run.
    pub open spec fn step(&self) -> LinkCursor {
        if self.node1 < self.nb_nodes {
            LinkCursor { node1: (self.node1 + 1) as usize, node2: (self.node1 + 2) as usize, ..*self }
        } else if self.time == 0 {
            LinkCursor { done: true, ..*self }
        } else {
            LinkCursor { time: (self.time - 1) as Time, node1: 0, node2: 1, ..*self }
        }
    }

    /// The next link of the run from this place on, with the place after
    /// it; nothing where the run is over.
    pub open spec fn pending(&self) -> Option<(Link, LinkCursor)>
        decreases self.left().0, self.left().1,
    {
        if self.done || !self.wf() {
            None
        } else if self.node1 < self.nb_nodes && self.node2 < self.nb_nodes {
            Some(
                (
                    Link { node1: self.node1, node2: self.node2, time: self.time },
                    LinkCursor { node2: (self.node2 + 1) as usize, ..*self },
                ),
            )
        } else {
            self.step().pending()
        }
    }

    /// The start of the run for `nb_nodes` nodes and the instants up to
    /// `time_max`.
    pub fn new(nb_nodes: usize, time_max: Time) -> (cursor: LinkCursor)
        requires
            nb_nodes < usize::MAX,
        ensures
            cursor.wf(),
            cursor == (LinkCursor {
                nb_nodes: nb_nodes,
                time_max: time_max,
                time: time_max,
                node1: 0,
                node2: 1,
                done: false,
            }),
    {
        LinkCursor { nb_nodes: nb_nodes, time_max: time_max, time: time_max, node1: 0, node2: 1, done: false }
    }

    /// The link at this place.
    pub fn current_link(&self) -> (link: Link)
        ensures
            link == (Link { node1: self.node1, node2: self.node2, time: self.time }),
    {
        Link { node1: self.node1, node2: self.node2, time: self.time }
    }

    /// Give the next link of the run and move past it; nothing once the
    /// run is over.
    pub fn next_candidate(&mut self) -> (res: Option<Link>)
        requires
            old(self).wf(),
        ensures
            final(self).wf(),
            match res {
                Some(link) => old(self).pending() == Some((link, *final(self))),
                None => old(self).pending().is_none() && final(self).done,
            },
    {
        while !self.done
            invariant
                self.wf(),
                self.pending() == old(self).pending(),
            decreases self.left().0, self.left().1,
        {
            if self.node1 < self.nb_nodes {
                if self.node2 < self.nb_nodes {
                    let link = self.current_link();
                    self.node2 = self.node2 + 1;
                    return Some(link);
                }
                self.node1 = self.node1 + 1;
                self.node2 = self.node1 + 1;
            } else if self.time == 0 {
                self.done = true;
            } else {
                self.time = self.time - 1;
                self.node1 = 0;
                self.node2 = 1;
            }
        }
        None
    }
}

} // verus!
