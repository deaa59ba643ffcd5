use std::collections::HashMap;
use vstd::prelude::*;
use crate::data::link::Link;
use crate::data::link::Node;

verus! {

/// The new names given so far: the name of each node met, and the number
/// of names given.
pub struct Names {
    pub ids: Map<Node, Node>,
    pub count: nat,
}

/// No name given yet.
pub open spec fn no_names() -> Names {
    Names { ids: Map::empty(), count: 0 }
}

/// The names once the node `n` has one: a node met before keeps its name,
/// a new node gets the next number.
pub open spec fn named(names: Names, n: Node) -> Names {
    if names.ids.contains_key(n) {
        names
    } else {
        Names { ids: names.ids.insert(n, names.count as usize), count: names.count + 1 }
    }
}

/// The names once both ends of the link have one, the first end first.
pub open spec fn names_step(names: Names, link: Link) -> Names {
    named(named(names, link.node1), link.node2)
}

/// The names after the links of `links`, taken in order.
pub open spec fn names_after(links: Seq<Link>) -> Names
    decreases links.len(),
{
    if links.len() == 0 {
        no_names()
    } else {
        names_step(names_after(links.drop_last()), links.last())
    }
}

/// The link with each end replaced by its name.
pub open spec fn renamed(names: Names, link: Link) -> Link {
    Link { node1: names.ids[link.node1], node2: names.ids[link.node2], time: link.time }
}

/// Some node has the name `id`.
pub open spec fn given(names: Names, id: Node) -> bool {
    exists|n: Node| #[trigger] names.ids.contains_key(n) && names.ids[n] == id
}

/// The names are the numbers below `count`, each given to one node.
pub open spec fn dense(names: Names) -> bool {
    &&& forall|n: Node| #[trigger] names.ids.contains_key(n) ==> names.ids[n] < names.count
    &&& forall|n: Node, m: Node|
        names.ids.contains_key(n) && names.ids.contains_key(m) && n != m ==> #[trigger] names.ids[n]
            != #[trigger] names.ids[m]
    &&& forall|id: Node| id < names.count ==> #[trigger] given(names, id)
}

/// Giving a node its name keeps the names dense.
pub proof fn lemma_named_dense(names: Names, n: Node)
    requires
        dense(names),
        names.count < usize::MAX,
    ensures
        dense(named(names, n)),
        named(names, n).ids.contains_key(n),
        named(names, n).count <= names.count + 1,
        forall|m: Node| #[trigger] names.ids.contains_key(m) ==> named(names, n).ids.contains_key(m) && named(
            names,
            n,
        ).ids[m] == names.ids[m],
{
    let after = named(names, n);
    if !names.ids.contains_key(n) {
        assert forall|id: Node| id < after.count implies #[trigger] given(after, id) by {
            if id < names.count {
                assert(given(names, id));
                let m = choose|m: Node| #[trigger] names.ids.contains_key(m) && names.ids[m] == id;
                assert(after.ids.contains_key(m) && after.ids[m] == id);
            } else {
                assert(after.ids.contains_key(n) && after.ids[n] == id);
            }
        }
    }
}

/// The names given over a stream are dense: the nodes are numbered from
/// zero, without a gap, in the order in which the stream first shows them.
pub proof fn lemma_names_dense(links: Seq<Link>)
    requires
        2 * links.len() < usize::MAX,
    ensures
        dense(names_after(links)),
        names_after(links).count <= 2 * links.len(),
    decreases links.len(),
{
    if links.len() > 0 {
        let before = names_after(links.drop_last());
        lemma_names_dense(links.drop_last());
        lemma_named_dense(before, links.last().node1);
        lemma_named_dense(named(before, links.last().node1), links.last().node2);
    }
}

/// Renames the nodes of the links that it is handed, one link at a time.
/// The links come out with nodes numbered from zero in the order in which
/// they were first met.
pub struct RenameLinkIter {
    pub seens: HashMap<Node, Node>,
    pub count: usize,
}

impl RenameLinkIter {
    /// The names given so far.
    pub open spec fn view(&self) -> Names {
        Names { ids: self.seens@, count: self.count as nat }
    }

    /// A renaming that has met no node.
    pub fn new() -> (iter: RenameLinkIter)
        ensures
            iter@ == no_names(),
    {
        RenameLinkIter { seens: HashMap::new(), count: 0 }
    }

    /// The name of the node, which is given one if it has none.
    fn name_of(&mut self, node: Node) -> (id: Node)
        requires
            old(self).count < usize::MAX,
        ensures
            final(self)@ == named(old(self)@, node),
            final(self)@.ids.contains_key(node),
            id == final(self)@.ids[node],
    {
        broadcast use vstd::std_specs::hash::group_hash_axioms;

        match self.seens.get(&node) {
            Some(id) => *id,
            None => {
                let id = self.count;
                self.seens.insert(node, id);
                self.count = self.count + 1;
                id
            },
        }
    }

    /// Rename the next link of the stream. Not more than `usize::MAX - 2`
    /// names may have been given.
    pub fn rename(&mut self, link: Link) -> (res: Link)
        requires
            old(self).count <= usize::MAX - 2,
        ensures
            final(self)@ == names_step(old(self)@, link),
            res == renamed(final(self)@, link),
    {
        let index1 = self.name_of(link.node1);
        let index2 = self.name_of(link.node2);
        Link { node1: index1, node2: index2, time: link.time }
    }
}

/// The links of the stream, renamed one after the other.
pub open spec fn renamed_stream(links: Seq<Link>) -> Seq<Link> {
    Seq::new(links.len(), |k: int| renamed(names_after(links.take(k + 1)), links[k]))
}

/// Rename the stream: the nodes are numbered from zero in the order in
/// which the stream first shows them. The stream must be short enough for
/// the names to be counted.
pub fn rename(links: &Vec<Link>) -> (res: Vec<Link>)
    requires
        2 * links@.len() < usize::MAX - 2,
    ensures
        res@ == renamed_stream(links@),
{
    let mut iter = RenameLinkIter::new();
    let mut res: Vec<Link> = Vec::with_capacity(links.len());
    let mut i: usize = 0;
    assert(links@.take(0) =~= Seq::empty());
    while i < links.len()
        invariant
            i <= links@.len(),
            2 * links@.len() < usize::MAX - 2,
            iter@ == names_after(links@.take(i as int)),
            iter.count <= 2 * i,
            res@.len() == i,
            forall|k: int| 0 <= k < i ==> #[trigger] res@[k] == renamed(names_after(links@.take(k + 1)), links@[k]),
        decreases links.len() - i,
    {
        proof {
            assert(links@.take(i + 1).drop_last() =~= links@.take(i as int));
            assert(links@.take(i + 1).last() == links@[i as int]);
        }
        let link = iter.rename(links[i]);
        res.push(link);
        i = i + 1;
    }
    assert(res@ =~= renamed_stream(links@));
    res
}

} // verus!
