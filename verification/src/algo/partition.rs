use vstd::prelude::*;
use vstd::multiset::Multiset;
use crate::algo::boolvec::boolvec_to_set;
use crate::algo::boolvec::lemma_truths_below;
use crate::algo::boolvec::truths;
use crate::algo::distance::kept;
use crate::algo::distance::kept_within;
use crate::algo::existence::existence_intervals;
use crate::algo::existence::existence_trace;
use crate::algo::existence::folded;
use crate::algo::existence::segments;
use crate::algo::existence::spans_of;
use crate::algo::reach::delta_reachability_graph;
use crate::algo::reach::lemma_reach_cells;
use crate::algo::reach::reach_after;
use crate::algo::traversal::components_of;
use crate::algo::traversal::connected_component;
use crate::algo::traversal::disjoint_groups;
use crate::algo::traversal::in_groups;
use crate::algo::traversal::lemma_components_disjoint;
use crate::algo::traversal::lemma_components_partition;
use crate::algo::traversal::lemma_components_scc;
use crate::algo::traversal::mutual;
use crate::algo::paths::reaches;
use crate::algo::traversal::lists;
use crate::algo::traversal::nodes_below;
use crate::algo::traversal::placed;
use crate::data::filtre::node_filter;
use crate::data::filtre::NodeFilter;
use crate::data::filtre::TimeFilter;
use crate::data::link::Link;
use crate::data::link::Node;
use crate::data::link::Time;
use crate::data::matrix::degree;
use crate::data::matrix::is_pivot;
use crate::data::matrix::lemma_pivot_unique;
use crate::data::matrix::subset_clique;
use crate::data::matrix::Matrix;

verus! {

/// The membership vector of a node list over `size` nodes.
pub open spec fn members_mask(nodes: Seq<Node>, size: nat) -> Seq<bool> {
    Seq::new(size, |n: int| nodes.contains(n as usize))
}

/// The node that `get_max_deg_node` picks among the nodes of the set.
pub open spec fn pivot(m: Seq<Seq<Time>>, nodes: Set<Node>) -> Node {
    choose|p: Node| is_pivot(m, nodes, p)
}

/// The nodes of `comp` below `size`, but for `p`, in increasing order.
pub open spec fn without(comp: Seq<Node>, p: Node, size: nat) -> Seq<Node> {
    truths(members_mask(comp, size).update(p as int, false))
}

/// What a partition has settled: the components, the residues, and the
/// subsets of at most one node, which it drops.
pub struct Parts {
    pub components: Seq<Seq<Node>>,
    pub restes: Seq<Seq<Node>>,
    pub dropped: Seq<Seq<Node>>,
}

/// What becomes of the cuts of one subset: the subsets to refine further,
/// in the order in which they are put on the stack, the residues, and the
/// subsets dropped.
pub struct Spread {
    pub pushed: Seq<Seq<Node>>,
    pub restes: Seq<Seq<Node>>,
    pub dropped: Seq<Seq<Node>>,
}

/// Deal with the cuts of a subset of `full` nodes, in order. A cut smaller
/// than the subset is refined further. A cut as large as the subset did not
/// split: the upper policy keeps it as a residue; the lower policy takes
/// its pivot out of it and refines the rest and the pivot by themselves,
/// and drops a cut of a single node.
pub open spec fn spread(m: Seq<Seq<Time>>, upper: bool, full: nat, cuts: Seq<Seq<Node>>) -> Spread
    decreases cuts.len(),
{
    if cuts.len() == 0 {
        Spread { pushed: Seq::empty(), restes: Seq::empty(), dropped: Seq::empty() }
    } else {
        let before = spread(m, upper, full, cuts.drop_last());
        let comp = cuts.last();
        if comp.len() != full {
            Spread { pushed: before.pushed.push(comp), ..before }
        } else if upper {
            Spread { restes: before.restes.push(comp), ..before }
        } else if comp.len() > 1 {
            let p = pivot(m, comp.to_set());
            Spread { pushed: before.pushed.push(without(comp, p, m.len())).push(seq![p]), ..before }
        } else {
            Spread { dropped: before.dropped.push(comp), ..before }
        }
    }
}

/// The nodes of all the groups, each as often as it occurs.
pub open spec fn bag(groups: Seq<Seq<Node>>) -> Multiset<Node>
    decreases groups.len(),
{
    if groups.len() == 0 {
        Multiset::empty()
    } else {
        bag(groups.drop_last()).add(groups.last().to_multiset())
    }
}

/// The work that a subset of `len` nodes stands for.
pub open spec fn weight(len: nat) -> nat {
    if len == 0 {
        0
    } else {
        (2 * len - 1) as nat
    }
}

/// The work that the subsets of a stack stand for.
pub open spec fn load(stack: Seq<Seq<Node>>) -> nat
    decreases stack.len(),
{
    if stack.len() == 0 {
        0
    } else {
        load(stack.drop_last()) + weight(stack.last().len())
    }
}

/// The load of two stacks put together is the sum of their loads.
pub proof fn lemma_load_concat(a: Seq<Seq<Node>>, b: Seq<Seq<Node>>)
    ensures
        load(a + b) == load(a) + load(b),
    decreases b.len(),
{
    if b.len() == 0 {
        assert(a + b =~= a);
    } else {
        assert((a + b).drop_last() =~= a + b.drop_last());
        assert((a + b).last() == b.last());
        lemma_load_concat(a, b.drop_last());
    }
}

/// The bag of two families put together is the sum of their bags.
pub proof fn lemma_bag_concat(a: Seq<Seq<Node>>, b: Seq<Seq<Node>>)
    ensures
        bag(a + b) =~= bag(a).add(bag(b)),
    decreases b.len(),
{
    if b.len() == 0 {
        assert(a + b =~= a);
    } else {
        assert((a + b).drop_last() =~= a + b.drop_last());
        assert((a + b).last() == b.last());
        lemma_bag_concat(a, b.drop_last());
    }
}

/// In a family of disjoint groups a node counts once if it stands in a
/// group, and not at all otherwise.
pub proof fn lemma_bag_count(groups: Seq<Seq<Node>>, filter: Seq<bool>, v: Node)
    requires
        disjoint_groups(groups, filter),
    ensures
        bag(groups).count(v) == (if in_groups(groups, v as int) {
            1nat
        } else {
            0nat
        }),
    decreases groups.len(),
{
    broadcast use vstd::seq_lib::group_to_multiset_ensures;

    if groups.len() > 0 {
        let init = groups.drop_last();
        let last = groups.last();
        let li = groups.len() - 1;
        assert forall|gi: int, i: int| placed(init, gi, i) implies placed(groups, gi, i) && init[gi][i]
            == groups[gi][i] by {
        }
        assert(disjoint_groups(init, filter)) by {
            assert forall|gi: int, i: int| placed(init, gi, i) implies (#[trigger] init[gi][i]) < filter.len()
                && filter[init[gi][i] as int] by {
                assert(placed(groups, gi, i));
                assert(init[gi][i] == groups[gi][i]);
            }
            assert forall|gi: int, i: int, gj: int, j: int|
                placed(init, gi, i) && placed(init, gj, j) && (gi != gj || i != j) implies #[trigger] init[gi][i]
                != #[trigger] init[gj][j] by {
                assert(placed(groups, gi, i) && placed(groups, gj, j));
                assert(init[gi][i] == groups[gi][i]);
                assert(init[gj][j] == groups[gj][j]);
            }
            assert forall|gi: int| 0 <= gi < init.len() implies (#[trigger] init[gi]).len() > 0 by {
                assert(init[gi] == groups[gi]);
            }
        }
        lemma_bag_count(init, filter, v);
        assert(last.no_duplicates()) by {
            assert forall|i: int, j: int| 0 <= i < last.len() && 0 <= j < last.len() && i != j implies last[i]
                != last[j] by {
                assert(placed(groups, li, i) && placed(groups, li, j));
                assert(groups[li][i] != groups[li][j]);
            }
        }
        last.lemma_multiset_has_no_duplicates();
        if in_groups(init, v as int) {
            let (gi, i) = choose|gi: int, i: int| placed(init, gi, i) && #[trigger] init[gi][i] == v as int;
            assert(placed(groups, gi, i) && groups[gi][i] == v);
            if last.contains(v) {
                let j = choose|j: int| 0 <= j < last.len() && last[j] == v;
                assert(placed(groups, li, j));
                assert(groups[li][j] == v);
                assert(groups[gi][i] != groups[li][j]);
            }
            assert(last.to_multiset().count(v) == 0);
        } else if last.contains(v) {
            let j = choose|j: int| 0 <= j < last.len() && last[j] == v;
            assert(placed(groups, li, j) && groups[li][j] == v);
            assert(last.to_multiset().count(v) == 1);
        } else {
            assert(last.to_multiset().count(v) == 0);
            if in_groups(groups, v as int) {
                let (gi, i) = choose|gi: int, i: int| placed(groups, gi, i) && #[trigger] groups[gi][i] == v as int;
                if gi < li {
                    assert(placed(init, gi, i) && init[gi][i] == v);
                } else {
                    assert(last[i] == v);
                }
            }
        }
    }
}

/// A node list without duplicates counts each of its nodes once.
pub proof fn lemma_count_once(nodes: Seq<Node>, v: Node)
    requires
        nodes.no_duplicates(),
    ensures
        nodes.to_multiset().count(v) == (if nodes.contains(v) {
            1nat
        } else {
            0nat
        }),
{
    broadcast use vstd::seq_lib::group_to_multiset_ensures;

    nodes.lemma_multiset_has_no_duplicates();
}

/// Among the nodes of the set below `k`, where there is one, some node has
/// the largest degree and is the smallest node to have it.
pub proof fn lemma_pivot_below(m: Seq<Seq<Time>>, nodes: Set<Node>, k: Node) -> (p: Node)
    requires
        exists|x: Node| x < k && nodes.contains(x),
    ensures
        p < k,
        nodes.contains(p),
        forall|x: Node| x < k && #[trigger] nodes.contains(x) ==> degree(m, nodes, x) <= degree(m, nodes, p),
        forall|x: Node| x < p && #[trigger] nodes.contains(x) ==> degree(m, nodes, x) < degree(m, nodes, p),
    decreases k,
{
    let j = (k - 1) as Node;
    if exists|x: Node| x < j && nodes.contains(x) {
        let q = lemma_pivot_below(m, nodes, j);
        if nodes.contains(j) && degree(m, nodes, j) > degree(m, nodes, q) {
            j
        } else {
            q
        }
    } else {
        let x = choose|x: Node| x < k && nodes.contains(x);
        assert(x == j);
        j
    }
}

/// A set that holds a node of the table has a pivot.
pub proof fn lemma_pivot(m: Seq<Seq<Time>>, nodes: Set<Node>)
    requires
        m.len() <= usize::MAX,
        exists|x: Node| x < m.len() && nodes.contains(x),
    ensures
        is_pivot(m, nodes, pivot(m, nodes)),
{
    let p = lemma_pivot_below(m, nodes, m.len() as usize);
    assert(is_pivot(m, nodes, p));
}

/// Taking a node out of a list of distinct nodes leaves the other nodes,
/// each once, in increasing order.
pub proof fn lemma_without(comp: Seq<Node>, p: Node, size: nat)
    requires
        size <= usize::MAX,
        comp.no_duplicates(),
        nodes_below(comp, size as usize),
        comp.contains(p),
    ensures
        without(comp, p, size).to_multiset().insert(p) =~= comp.to_multiset(),
        without(comp, p, size).len() + 1 == comp.len(),
        without(comp, p, size).no_duplicates(),
        nodes_below(without(comp, p, size), size as usize),
        !without(comp, p, size).contains(p),
{
    broadcast use vstd::seq_lib::group_to_multiset_ensures;
    broadcast use vstd::multiset::group_multiset_axioms;
    broadcast use vstd::multiset::group_multiset_properties;

    let mask = members_mask(comp, size).update(p as int, false);
    let w = without(comp, p, size);
    lemma_truths_below(mask, size as int);
    assert(w.no_duplicates());
    assert forall|v: Node| w.contains(v) <==> (comp.contains(v) && v != p) by {
        if w.contains(v) {
            let k = choose|k: int| 0 <= k < w.len() && w[k] == v;
            assert(mask[w[k] as int]);
        }
        if comp.contains(v) && v != p {
            let k = choose|k: int| 0 <= k < comp.len() && comp[k] == v;
            assert(comp[k] < size);
            assert(mask[v as int]);
        }
    }
    assert forall|v: Node| w.to_multiset().insert(p).count(v) == comp.to_multiset().count(v) by {
        lemma_count_once(w, v);
        lemma_count_once(comp, v);
    }
    assert(w.to_multiset().insert(p) =~= comp.to_multiset());
    assert(w.to_multiset().insert(p).len() == w.len() + 1);
}

/// The total length of disjoint groups of nodes taken from a list is at
/// most the length of the list.
pub proof fn lemma_groups_fit(groups: Seq<Seq<Node>>, s: Seq<Node>, size: nat)
    requires
        disjoint_groups(groups, members_mask(s, size)),
    ensures
        bag(groups).subset_of(s.to_multiset()),
        bag(groups).len() <= s.len(),
{
    broadcast use vstd::seq_lib::group_to_multiset_ensures;
    broadcast use vstd::multiset::group_multiset_axioms;

    let mask = members_mask(s, size);
    assert forall|v: Node| bag(groups).count(v) <= s.to_multiset().count(v) by {
        lemma_bag_count(groups, mask, v);
        if in_groups(groups, v as int) {
            let (gi, i) = choose|gi: int, i: int| placed(groups, gi, i) && #[trigger] groups[gi][i] == v as int;
            assert(mask[groups[gi][i] as int]);
            assert(s.contains(v));
        }
    }
    assert(s.to_multiset().sub(bag(groups)).len() == s.to_multiset().len() - bag(groups).len());
}

/// The bag of a family holds as many nodes as its groups together, and a
/// family of groups that are not empty weighs twice that, less one for each
/// group.
pub proof fn lemma_load_of_groups(groups: Seq<Seq<Node>>)
    requires
        forall|gi: int| 0 <= gi < groups.len() ==> (#[trigger] groups[gi]).len() > 0,
    ensures
        load(groups) + groups.len() == 2 * bag(groups).len(),
        forall|gi: int| 0 <= gi < groups.len() ==> (#[trigger] groups[gi]).len() <= bag(groups).len(),
        groups.len() == 0 ==> bag(groups).len() == 0,
        groups.len() == 1 ==> bag(groups).len() == groups[0].len(),
    decreases groups.len(),
{
    broadcast use vstd::seq_lib::group_to_multiset_ensures;
    broadcast use vstd::multiset::group_multiset_axioms;

    if groups.len() > 0 {
        let init = groups.drop_last();
        assert forall|gi: int| 0 <= gi < init.len() implies (#[trigger] init[gi]).len() > 0 by {
            assert(init[gi] == groups[gi]);
        }
        lemma_load_of_groups(init);
        assert forall|gi: int| 0 <= gi < groups.len() implies (#[trigger] groups[gi]).len() <= bag(groups).len() by {
            if gi < init.len() {
                assert(init[gi] == groups[gi]);
            }
        }
    }
}

/// The subsets that the cuts of a subset put on the stack weigh less than
/// the subset itself.
pub proof fn lemma_spread_load(m: Seq<Seq<Time>>, upper: bool, s: Seq<Node>, cuts: Seq<Seq<Node>>)
    requires
        m.len() <= usize::MAX,
        s.len() > 0,
        disjoint_groups(cuts, members_mask(s, m.len())),
    ensures
        load(spread(m, upper, s.len(), cuts).pushed) < weight(s.len()),
{
    broadcast use vstd::seq_lib::group_to_multiset_ensures;
    broadcast use vstd::multiset::group_multiset_axioms;

    lemma_groups_fit(cuts, s, m.len());
    lemma_load_of_groups(cuts);
    if exists|gi: int| 0 <= gi < cuts.len() && (#[trigger] cuts[gi]).len() == s.len() {
        let gi = choose|gi: int| 0 <= gi < cuts.len() && (#[trigger] cuts[gi]).len() == s.len();
        // A cut as long as the subset leaves room for no other.
        if cuts.len() >= 2 {
            let init = cuts.drop_last();
            assert forall|gj: int| 0 <= gj < init.len() implies (#[trigger] init[gj]).len() > 0 by {
                assert(init[gj] == cuts[gj]);
            }
            lemma_load_of_groups(init);
            if gi < init.len() {
                assert(init[gi] == cuts[gi]);
                assert(cuts.last().len() > 0);
            } else {
                assert(init[0] == cuts[0]);
                assert(init[0].len() <= bag(init).len());
            }
            assert(false);
        }
        assert(cuts.len() == 1);
        let comp = cuts[0];
        assert(cuts.drop_last() =~= Seq::empty());
        assert(cuts.last() == comp);
        let before = spread(m, upper, s.len(), cuts.drop_last());
        assert(before.pushed =~= Seq::empty());
        if !upper && comp.len() > 1 {
            let mask = members_mask(s, m.len());
            let p = pivot(m, comp.to_set());
            assert(placed(cuts, 0, 0));
            assert(cuts[0][0] < mask.len());
            assert(comp.to_set().contains(comp[0]));
            lemma_pivot(m, comp.to_set());
            assert(comp.no_duplicates()) by {
                assert forall|i: int, j: int| 0 <= i < comp.len() && 0 <= j < comp.len() && i != j implies comp[i]
                    != comp[j] by {
                    assert(placed(cuts, 0, i) && placed(cuts, 0, j));
                    assert(cuts[0][i] != cuts[0][j]);
                }
            }
            assert(nodes_below(comp, m.len() as usize)) by {
                assert forall|k: int| 0 <= k < comp.len() implies (#[trigger] comp[k]) < m.len() as usize by {
                    assert(placed(cuts, 0, k));
                    assert(cuts[0][k] < mask.len());
                }
            }
            lemma_without(comp, p, m.len());
            let rest = without(comp, p, m.len());
            let pushed = spread(m, upper, s.len(), cuts).pushed;
            assert(pushed =~= seq![rest, seq![p]]);
            assert(pushed.drop_last() =~= seq![rest]);
            assert(seq![rest].drop_last() =~= Seq::<Seq<Node>>::empty());
            assert(load(seq![rest]) == weight(rest.len())) by {
                assert(load(seq![rest].drop_last()) == 0);
            }
            assert(load(pushed) == weight(rest.len()) + weight(1));
            assert(load(pushed) < weight(s.len()));
        } else {
            assert(spread(m, upper, s.len(), cuts).pushed =~= Seq::empty());
            assert(load(spread(m, upper, s.len(), cuts).pushed) == 0);
        }
    } else {
        lemma_spread_small(m, upper, s.len(), cuts);
        let total = bag(cuts).len();
        assert(load(cuts) + cuts.len() == 2 * total);
        assert(total <= s.len());
        assert(weight(s.len()) == 2 * s.len() - 1);
        if cuts.len() == 0 {
            assert(total == 0);
        } else if cuts.len() == 1 {
            assert(cuts[0].len() != s.len());
            assert(total == cuts[0].len());
            assert(total < s.len());
        }
        assert(load(cuts) < weight(s.len()));
    }
}

/// Cuts that are all smaller than the subset are all put on the stack.
pub proof fn lemma_spread_small(m: Seq<Seq<Time>>, upper: bool, full: nat, cuts: Seq<Seq<Node>>)
    requires
        forall|gi: int| 0 <= gi < cuts.len() ==> (#[trigger] cuts[gi]).len() != full,
    ensures
        spread(m, upper, full, cuts).pushed == cuts,
        spread(m, upper, full, cuts).restes.len() == 0,
        spread(m, upper, full, cuts).dropped.len() == 0,
    decreases cuts.len(),
{
    if cuts.len() > 0 {
        let init = cuts.drop_last();
        assert forall|gi: int| 0 <= gi < init.len() implies (#[trigger] init[gi]).len() != full by {
            assert(init[gi] == cuts[gi]);
        }
        lemma_spread_small(m, upper, full, init);
        assert(cuts.last() == cuts[cuts.len() - 1]);
        assert(init.push(cuts.last()) =~= cuts);
    } else {
        assert(spread(m, upper, full, cuts).pushed =~= cuts);
    }
}

/// A list that holds no node is a clique.
pub proof fn lemma_empty_clique(m: Seq<Seq<Time>>, s: Seq<Node>)
    requires
        s.len() == 0,
    ensures
        subset_clique(m, s.to_set()),
{
}

/// A partition that has settled nothing.
pub open spec fn no_parts() -> Parts {
    Parts { components: Seq::empty(), restes: Seq::empty(), dropped: Seq::empty() }
}

/// What the partition settles once the stack of pending subsets is used up.
/// The subset on top is taken off. A clique of several nodes is a
/// component; a clique of at most one node is dropped. Any other subset is
/// cut into its strongly connected components, which `spread` deals with.
pub open spec fn refine(
    m: Seq<Seq<Time>>,
    order: Seq<Node>,
    upper: bool,
    stack: Seq<Seq<Node>>,
    parts: Parts,
) -> Parts
    decreases load(stack), stack.len(),
    when m.len() <= usize::MAX
{
    if stack.len() == 0 {
        parts
    } else {
        let s = stack.last();
        let rest = stack.drop_last();
        if subset_clique(m, s.to_set()) {
            if s.len() > 1 {
                refine(m, order, upper, rest, Parts { components: parts.components.push(s), ..parts })
            } else {
                refine(m, order, upper, rest, Parts { dropped: parts.dropped.push(s), ..parts })
            }
        } else {
            let cuts = components_of(m, order, members_mask(s, m.len()));
            let dealt = spread(m, upper, s.len(), cuts);
            proof {
                lemma_refine_step(m, order, upper, stack);
            }
            refine(
                m,
                order,
                upper,
                rest + dealt.pushed,
                Parts {
                    components: parts.components,
                    restes: parts.restes + dealt.restes,
                    dropped: parts.dropped + dealt.dropped,
                },
            )
        }
    }
}

/// Cutting the subset on top of the stack leaves a lighter stack.
pub proof fn lemma_refine_step(m: Seq<Seq<Time>>, order: Seq<Node>, upper: bool, stack: Seq<Seq<Node>>)
    requires
        m.len() <= usize::MAX,
        stack.len() > 0,
        !subset_clique(m, stack.last().to_set()),
    ensures
        stack.last().len() > 0,
        disjoint_groups(
            components_of(m, order, members_mask(stack.last(), m.len())),
            members_mask(stack.last(), m.len()),
        ),
        load(
            stack.drop_last() + spread(
                m,
                upper,
                stack.last().len(),
                components_of(m, order, members_mask(stack.last(), m.len())),
            ).pushed,
        ) < load(stack),
{
    let s = stack.last();
    if s.len() == 0 {
        lemma_empty_clique(m, s);
    }
    let mask = members_mask(s, m.len());
    let cuts = components_of(m, order, mask);
    lemma_components_disjoint(m, order, mask);
    lemma_spread_load(m, upper, s, cuts);
    lemma_load_concat(stack.drop_last(), spread(m, upper, s.len(), cuts).pushed);
}

/// A copy of a node list.
fn copy_nodes(nodes: &Vec<Node>) -> (copy: Vec<Node>)
    ensures
        copy@ == nodes@,
{
    let mut copy: Vec<Node> = Vec::with_capacity(nodes.len());
    let mut i: usize = 0;
    while i < nodes.len()
        invariant
            i <= nodes@.len(),
            copy@ == nodes@.take(i as int),
        decreases nodes.len() - i,
    {
        copy.push(nodes[i]);
        assert(copy@ =~= nodes@.take(i + 1));
        i = i + 1;
    }
    assert(nodes@.take(nodes@.len() as int) =~= nodes@);
    copy
}

/// Split the candidate subset into components, which are cliques of the
/// reachability graph with more than one node, and residues, which are
/// strongly connected blocks that are no cliques. The upper policy keeps a block
/// that does not split as a residue; the lower policy takes its pivot out
/// and goes on with the rest. Subsets of at most one node are dropped.
pub fn partition(reach_graph: &Matrix<Time>, order: &Vec<Node>, candidate: &Vec<Node>, upper: bool) -> (parts: (
    Vec<Vec<Node>>,
    Vec<Vec<Node>>,
))
    requires
        reach_graph.wf(),
        reach_graph.square(),
        nodes_below(order@, reach_graph.width),
    ensures
        lists(parts.0@) == refine(reach_graph@, order@, upper, seq![candidate@], no_parts()).components,
        lists(parts.1@) == refine(reach_graph@, order@, upper, seq![candidate@], no_parts()).restes,
        all_cliques(reach_graph@, lists(parts.0@)),
        no_clique(reach_graph@, lists(parts.1@)),
        all_blocks(reach_graph@, lists(parts.1@)),
        !upper ==> parts.1@.len() == 0,
        candidate@.no_duplicates() && nodes_below(candidate@, reach_graph.width) && (forall|v: Node|
            v < reach_graph.width ==> #[trigger] order@.contains(v)) ==> bag(lists(parts.0@)).add(
            bag(lists(parts.1@)),
        ).subset_of(candidate@.to_multiset()),
{
    let size = reach_graph.width;
    let mut components: Vec<Vec<Node>> = Vec::new();
    let mut reste: Vec<Vec<Node>> = Vec::new();
    let mut stack: Vec<Vec<Node>> = Vec::new();
    let ghost mut dropped: Seq<Seq<Node>> = Seq::empty();
    let ghost m = reach_graph@;
    let ghost target = refine(m, order@, upper, seq![candidate@], no_parts());
    stack.push(copy_nodes(candidate));
    assert(lists(stack@) =~= seq![candidate@]);
    assert(lists(components@) =~= Seq::empty());
    assert(lists(reste@) =~= Seq::empty());
    while stack.len() > 0
        invariant
            reach_graph.wf(),
            reach_graph.square(),
            size == reach_graph.width,
            m == reach_graph@,
            m.len() == size,
            nodes_below(order@, size),
            refine(
                m,
                order@,
                upper,
                lists(stack@),
                (Parts { components: lists(components@), restes: lists(reste@), dropped: dropped }),
            ) == target,
        decreases load(lists(stack@)), stack@.len(),
    {
        let ghost pending = lists(stack@);
        let ghost settled = Parts { components: lists(components@), restes: lists(reste@), dropped: dropped };
        let filter = stack.pop().unwrap();
        proof {
            assert(lists(stack@) =~= pending.drop_last());
            assert(filter@ == pending.last());
        }
        let members = NodeFilter::Members(copy_nodes(&filter));
        assert(members.accepted() =~= filter@.to_set());
        if reach_graph.is_subset_clique(&members) {
            if filter.len() > 1 {
                let ghost before = lists(components@);
                components.push(filter);
                assert(lists(components@) =~= before.push(filter@));
            } else {
                proof {
                    dropped = dropped.push(filter@);
                }
            }
        } else {
            let mask = node_filter(&filter, size);
            assert(mask@ =~= members_mask(filter@, m.len()));
            let cuts = connected_component(reach_graph, order, &mask);
            let ghost groups = lists(cuts@);
            let ghost full = filter@.len();
            let ghost rest = lists(stack@);
            let ghost restes = lists(reste@);
            let ghost gone = dropped;
            proof {
                lemma_refine_step(m, order@, upper, pending);
                assert(groups.take(0) =~= Seq::empty());
                assert(rest + Seq::empty() =~= rest);
                assert(restes + Seq::empty() =~= restes);
                assert(gone + Seq::empty() =~= gone);
            }
            let mut k: usize = 0;
            while k < cuts.len()
                invariant
                    k <= cuts@.len(),
                    reach_graph.wf(),
                    reach_graph.square(),
                    size == reach_graph.width,
                    m == reach_graph@,
                    m.len() == size,
                    groups == lists(cuts@),
                    full == filter@.len(),
                    disjoint_groups(groups, members_mask(filter@, m.len())),
                    lists(stack@) == rest + spread(m, upper, full, groups.take(k as int)).pushed,
                    lists(reste@) == restes + spread(m, upper, full, groups.take(k as int)).restes,
                    dropped == gone + spread(m, upper, full, groups.take(k as int)).dropped,
                decreases cuts.len() - k,
            {
                let comp = copy_nodes(&cuts[k]);
                let ghost before = spread(m, upper, full, groups.take(k as int));
                proof {
                    assert(groups.take(k + 1).drop_last() =~= groups.take(k as int));
                    assert(groups.take(k + 1).last() == comp@);
                    assert(groups[k as int] == comp@);
                }
                let ghost after = spread(m, upper, full, groups.take(k + 1));
                if comp.len() == filter.len() {
                    if upper {
                        let ghost held = lists(reste@);
                        reste.push(comp);
                        assert(lists(reste@) =~= held.push(comp@));
                        assert(after.restes == before.restes.push(comp@));
                        assert(lists(reste@) =~= restes + after.restes);
                    } else if comp.len() > 1 {
                        let chosen = NodeFilter::Members(copy_nodes(&comp));
                        assert(chosen.accepted() =~= comp@.to_set());
                        proof {
                            assert(placed(groups, k as int, 0));
                            assert(groups[k as int][0] < size);
                            assert(comp@.to_set().contains(comp@[0]));
                            lemma_pivot(m, comp@.to_set());
                        }
                        let mnode = reach_graph.get_max_deg_node(&chosen);
                        proof {
                            lemma_pivot_unique(m, comp@.to_set(), mnode, pivot(m, comp@.to_set()));
                        }
                        let mut rest_mask = node_filter(&comp, size);
                        rest_mask[mnode] = false;
                        assert(rest_mask@ =~= members_mask(comp@, m.len()).update(mnode as int, false));
                        let remainder = boolvec_to_set(&rest_mask);
                        let mut single: Vec<Node> = Vec::new();
                        single.push(mnode);
                        assert(single@ =~= seq![mnode]);
                        let ghost held = lists(stack@);
                        stack.push(remainder);
                        stack.push(single);
                        assert(lists(stack@) =~= held.push(remainder@).push(single@));
                        assert(after.pushed == before.pushed.push(remainder@).push(single@));
                        assert(lists(stack@) =~= rest + after.pushed);
                    } else {
                        proof {
                            dropped = dropped.push(comp@);
                            assert(after.dropped == before.dropped.push(comp@));
                            assert(dropped =~= gone + after.dropped);
                        }
                    }
                } else {
                    let ghost held = lists(stack@);
                    stack.push(comp);
                    assert(lists(stack@) =~= held.push(comp@));
                    assert(after.pushed == before.pushed.push(comp@));
                    assert(lists(stack@) =~= rest + after.pushed);
                }
                k = k + 1;
            }
            assert(groups.take(cuts@.len() as int) =~= groups);
        }
    }
    proof {
        broadcast use vstd::multiset::group_multiset_axioms;

        assert(lists(stack@) =~= Seq::empty());
        lemma_refine_kinds(m, order@, upper, seq![candidate@], no_parts());
        if candidate@.no_duplicates() && nodes_below(candidate@, reach_graph.width) && (forall|v: Node|
            v < reach_graph.width ==> #[trigger] order@.contains(v)) {
            lemma_partition_exact(m, order@, candidate@, upper);
        }
    }
    (components, reste)
}

/// Disjoint groups stay disjoint when the last one is left out.
pub proof fn lemma_disjoint_drop_last(groups: Seq<Seq<Node>>, filter: Seq<bool>)
    requires
        disjoint_groups(groups, filter),
        groups.len() > 0,
    ensures
        disjoint_groups(groups.drop_last(), filter),
{
    let init = groups.drop_last();
    assert forall|gi: int, i: int| placed(init, gi, i) implies (#[trigger] init[gi][i]) < filter.len()
        && filter[init[gi][i] as int] by {
        assert(placed(groups, gi, i));
        assert(init[gi][i] == groups[gi][i]);
    }
    assert forall|gi: int, i: int, gj: int, j: int|
        placed(init, gi, i) && placed(init, gj, j) && (gi != gj || i != j) implies #[trigger] init[gi][i]
        != #[trigger] init[gj][j] by {
        assert(placed(groups, gi, i) && placed(groups, gj, j));
        assert(init[gi][i] == groups[gi][i]);
        assert(init[gj][j] == groups[gj][j]);
    }
    assert forall|gi: int| 0 <= gi < init.len() implies (#[trigger] init[gi]).len() > 0 by {
        assert(init[gi] == groups[gi]);
    }
}

/// Each of a family of disjoint groups holds distinct nodes of the filter.
pub proof fn lemma_group_sound(groups: Seq<Seq<Node>>, filter: Seq<bool>, gi: int)
    requires
        disjoint_groups(groups, filter),
        0 <= gi < groups.len(),
        filter.len() <= usize::MAX,
    ensures
        groups[gi].no_duplicates(),
        nodes_below(groups[gi], filter.len() as usize),
        groups[gi].len() > 0,
{
    let g = groups[gi];
    assert forall|i: int, j: int| 0 <= i < g.len() && 0 <= j < g.len() && i != j implies g[i] != g[j] by {
        assert(placed(groups, gi, i) && placed(groups, gi, j));
        assert(groups[gi][i] != groups[gi][j]);
    }
    assert forall|k: int| 0 <= k < g.len() implies (#[trigger] g[k]) < filter.len() as usize by {
        assert(placed(groups, gi, k));
        assert(groups[gi][k] < filter.len());
    }
}

/// One more group adds its nodes to the bag.
pub proof fn lemma_bag_push(groups: Seq<Seq<Node>>, g: Seq<Node>)
    ensures
        bag(groups.push(g)) == bag(groups).add(g.to_multiset()),
{
    assert(groups.push(g).drop_last() =~= groups);
}

/// Every list of the family holds distinct nodes below `size`.
pub open spec fn sound(family: Seq<Seq<Node>>, size: usize) -> bool {
    forall|k: int| 0 <= k < family.len() ==> (#[trigger] family[k]).no_duplicates() && nodes_below(family[k], size)
}

/// Every list of the family holds at most one node.
pub open spec fn small(family: Seq<Seq<Node>>) -> bool {
    forall|k: int| 0 <= k < family.len() ==> (#[trigger] family[k]).len() <= 1
}

/// Dealing with the cuts loses no node and makes none up: what is put on
/// the stack, kept as residue or dropped holds the nodes of the cuts, each
/// as often.
pub proof fn lemma_spread_bag(m: Seq<Seq<Time>>, upper: bool, full: nat, cuts: Seq<Seq<Node>>, mask: Seq<bool>)
    requires
        m.len() <= usize::MAX,
        mask.len() == m.len(),
        disjoint_groups(cuts, mask),
    ensures
        bag(spread(m, upper, full, cuts).pushed).add(bag(spread(m, upper, full, cuts).restes)).add(
            bag(spread(m, upper, full, cuts).dropped),
        ) =~= bag(cuts),
        sound(spread(m, upper, full, cuts).pushed, m.len() as usize),
        small(spread(m, upper, full, cuts).dropped),
    decreases cuts.len(),
{
    broadcast use vstd::seq_lib::group_to_multiset_ensures;
    broadcast use vstd::multiset::group_multiset_axioms;
    broadcast use vstd::multiset::group_multiset_properties;

    let after = spread(m, upper, full, cuts);
    if cuts.len() > 0 {
        let init = cuts.drop_last();
        let comp = cuts.last();
        let before = spread(m, upper, full, init);
        lemma_disjoint_drop_last(cuts, mask);
        lemma_spread_bag(m, upper, full, init, mask);
        lemma_group_sound(cuts, mask, cuts.len() - 1);
        if comp.len() != full {
            lemma_bag_push(before.pushed, comp);
            assert forall|k: int| 0 <= k < after.pushed.len() implies (#[trigger] after.pushed[k]).no_duplicates()
                && nodes_below(after.pushed[k], m.len() as usize) by {
                if k < before.pushed.len() {
                    assert(after.pushed[k] == before.pushed[k]);
                }
            }
        } else if upper {
            lemma_bag_push(before.restes, comp);
        } else if comp.len() > 1 {
            let p = pivot(m, comp.to_set());
            assert(comp.to_set().contains(comp[0]));
            lemma_pivot(m, comp.to_set());
            lemma_without(comp, p, m.len());
            let rest = without(comp, p, m.len());
            lemma_bag_push(before.pushed, rest);
            lemma_bag_push(before.pushed.push(rest), seq![p]);
            assert(seq![p] =~= Seq::<Node>::empty().push(p));
            assert(seq![p].to_multiset() =~= Multiset::<Node>::empty().insert(p));
            assert(rest.to_multiset().add(seq![p].to_multiset()) =~= comp.to_multiset());
            assert forall|k: int| 0 <= k < after.pushed.len() implies (#[trigger] after.pushed[k]).no_duplicates()
                && nodes_below(after.pushed[k], m.len() as usize) by {
                if k < before.pushed.len() {
                    assert(after.pushed[k] == before.pushed[k]);
                } else if k == before.pushed.len() {
                    assert(after.pushed[k] == rest);
                } else {
                    assert(after.pushed[k] == seq![p]);
                }
            }
        } else {
            lemma_bag_push(before.dropped, comp);
            assert forall|k: int| 0 <= k < after.dropped.len() implies (#[trigger] after.dropped[k]).len() <= 1 by {
                if k < before.dropped.len() {
                    assert(after.dropped[k] == before.dropped[k]);
                }
            }
        }
    }
}

/// The cuts of a list of distinct nodes hold the nodes of the list, each
/// once, where `order` names every node of the graph.
pub proof fn lemma_cuts_bag(m: Seq<Seq<Time>>, order: Seq<Node>, s: Seq<Node>)
    requires
        m.len() <= usize::MAX,
        s.no_duplicates(),
        nodes_below(s, m.len() as usize),
        forall|v: Node| v < m.len() ==> #[trigger] order.contains(v),
    ensures
        bag(components_of(m, order, members_mask(s, m.len()))) =~= s.to_multiset(),
{
    let mask = members_mask(s, m.len());
    let cuts = components_of(m, order, mask);
    lemma_components_partition(m, order, mask);
    assert forall|v: Node| bag(cuts).count(v) == s.to_multiset().count(v) by {
        lemma_bag_count(cuts, mask, v);
        lemma_count_once(s, v);
        if in_groups(cuts, v as int) {
            let (gi, i) = choose|gi: int, i: int| placed(cuts, gi, i) && #[trigger] cuts[gi][i] == v as int;
            assert(mask[cuts[gi][i] as int]);
        }
        if s.contains(v) {
            let k = choose|k: int| 0 <= k < s.len() && s[k] == v;
            assert(s[k] < m.len());
            assert(mask[v as int]);
        }
    }
}

/// The nodes that a partition has settled and dropped, each as often as it
/// occurs.
pub open spec fn settled(parts: Parts) -> Multiset<Node> {
    bag(parts.components).add(bag(parts.restes)).add(bag(parts.dropped))
}

/// Using up the stack loses no node and makes none up: the nodes settled in
/// the end are those settled before and those of the stack, each as often.
pub proof fn lemma_refine_bag(m: Seq<Seq<Time>>, order: Seq<Node>, upper: bool, stack: Seq<Seq<Node>>, parts: Parts)
    requires
        m.len() <= usize::MAX,
        sound(stack, m.len() as usize),
        forall|v: Node| v < m.len() ==> #[trigger] order.contains(v),
    ensures
        settled(refine(m, order, upper, stack, parts)) =~= settled(parts).add(bag(stack)),
    decreases load(stack), stack.len(),
{
    broadcast use vstd::multiset::group_multiset_axioms;

    if stack.len() > 0 {
        let s = stack.last();
        let rest = stack.drop_last();
        assert forall|k: int| 0 <= k < rest.len() implies (#[trigger] rest[k]).no_duplicates() && nodes_below(
            rest[k],
            m.len() as usize,
        ) by {
            assert(rest[k] == stack[k]);
        }
        if subset_clique(m, s.to_set()) {
            if s.len() > 1 {
                let next = Parts { components: parts.components.push(s), ..parts };
                lemma_bag_push(parts.components, s);
                lemma_refine_bag(m, order, upper, rest, next);
            } else {
                let next = Parts { dropped: parts.dropped.push(s), ..parts };
                lemma_bag_push(parts.dropped, s);
                lemma_refine_bag(m, order, upper, rest, next);
            }
        } else {
            let mask = members_mask(s, m.len());
            let cuts = components_of(m, order, mask);
            let dealt = spread(m, upper, s.len(), cuts);
            let next = Parts {
                components: parts.components,
                restes: parts.restes + dealt.restes,
                dropped: parts.dropped + dealt.dropped,
            };
            lemma_refine_step(m, order, upper, stack);
            lemma_spread_bag(m, upper, s.len(), cuts, mask);
            assert(stack[stack.len() - 1] == s);
            lemma_cuts_bag(m, order, s);
            lemma_bag_concat(rest, dealt.pushed);
            lemma_bag_concat(parts.restes, dealt.restes);
            lemma_bag_concat(parts.dropped, dealt.dropped);
            assert forall|k: int| 0 <= k < (rest + dealt.pushed).len() implies (#[trigger] (rest
                + dealt.pushed)[k]).no_duplicates() && nodes_below((rest + dealt.pushed)[k], m.len() as usize) by {
                if k < rest.len() {
                    assert((rest + dealt.pushed)[k] == rest[k]);
                } else {
                    assert((rest + dealt.pushed)[k] == dealt.pushed[k - rest.len()]);
                }
            }
            lemma_refine_bag(m, order, upper, rest + dealt.pushed, next);
        }
    }
}

/// A partition settles every node of the candidate subset exactly once:
/// the components, the residues and the dropped subsets together hold the
/// nodes of the candidate, each once, and nothing else. This holds of a
/// candidate of distinct nodes of the graph, where `order` names every node
/// of the graph.
pub proof fn lemma_partition_exact(m: Seq<Seq<Time>>, order: Seq<Node>, candidate: Seq<Node>, upper: bool)
    requires
        m.len() <= usize::MAX,
        candidate.no_duplicates(),
        nodes_below(candidate, m.len() as usize),
        forall|v: Node| v < m.len() ==> #[trigger] order.contains(v),
    ensures
        settled(refine(m, order, upper, seq![candidate], no_parts())) =~= candidate.to_multiset(),
{
    broadcast use vstd::multiset::group_multiset_axioms;

    let stack = seq![candidate];
    assert(stack[0] == candidate);
    lemma_refine_bag(m, order, upper, stack, no_parts());
    assert(stack.drop_last() =~= Seq::empty());
    assert(bag(stack) =~= candidate.to_multiset());
}

/// A cut as long as the subset that it was cut from holds the very nodes
/// of that subset.
pub proof fn lemma_full_cut(cuts: Seq<Seq<Node>>, s: Seq<Node>, size: nat, gi: int)
    requires
        size <= usize::MAX,
        disjoint_groups(cuts, members_mask(s, size)),
        0 <= gi < cuts.len(),
        cuts[gi].len() == s.len(),
    ensures
        cuts[gi].to_set() == s.to_set(),
{
    let comp = cuts[gi];
    let mask = members_mask(s, size);
    lemma_group_sound(cuts, mask, gi);
    comp.unique_seq_to_set();
    s.lemma_cardinality_of_set();
    vstd::seq_lib::seq_to_set_is_finite(comp);
    vstd::seq_lib::seq_to_set_is_finite(s);
    assert forall|v: Node| comp.to_set().contains(v) implies s.to_set().contains(v) by {
        let k = choose|k: int| 0 <= k < comp.len() && comp[k] == v;
        assert(placed(cuts, gi, k));
        assert(mask[cuts[gi][k] as int]);
    }
    assert(comp.to_set().subset_of(s.to_set()));
    vstd::set_lib::lemma_len_subset(comp.to_set(), s.to_set());
    vstd::set_lib::lemma_subset_equality(comp.to_set(), s.to_set());
}

/// Each node of the list reaches every node of the list through nodes of
/// the list.
pub open spec fn strongly_connected(m: Seq<Seq<Time>>, s: Seq<Node>) -> bool {
    forall|a: Node, b: Node|
        s.contains(a) && s.contains(b) ==> #[trigger] reaches(m, true, members_mask(s, m.len()), a, b)
}

/// Every list of the family is a strongly connected block.
pub open spec fn all_blocks(m: Seq<Seq<Time>>, family: Seq<Seq<Node>>) -> bool {
    forall|k: int| 0 <= k < family.len() ==> strongly_connected(m, #[trigger] family[k])
}

/// The residues that the cuts of a subset leave hold the very nodes of the
/// subset and are strongly connected blocks, and only the upper policy
/// leaves any.
pub proof fn lemma_spread_restes(m: Seq<Seq<Time>>, order: Seq<Node>, upper: bool, s: Seq<Node>, upto: int)
    requires
        m.len() <= usize::MAX,
        0 <= upto <= components_of(m, order, members_mask(s, m.len())).len(),
    ensures
        !upper ==> spread(
            m,
            upper,
            s.len(),
            components_of(m, order, members_mask(s, m.len())).take(upto),
        ).restes.len() == 0,
        forall|k: int|
            0 <= k < spread(
                m,
                upper,
                s.len(),
                components_of(m, order, members_mask(s, m.len())).take(upto),
            ).restes.len() ==> (#[trigger] spread(
                m,
                upper,
                s.len(),
                components_of(m, order, members_mask(s, m.len())).take(upto),
            ).restes[k]).to_set() == s.to_set() && strongly_connected(
                m,
                spread(m, upper, s.len(), components_of(m, order, members_mask(s, m.len())).take(upto)).restes[k],
            ),
    decreases upto,
{
    let mask = members_mask(s, m.len());
    let cuts = components_of(m, order, mask);
    if upto > 0 {
        let shown = cuts.take(upto);
        let before = spread(m, upper, s.len(), cuts.take(upto - 1));
        let after = spread(m, upper, s.len(), shown);
        assert(shown.drop_last() =~= cuts.take(upto - 1));
        assert(shown.last() == cuts[upto - 1]);
        lemma_spread_restes(m, order, upper, s, upto - 1);
        lemma_components_disjoint(m, order, mask);
        let comp = cuts[upto - 1];
        if comp.len() == s.len() {
            lemma_full_cut(cuts, s, m.len(), upto - 1);
            lemma_components_scc(m, order, mask);
            assert(members_mask(comp, m.len()) =~= mask) by {
                assert forall|n: int| 0 <= n < m.len() implies #[trigger] members_mask(comp, m.len())[n] == mask[n] by {
                    assert(comp.to_set().contains(n as usize) == s.to_set().contains(n as usize));
                }
            }
            assert forall|a: Node, b: Node| comp.contains(a) && comp.contains(b) implies #[trigger] reaches(
                m,
                true,
                members_mask(comp, m.len()),
                a,
                b,
            ) by {
                let i = choose|i: int| 0 <= i < comp.len() && comp[i] == a;
                let j = choose|j: int| 0 <= j < comp.len() && comp[j] == b;
                assert(placed(cuts, upto - 1, i) && placed(cuts, upto - 1, j));
                assert(mutual(m, mask, cuts[upto - 1][i], cuts[upto - 1][j]));
            }
            assert(strongly_connected(m, comp));
        }
        assert forall|k: int| 0 <= k < after.restes.len() implies (#[trigger] after.restes[k]).to_set() == s.to_set()
            && strongly_connected(m, after.restes[k]) by {
            if k < before.restes.len() {
                assert(after.restes[k] == before.restes[k]);
            }
        }
    }
}

/// Every list of the family is a clique of more than one node.
pub open spec fn all_cliques(m: Seq<Seq<Time>>, family: Seq<Seq<Node>>) -> bool {
    forall|k: int| 0 <= k < family.len() ==> (#[trigger] family[k]).len() > 1 && subset_clique(m, family[k].to_set())
}

/// No list of the family is a clique.
pub open spec fn no_clique(m: Seq<Seq<Time>>, family: Seq<Seq<Node>>) -> bool {
    forall|k: int| 0 <= k < family.len() ==> !subset_clique(m, (#[trigger] family[k]).to_set())
}

/// What a partition settles is of the right kind: the components are
/// cliques of more than one node, the residues are strongly connected
/// blocks that are no cliques, and the subsets dropped hold at most one
/// node. The lower policy leaves no residue.
pub proof fn lemma_refine_kinds(m: Seq<Seq<Time>>, order: Seq<Node>, upper: bool, stack: Seq<Seq<Node>>, parts: Parts)
    requires
        m.len() <= usize::MAX,
        small(parts.dropped),
        all_cliques(m, parts.components),
        no_clique(m, parts.restes),
        all_blocks(m, parts.restes),
    ensures
        small(refine(m, order, upper, stack, parts).dropped),
        all_cliques(m, refine(m, order, upper, stack, parts).components),
        no_clique(m, refine(m, order, upper, stack, parts).restes),
        all_blocks(m, refine(m, order, upper, stack, parts).restes),
        !upper ==> refine(m, order, upper, stack, parts).restes.len() == parts.restes.len(),
    decreases load(stack), stack.len(),
{
    if stack.len() > 0 {
        let s = stack.last();
        let rest = stack.drop_last();
        if subset_clique(m, s.to_set()) {
            if s.len() > 1 {
                let next = Parts { components: parts.components.push(s), ..parts };
                assert forall|k: int| 0 <= k < next.components.len() implies (#[trigger] next.components[k]).len()
                    > 1 && subset_clique(m, next.components[k].to_set()) by {
                    if k < parts.components.len() {
                        assert(next.components[k] == parts.components[k]);
                    }
                }
                lemma_refine_kinds(m, order, upper, rest, next);
            } else {
                let next = Parts { dropped: parts.dropped.push(s), ..parts };
                assert forall|k: int| 0 <= k < next.dropped.len() implies (#[trigger] next.dropped[k]).len() <= 1 by {
                    if k < parts.dropped.len() {
                        assert(next.dropped[k] == parts.dropped[k]);
                    }
                }
                lemma_refine_kinds(m, order, upper, rest, next);
            }
        } else {
            let mask = members_mask(s, m.len());
            let cuts = components_of(m, order, mask);
            let dealt = spread(m, upper, s.len(), cuts);
            let next = Parts {
                components: parts.components,
                restes: parts.restes + dealt.restes,
                dropped: parts.dropped + dealt.dropped,
            };
            lemma_refine_step(m, order, upper, stack);
            lemma_spread_bag(m, upper, s.len(), cuts, mask);
            lemma_spread_restes(m, order, upper, s, cuts.len() as int);
            assert(cuts.take(cuts.len() as int) =~= cuts);
            assert forall|k: int| 0 <= k < next.dropped.len() implies (#[trigger] next.dropped[k]).len() <= 1 by {
                if k < parts.dropped.len() {
                    assert(next.dropped[k] == parts.dropped[k]);
                } else {
                    assert(next.dropped[k] == dealt.dropped[k - parts.dropped.len()]);
                }
            }
            assert forall|k: int| 0 <= k < next.restes.len() implies !subset_clique(
                m,
                (#[trigger] next.restes[k]).to_set(),
            ) by {
                if k < parts.restes.len() {
                    assert(next.restes[k] == parts.restes[k]);
                } else {
                    assert(next.restes[k] == dealt.restes[k - parts.restes.len()]);
                    assert(dealt.restes[k - parts.restes.len()].to_set() == s.to_set());
                }
            }
            assert forall|k: int| 0 <= k < next.restes.len() implies strongly_connected(
                m,
                #[trigger] next.restes[k],
            ) by {
                if k < parts.restes.len() {
                    assert(next.restes[k] == parts.restes[k]);
                } else {
                    assert(next.restes[k] == dealt.restes[k - parts.restes.len()]);
                    assert(strongly_connected(m, dealt.restes[k - parts.restes.len()]));
                }
            }
            lemma_refine_kinds(m, order, upper, rest + dealt.pushed, next);
        }
    }
}

/// The nodes below `size`, in increasing order.
pub open spec fn all_nodes(size: usize) -> Seq<Node> {
    Seq::new(size as nat, |i: int| i as usize)
}

/// What the partition of `filter` settles on the delta-reachability graph
/// of the links that pass the time filter, with the nodes taken in
/// increasing order.
pub open spec fn delta_components(
    links: Seq<Link>,
    size: usize,
    delta: Time,
    filter: Seq<Node>,
    tfilter: &TimeFilter,
    upper: bool,
) -> Parts {
    refine(
        reach_after(kept(links, &NodeFilter::All, tfilter), size, delta),
        all_nodes(size),
        upper,
        seq![filter],
        no_parts(),
    )
}

/// Over a stream, too, a partition settles every node of the subset
/// exactly once: the components, the residues and the dropped subsets of
/// `delta_components` together hold the nodes of `filter`, each once, where
/// `filter` lists distinct nodes below `size`.
pub proof fn lemma_delta_components_exact(
    links: Seq<Link>,
    size: usize,
    delta: Time,
    filter: Seq<Node>,
    tfilter: &TimeFilter,
    upper: bool,
)
    requires
        filter.no_duplicates(),
        nodes_below(filter, size),
    ensures
        settled(delta_components(links, size, delta, filter, tfilter, upper)) =~= filter.to_multiset(),
{
    let graph = reach_after(kept(links, &NodeFilter::All, tfilter), size, delta);
    lemma_reach_cells(kept(links, &NodeFilter::All, tfilter), size, delta);
    assert forall|v: Node| v < graph.len() implies #[trigger] all_nodes(size).contains(v) by {
        assert(all_nodes(size)[v as int] == v);
    }
    lemma_partition_exact(graph, all_nodes(size), filter, upper);
}

/// The nodes below `size`, in increasing order.
fn node_order(size: usize) -> (order: Vec<Node>)
    ensures
        order@ == all_nodes(size),
{
    let mut order: Vec<Node> = Vec::with_capacity(size);
    let mut i: usize = 0;
    while i < size
        invariant
            i <= size,
            order@.len() == i,
            forall|k: int| 0 <= k < i ==> order@[k] == k as usize,
        decreases size - i,
    {
        order.push(i);
        i = i + 1;
    }
    assert(order@ =~= all_nodes(size));
    order
}

/// Partition `filter` by the delta-reachability graph of the stream, with
/// the policy asked for.
fn delta_components_with(
    links: &Vec<Link>,
    size: usize,
    delta: Time,
    filter: &Vec<Node>,
    tfilter: &TimeFilter,
    upper: bool,
) -> (parts: (Vec<Vec<Node>>, Vec<Vec<Node>>))
    requires
        kept_within(links@, size, &NodeFilter::All, tfilter),
    ensures
        lists(parts.0@) == delta_components(links@, size, delta, filter@, tfilter, upper).components,
        lists(parts.1@) == delta_components(links@, size, delta, filter@, tfilter, upper).restes,
        all_cliques(reach_after(kept(links@, &NodeFilter::All, tfilter), size, delta), lists(parts.0@)),
        no_clique(reach_after(kept(links@, &NodeFilter::All, tfilter), size, delta), lists(parts.1@)),
        all_blocks(reach_after(kept(links@, &NodeFilter::All, tfilter), size, delta), lists(parts.1@)),
        filter@.no_duplicates() && nodes_below(filter@, size) ==> bag(lists(parts.0@)).add(
            bag(lists(parts.1@)),
        ).subset_of(filter@.to_multiset()),
        !upper ==> parts.1@.len() == 0,
{
    let order = node_order(size);
    let reach_graph = delta_reachability_graph(links, delta, size, &NodeFilter::All, tfilter);
    assert forall|v: Node| v < size implies #[trigger] order@.contains(v) by {
        assert(order@[v as int] == v);
    }
    partition(&reach_graph, &order, filter, upper)
}

/// The components and residues of `filter` under the lower policy: a block
/// that does not split loses its pivot and is refined further, so that no
/// residue is left.
pub fn delta_components_lower(
    links: &Vec<Link>,
    size: usize,
    delta: Time,
    filter: &Vec<Node>,
    tfilter: &TimeFilter,
) -> (parts: (Vec<Vec<Node>>, Vec<Vec<Node>>))
    requires
        kept_within(links@, size, &NodeFilter::All, tfilter),
    ensures
        lists(parts.0@) == delta_components(links@, size, delta, filter@, tfilter, false).components,
        lists(parts.1@) == delta_components(links@, size, delta, filter@, tfilter, false).restes,
        all_cliques(reach_after(kept(links@, &NodeFilter::All, tfilter), size, delta), lists(parts.0@)),
        no_clique(reach_after(kept(links@, &NodeFilter::All, tfilter), size, delta), lists(parts.1@)),
        all_blocks(reach_after(kept(links@, &NodeFilter::All, tfilter), size, delta), lists(parts.1@)),
        filter@.no_duplicates() && nodes_below(filter@, size) ==> bag(lists(parts.0@)).add(
            bag(lists(parts.1@)),
        ).subset_of(filter@.to_multiset()),
        parts.1@.len() == 0,
{
    delta_components_with(links, size, delta, filter, tfilter, false)
}

/// The components and residues of `filter` under the upper policy: a block
/// that does not split is kept as a residue.
pub fn delta_components_upper(
    links: &Vec<Link>,
    size: usize,
    delta: Time,
    filter: &Vec<Node>,
    tfilter: &TimeFilter,
) -> (parts: (Vec<Vec<Node>>, Vec<Vec<Node>>))
    requires
        kept_within(links@, size, &NodeFilter::All, tfilter),
    ensures
        lists(parts.0@) == delta_components(links@, size, delta, filter@, tfilter, true).components,
        lists(parts.1@) == delta_components(links@, size, delta, filter@, tfilter, true).restes,
        all_cliques(reach_after(kept(links@, &NodeFilter::All, tfilter), size, delta), lists(parts.0@)),
        no_clique(reach_after(kept(links@, &NodeFilter::All, tfilter), size, delta), lists(parts.1@)),
        all_blocks(reach_after(kept(links@, &NodeFilter::All, tfilter), size, delta), lists(parts.1@)),
        filter@.no_duplicates() && nodes_below(filter@, size) ==> bag(lists(parts.0@)).add(
            bag(lists(parts.1@)),
        ).subset_of(filter@.to_multiset()),
{
    delta_components_with(links, size, delta, filter, tfilter, true)
}

/// The instants that count for an interval of constant activity: from its
/// earlier end to `delta` and one more after its later end, as far as
/// instants go.
pub open spec fn interval_filter(later: Time, earlier: Time, delta: Time) -> TimeFilter {
    TimeFilter::Range {
        start: earlier,
        stop: if later + delta + 1 > Time::MAX {
            Time::MAX
        } else {
            (later + delta + 1) as Time
        },
    }
}

/// The links that count for an interval of constant activity name nodes
/// below the number of tracked nodes, whichever interval it is.
pub open spec fn interval_links_within(links: Seq<Link>, nodes: Seq<Node>, delta: Time) -> bool {
    forall|k: int|
        0 <= k < segments(folded(existence_trace(links, nodes, 1), delta)).len() ==> kept_within(
            links,
            nodes.len() as usize,
            &NodeFilter::All,
            &interval_filter(
                (#[trigger] segments(folded(existence_trace(links, nodes, 1), delta))[k]).0,
                segments(folded(existence_trace(links, nodes, 1), delta))[k].1,
                delta,
            ),
        )
}

/// The temporal decomposition of the stream: for each interval of constant
/// activity, its earlier and its later end, and the components and
/// residues of its active nodes over the links of the interval. The
/// stream must hold a link, and the links that count for an interval name
/// nodes below the number of tracked nodes.
pub fn delta_partition(links: &Vec<Link>, nodes: &Vec<Node>, delta: Time, upper: bool) -> (res: Vec<
    (Time, Time, (Vec<Vec<Node>>, Vec<Vec<Node>>)),
>)
    requires
        links@.len() > 0,
        interval_links_within(links@, nodes@, delta),
    ensures
        res@.len() == segments(folded(existence_trace(links@, nodes@, 1), delta)).len(),
        forall|k: int|
            0 <= k < res@.len() ==> {
                let span = segments(folded(existence_trace(links@, nodes@, 1), delta))[k];
                let parts = delta_components(
                    links@,
                    nodes@.len() as usize,
                    delta,
                    span.2,
                    &interval_filter(span.0, span.1, delta),
                    upper,
                );
                &&& (#[trigger] res@[k]).0 == span.1
                &&& res@[k].1 == span.0
                &&& lists(res@[k].2.0@) == parts.components
                &&& lists(res@[k].2.1@) == parts.restes
            },
{
    let mut res: Vec<(Time, Time, (Vec<Vec<Node>>, Vec<Vec<Node>>))> = Vec::new();
    let intervals = existence_intervals(links, nodes, delta);
    let ghost spans = segments(folded(existence_trace(links@, nodes@, 1), delta));
    let mut k: usize = 0;
    while k < intervals.len()
        invariant
            k <= intervals@.len(),
            interval_links_within(links@, nodes@, delta),
            spans == segments(folded(existence_trace(links@, nodes@, 1), delta)),
            spans == spans_of(intervals@),
            res@.len() == k,
            forall|j: int|
                0 <= j < k ==> {
                    let span = spans[j];
                    let parts = delta_components(
                        links@,
                        nodes@.len() as usize,
                        delta,
                        span.2,
                        &interval_filter(span.0, span.1, delta),
                        upper,
                    );
                    &&& (#[trigger] res@[j]).0 == span.1
                    &&& res@[j].1 == span.0
                    &&& lists(res@[j].2.0@) == parts.components
                    &&& lists(res@[j].2.1@) == parts.restes
                },
        decreases intervals.len() - k,
    {
        let stop = intervals[k].0;
        let start = intervals[k].1;
        let tfilter = TimeFilter::Range { start: start, stop: stop.saturating_add(delta).saturating_add(1) };
        assert(tfilter == interval_filter(stop, start, delta));
        assert(spans[k as int] == (stop, start, intervals@[k as int].2@));
        assert(kept_within(links@, nodes@.len() as usize, &NodeFilter::All, &tfilter));
        let comps = if upper {
            delta_components_upper(links, nodes.len(), delta, &intervals[k].2, &tfilter)
        } else {
            delta_components_lower(links, nodes.len(), delta, &intervals[k].2, &tfilter)
        };
        let ghost before = res@;
        res.push((start, stop, comps));
        assert forall|j: int| 0 <= j < k implies res@[j] == before[j] by {
        }
        k = k + 1;
    }
    res
}

} // verus!
