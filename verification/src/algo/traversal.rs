use vstd::prelude::*;
use crate::algo::paths::accepted;
use crate::algo::paths::lemma_reach_ends;
use crate::algo::paths::lemma_reach_join;
use crate::algo::paths::lemma_reach_on_path;
use crate::algo::paths::lemma_reach_set;
use crate::algo::paths::lemma_reach_turn;
use crate::algo::paths::lemma_reach_wider;
use crate::algo::paths::is_path;
use crate::algo::paths::reaches;
use crate::data::link::Node;
use crate::data::link::Time;
use crate::data::matrix::column_edges;
use crate::data::matrix::lemma_column_edges;
use crate::data::matrix::lemma_row_edges;
use crate::data::matrix::row_edges;
use crate::data::matrix::Matrix;

verus! {

/// A traversal under way: the nodes already entered, as marks and in the
/// order in which they were entered.
pub struct Walk {
    pub marks: Seq<bool>,
    pub found: Seq<Node>,
}

/// The number of nodes that are not marked.
pub open spec fn unmarked(marks: Seq<bool>) -> nat
    decreases marks.len(),
{
    if marks.len() == 0 {
        0
    } else if marks.last() {
        unmarked(marks.drop_last())
    } else {
        unmarked(marks.drop_last()) + 1
    }
}

/// Marking one more node leaves one unmarked node less.
pub proof fn lemma_unmarked_update(marks: Seq<bool>, v: int)
    requires
        0 <= v < marks.len(),
        !marks[v],
    ensures
        unmarked(marks.update(v, true)) + 1 == unmarked(marks),
    decreases marks.len(),
{
    let after = marks.update(v, true);
    if v == marks.len() - 1 {
        assert(after.drop_last() =~= marks.drop_last());
    } else {
        assert(after.drop_last() =~= marks.drop_last().update(v, true));
        lemma_unmarked_update(marks.drop_last(), v);
    }
}

/// The nodes one step away from `v`, in increasing order: its successors
/// when going forward, its predecessors when going backward.
pub open spec fn neighbours(m: Seq<Seq<Time>>, forward: bool, v: Node) -> Seq<Node> {
    if forward {
        row_edges(m, v as int, m.len() as int)
    } else {
        column_edges(m, v as int, m.len() as int)
    }
}

/// The node is accepted by the filter and has not been entered yet.
pub open spec fn open_at(filter: Seq<bool>, marks: Seq<bool>, v: Node) -> bool {
    v < filter.len() && v < marks.len() && filter[v as int] && !marks[v as int]
}

/// The walk after it has entered `v`.
pub open spec fn enter(w: Walk, v: Node) -> Walk {
    Walk { marks: w.marks.update(v as int, true), found: w.found.push(v) }
}

/// The walk once the stack of pending nodes is used up. The node on top is
/// taken off; where it is open it is entered, and its neighbours are put on
/// the stack in increasing order, so that the largest is taken next.
pub open spec fn run(m: Seq<Seq<Time>>, forward: bool, filter: Seq<bool>, stack: Seq<Node>, w: Walk) -> Walk
    decreases unmarked(w.marks), stack.len(),
{
    if stack.len() == 0 {
        w
    } else {
        let v = stack.last();
        if open_at(filter, w.marks, v) {
            proof {
                lemma_unmarked_update(w.marks, v as int);
            }
            run(m, forward, filter, stack.drop_last() + neighbours(m, forward, v), enter(w, v))
        } else {
            run(m, forward, filter, stack.drop_last(), w)
        }
    }
}

/// The walk after a traversal was started from each node of `order` in turn.
pub open spec fn sweep(m: Seq<Seq<Time>>, forward: bool, filter: Seq<bool>, order: Seq<Node>, w: Walk) -> Walk
    decreases order.len(),
{
    if order.len() == 0 {
        w
    } else {
        run(m, forward, filter, seq![order.last()], sweep(m, forward, filter, order.drop_last(), w))
    }
}

/// A walk over `size` nodes that has entered none.
pub open spec fn fresh_walk(size: nat) -> Walk {
    Walk { marks: Seq::new(size, |i: int| false), found: Seq::empty() }
}

/// The order in which a depth-first search enters the accepted nodes, when
/// it is started from each node of `order` in turn and follows successors.
pub open spec fn dfs_order(m: Seq<Seq<Time>>, order: Seq<Node>, filter: Seq<bool>) -> Seq<Node> {
    sweep(m, true, filter, order, fresh_walk(m.len())).found
}

/// Running an empty stack changes nothing.
pub proof fn lemma_run_empty(m: Seq<Seq<Time>>, forward: bool, filter: Seq<bool>, w: Walk)
    ensures
        run(m, forward, filter, Seq::empty(), w) == w,
{
}

/// Running a stack that holds one node which is not open changes nothing.
pub proof fn lemma_run_closed(m: Seq<Seq<Time>>, forward: bool, filter: Seq<bool>, v: Node, w: Walk)
    requires
        !open_at(filter, w.marks, v),
    ensures
        run(m, forward, filter, seq![v], w) == w,
{
    assert(seq![v].drop_last() =~= Seq::empty());
    lemma_run_empty(m, forward, filter, w);
}

/// Every node named is below `size`.
pub open spec fn nodes_below(nodes: Seq<Node>, size: usize) -> bool {
    forall|k: int| 0 <= k < nodes.len() ==> (#[trigger] nodes[k]) < size
}

/// Put the nodes of `more` on the stack, in order.
fn push_all(stack: &mut Vec<Node>, more: &Vec<Node>)
    ensures
        final(stack)@ == old(stack)@ + more@,
{
    let mut j: usize = 0;
    while j < more.len()
        invariant
            j <= more.len(),
            stack@ == old(stack)@ + more@.take(j as int),
        decreases more.len() - j,
    {
        stack.push(more[j]);
        assert(stack@ =~= old(stack)@ + more@.take(j + 1));
        j = j + 1;
    }
    assert(more@.take(more@.len() as int) =~= more@);
}

/// A vector of `size` marks, none set.
fn no_marks(size: usize) -> (marks: Vec<bool>)
    ensures
        marks@ == Seq::new(size as nat, |i: int| false),
{
    let mut marks: Vec<bool> = Vec::with_capacity(size);
    let mut i: usize = 0;
    while i < size
        invariant
            i <= size,
            marks@.len() == i,
            forall|k: int| 0 <= k < i ==> !marks@[k],
        decreases size - i,
    {
        marks.push(false);
        i = i + 1;
    }
    assert(marks@ =~= Seq::new(size as nat, |i: int| false));
    marks
}

/// Use up the stack: enter every open node that it leads to, following
/// successors when `forward` and predecessors otherwise.
fn drain(
    mat: &Matrix<Time>,
    forward: bool,
    nodefilter: &Vec<bool>,
    stack: &mut Vec<Node>,
    marks: &mut Vec<bool>,
    found: &mut Vec<Node>,
)
    requires
        mat.wf(),
        mat.square(),
        nodefilter@.len() == mat.width,
        old(marks)@.len() == mat.width,
        nodes_below(old(stack)@, mat.width),
    ensures
        final(stack)@.len() == 0,
        final(marks)@.len() == mat.width,
        (Walk { marks: final(marks)@, found: final(found)@ }) == run(
            mat@,
            forward,
            nodefilter@,
            old(stack)@,
            (Walk { marks: old(marks)@, found: old(found)@ }),
        ),
{
    let ghost target = run(mat@, forward, nodefilter@, stack@, Walk { marks: marks@, found: found@ });
    while stack.len() > 0
        invariant
            mat.wf(),
            mat.square(),
            nodefilter@.len() == mat.width,
            marks@.len() == mat.width,
            nodes_below(stack@, mat.width),
            run(mat@, forward, nodefilter@, stack@, (Walk { marks: marks@, found: found@ })) == target,
        decreases unmarked(marks@), stack@.len(),
    {
        let ghost before = Walk { marks: marks@, found: found@ };
        let ghost pending = stack@;
        let v = stack.pop().unwrap();
        assert(v == pending.last());
        assert(stack@ == pending.drop_last());
        if nodefilter[v] && !marks[v] {
            proof {
                lemma_unmarked_update(marks@, v as int);
            }
            marks[v] = true;
            found.push(v);
            let next = if forward {
                mat.successors(v)
            } else {
                mat.predecessors(v)
            };
            proof {
                lemma_row_edges(mat@, v as int, mat.width as int);
                lemma_column_edges(mat@, v as int, mat.width as int);
                assert(next@ == neighbours(mat@, forward, v));
            }
            push_all(stack, &next);
            assert((Walk { marks: marks@, found: found@ }) == enter(before, v));
        }
    }
    proof {
        assert(stack@ =~= Seq::empty());
        lemma_run_empty(mat@, forward, nodefilter@, Walk { marks: marks@, found: found@ });
    }
}

/// Perform a depth-first search on the graph induced by `mat` and the
/// `nodefilter`, started from each node of `order` in turn. Among the
/// successors of a node the largest is entered first.
pub fn dfs(mat: &Matrix<Time>, order: &Vec<Node>, nodefilter: &Vec<bool>) -> (result: Vec<Node>)
    requires
        mat.wf(),
        mat.square(),
        nodefilter@.len() == mat.width,
        nodes_below(order@, mat.width),
    ensures
        result@ == dfs_order(mat@, order@, nodefilter@),
{
    let mut result: Vec<Node> = Vec::with_capacity(mat.width);
    let mut marks: Vec<bool> = no_marks(mat.width);
    let mut stack: Vec<Node> = Vec::new();
    let mut k: usize = 0;
    assert(order@.take(0) =~= Seq::empty());
    while k < order.len()
        invariant
            k <= order.len(),
            mat.wf(),
            mat.square(),
            nodefilter@.len() == mat.width,
            nodes_below(order@, mat.width),
            marks@.len() == mat.width,
            stack@.len() == 0,
            (Walk { marks: marks@, found: result@ }) == sweep(
                mat@,
                true,
                nodefilter@,
                order@.take(k as int),
                fresh_walk(mat@.len()),
            ),
        decreases order.len() - k,
    {
        let node = order[k];
        proof {
            assert(order@.take(k + 1).drop_last() =~= order@.take(k as int));
            assert(order@.take(k + 1).last() == node);
        }
        if nodefilter[node] && !marks[node] {
            stack.push(node);
            assert(stack@ =~= seq![node]);
            drain(mat, true, nodefilter, &mut stack, &mut marks, &mut result);
        } else {
            proof {
                lemma_run_closed(mat@, true, nodefilter@, node, Walk { marks: marks@, found: result@ });
            }
        }
        k = k + 1;
    }
    assert(order@.take(order@.len() as int) =~= order@);
    result
}

/// The node `v` stands in `found` at or after the position `from`.
pub open spec fn found_since(found: Seq<Node>, from: int, v: int) -> bool {
    exists|i: int| from <= i < found.len() && #[trigger] found[i] == v
}

/// What a traversal does to a walk: it keeps what was found and appends
/// nodes that were open, each once, and it marks exactly those.
pub open spec fn grown(w: Walk, after: Walk, filter: Seq<bool>) -> bool {
    &&& after.marks.len() == w.marks.len()
    &&& w.found.len() <= after.found.len()
    &&& forall|i: int| 0 <= i < w.found.len() ==> #[trigger] after.found[i] == w.found[i]
    &&& forall|i: int| w.found.len() <= i < after.found.len() ==> open_at(filter, w.marks, #[trigger] after.found[i])
    &&& forall|i: int, j: int|
        w.found.len() <= i < j < after.found.len() ==> #[trigger] after.found[i] != #[trigger] after.found[j]
    &&& forall|v: int|
        0 <= v < w.marks.len() ==> (#[trigger] after.marks[v] <==> (w.marks[v] || found_since(
            after.found,
            w.found.len() as int,
            v,
        )))
}

/// Every accepted node of `nodes` is marked.
pub open spec fn all_entered(nodes: Seq<Node>, filter: Seq<bool>, marks: Seq<bool>) -> bool {
    forall|k: int|
        0 <= k < nodes.len() && (#[trigger] nodes[k]) < filter.len() && filter[nodes[k] as int] ==> marks[nodes[k] as int]
}

/// Two traversals in a row do to a walk what one traversal does.
pub proof fn lemma_grown_twice(w: Walk, mid: Walk, after: Walk, filter: Seq<bool>)
    requires
        grown(w, mid, filter),
        grown(mid, after, filter),
        filter.len() == w.marks.len(),
    ensures
        grown(w, after, filter),
{
    let a = w.found.len() as int;
    let b = mid.found.len() as int;
    assert forall|i: int| a <= i < after.found.len() implies open_at(filter, w.marks, #[trigger] after.found[i]) by {
        if i < b {
            assert(after.found[i] == mid.found[i]);
        } else {
            let x = after.found[i];
            assert(open_at(filter, mid.marks, x));
            assert(mid.marks[x as int] <==> (w.marks[x as int] || found_since(mid.found, a, x as int)));
        }
    }
    assert forall|i: int, j: int| a <= i < j < after.found.len() implies #[trigger] after.found[i]
        != #[trigger] after.found[j] by {
        if j < b {
            assert(after.found[i] == mid.found[i]);
            assert(after.found[j] == mid.found[j]);
        } else if i < b {
            let x = after.found[j];
            assert(open_at(filter, mid.marks, x));
            assert(after.found[i] == mid.found[i]);
            if mid.found[i] == x {
                assert(found_since(mid.found, a, x as int));
                assert(mid.marks[x as int] <==> (w.marks[x as int] || found_since(mid.found, a, x as int)));
            }
        }
    }
    assert forall|v: int| 0 <= v < w.marks.len() implies (#[trigger] after.marks[v] <==> (w.marks[v]
        || found_since(after.found, a, v))) by {
        assert(mid.marks[v] <==> (w.marks[v] || found_since(mid.found, a, v)));
        assert(after.marks[v] <==> (mid.marks[v] || found_since(after.found, b, v)));
        if found_since(mid.found, a, v) {
            let i = choose|i: int| a <= i < mid.found.len() && #[trigger] mid.found[i] == v;
            assert(after.found[i] == v);
        }
        if found_since(after.found, b, v) {
            let i = choose|i: int| b <= i < after.found.len() && #[trigger] after.found[i] == v;
            assert(after.found[i] == v);
        }
        if found_since(after.found, a, v) {
            let i = choose|i: int| a <= i < after.found.len() && #[trigger] after.found[i] == v;
            if i < b {
                assert(mid.found[i] == v);
            } else {
                assert(after.found[i] == v);
            }
        }
    }
}

/// A run keeps what was found, appends nodes that were open, each once,
/// marks exactly those, and leaves no accepted node of its stack unmarked.
pub proof fn lemma_run_grown(m: Seq<Seq<Time>>, forward: bool, filter: Seq<bool>, stack: Seq<Node>, w: Walk)
    requires
        filter.len() == w.marks.len(),
    ensures
        grown(w, run(m, forward, filter, stack, w), filter),
        all_entered(stack, filter, run(m, forward, filter, stack, w).marks),
    decreases unmarked(w.marks), stack.len(),
{
    let after = run(m, forward, filter, stack, w);
    let a = w.found.len() as int;
    if stack.len() == 0 {
        assert forall|v: int| 0 <= v < w.marks.len() implies (#[trigger] after.marks[v] <==> (w.marks[v]
            || found_since(after.found, a, v))) by {
        }
    } else {
        let v = stack.last();
        let rest = stack.drop_last();
        if open_at(filter, w.marks, v) {
            lemma_unmarked_update(w.marks, v as int);
            let mid = enter(w, v);
            let pending = rest + neighbours(m, forward, v);
            lemma_run_grown(m, forward, filter, pending, mid);
            assert(mid.found[a] == v);
            assert forall|x: int| 0 <= x < w.marks.len() implies (#[trigger] mid.marks[x] <==> (w.marks[x]
                || found_since(mid.found, a, x))) by {
                if found_since(mid.found, a, x) {
                    let i = choose|i: int| a <= i < mid.found.len() && #[trigger] mid.found[i] == x;
                }
            }
            assert(grown(w, mid, filter));
            lemma_grown_twice(w, mid, after, filter);
            assert forall|k: int|
                0 <= k < stack.len() && (#[trigger] stack[k]) < filter.len() && filter[stack[k] as int] implies after.marks[stack[k] as int] by {
                if k < rest.len() {
                    assert(pending[k] == stack[k]);
                } else {
                    assert(mid.marks[v as int]);
                    assert(after.marks[v as int] <==> (mid.marks[v as int] || found_since(
                        after.found,
                        mid.found.len() as int,
                        v as int,
                    )));
                }
            }
        } else {
            lemma_run_grown(m, forward, filter, rest, w);
            assert forall|k: int|
                0 <= k < stack.len() && (#[trigger] stack[k]) < filter.len() && filter[stack[k] as int] implies after.marks[stack[k] as int] by {
                if k < rest.len() {
                    assert(rest[k] == stack[k]);
                } else {
                    assert(w.marks[v as int]);
                    assert(after.marks[v as int] <==> (w.marks[v as int] || found_since(after.found, a, v as int)));
                }
            }
        }
    }
}

/// A sweep keeps what was found, appends nodes that were open, each once,
/// marks exactly those, and leaves no accepted node of `order` unmarked.
pub proof fn lemma_sweep_grown(m: Seq<Seq<Time>>, forward: bool, filter: Seq<bool>, order: Seq<Node>, w: Walk)
    requires
        filter.len() == w.marks.len(),
    ensures
        grown(w, sweep(m, forward, filter, order, w), filter),
        all_entered(order, filter, sweep(m, forward, filter, order, w).marks),
    decreases order.len(),
{
    let after = sweep(m, forward, filter, order, w);
    let a = w.found.len() as int;
    if order.len() == 0 {
        assert forall|v: int| 0 <= v < w.marks.len() implies (#[trigger] after.marks[v] <==> (w.marks[v]
            || found_since(after.found, a, v))) by {
        }
    } else {
        let mid = sweep(m, forward, filter, order.drop_last(), w);
        lemma_sweep_grown(m, forward, filter, order.drop_last(), w);
        lemma_run_grown(m, forward, filter, seq![order.last()], mid);
        lemma_grown_twice(w, mid, after, filter);
        assert forall|k: int|
            0 <= k < order.len() && (#[trigger] order[k]) < filter.len() && filter[order[k] as int] implies after.marks[order[k] as int] by {
            let x = order[k] as int;
            assert(after.marks[x] <==> (mid.marks[x] || found_since(after.found, mid.found.len() as int, x)));
            if k < order.len() - 1 {
                assert(order.drop_last()[k] == order[k]);
            } else {
                assert(seq![order.last()][0] == order[k]);
            }
        }
    }
}

/// The depth-first order names accepted nodes only, each at most once, and
/// every accepted node that `order` names.
pub proof fn lemma_dfs_order(m: Seq<Seq<Time>>, order: Seq<Node>, filter: Seq<bool>)
    requires
        filter.len() == m.len(),
    ensures
        forall|i: int|
            0 <= i < dfs_order(m, order, filter).len() ==> (#[trigger] dfs_order(m, order, filter)[i]) < m.len()
                && filter[dfs_order(m, order, filter)[i] as int],
        forall|i: int, j: int|
            0 <= i < j < dfs_order(m, order, filter).len() ==> #[trigger] dfs_order(m, order, filter)[i]
                != #[trigger] dfs_order(m, order, filter)[j],
        forall|k: int|
            0 <= k < order.len() && (#[trigger] order[k]) < m.len() && filter[order[k] as int] ==> dfs_order(
                m,
                order,
                filter,
            ).contains(order[k]),
{
    let start = fresh_walk(m.len());
    let after = sweep(m, true, filter, order, start);
    lemma_sweep_grown(m, true, filter, order, start);
    assert forall|k: int|
        0 <= k < order.len() && (#[trigger] order[k]) < m.len() && filter[order[k] as int] implies after.found.contains(
        order[k],
    ) by {
        let x = order[k] as int;
        assert(after.marks[x] <==> (start.marks[x] || found_since(after.found, 0, x)));
        let i = choose|i: int| 0 <= i < after.found.len() && #[trigger] after.found[i] == x;
        assert(after.found[i] == order[k]);
    }
}

/// The nodes that `v` reaches through accepted nodes, as marks.
pub open spec fn reach_mask(m: Seq<Seq<Time>>, filter: Seq<bool>, v: Node) -> Seq<bool> {
    run(m, true, filter, seq![v], fresh_walk(m.len())).marks
}

/// The strongly connected component of `v`: among the nodes that `v`
/// reaches, those that reach `v`, in the order in which a walk back from
/// `v` enters them.
pub open spec fn scc_of(m: Seq<Seq<Time>>, filter: Seq<bool>, v: Node) -> Seq<Node> {
    run(m, false, reach_mask(m, filter, v), seq![v], fresh_walk(m.len())).found
}

/// Each of the two nodes reaches the other through accepted nodes.
pub open spec fn mutual(m: Seq<Seq<Time>>, filter: Seq<bool>, a: Node, b: Node) -> bool {
    reaches(m, true, filter, a, b) && reaches(m, true, filter, b, a)
}

/// The marks with the nodes of the group marked.
pub open spec fn with_group(marks: Seq<bool>, group: Seq<Node>) -> Seq<bool> {
    Seq::new(marks.len(), |x: int| marks[x] || group.contains(x as usize))
}

/// A grouping under way: the nodes already grouped, as marks, and the
/// groups made so far.
pub struct Grouping {
    pub marks: Seq<bool>,
    pub groups: Seq<Seq<Node>>,
}

/// The grouping after each node of `order` was taken in turn: a node that
/// is still open starts a group, which is its strongly connected
/// component.
pub open spec fn group_sweep(m: Seq<Seq<Time>>, filter: Seq<bool>, order: Seq<Node>, g: Grouping) -> Grouping
    decreases order.len(),
{
    if order.len() == 0 {
        g
    } else {
        let before = group_sweep(m, filter, order.drop_last(), g);
        let node = order.last();
        if open_at(filter, before.marks, node) {
            Grouping {
                marks: with_group(before.marks, scc_of(m, filter, node)),
                groups: before.groups.push(scc_of(m, filter, node)),
            }
        } else {
            before
        }
    }
}

/// A grouping over `size` nodes that holds no group.
pub open spec fn fresh_grouping(size: nat) -> Grouping {
    Grouping { marks: Seq::new(size, |i: int| false), groups: Seq::empty() }
}

/// The groups that `connected_component` makes: the depth-first order of
/// the graph is walked, and each node that is not grouped yet starts the
/// group of its strongly connected component.
pub open spec fn components_of(m: Seq<Seq<Time>>, order: Seq<Node>, filter: Seq<bool>) -> Seq<Seq<Node>> {
    group_sweep(m, filter, dfs_order(m, order, filter), fresh_grouping(m.len())).groups
}

/// The lists that the vectors hold.
pub open spec fn lists(groups: Seq<Vec<Node>>) -> Seq<Seq<Node>> {
    Seq::new(groups.len(), |i: int| groups[i]@)
}

/// Nodes that reach each other reach the same nodes, and are reached by
/// the same.
pub proof fn lemma_mutual_shift(m: Seq<Seq<Time>>, filter: Seq<bool>, v: Node, a: Node, x: Node)
    requires
        mutual(m, filter, v, a),
    ensures
        mutual(m, filter, v, x) <==> mutual(m, filter, a, x),
{
    if mutual(m, filter, v, x) {
        lemma_reach_join(m, true, filter, a, v, x);
        lemma_reach_join(m, true, filter, x, v, a);
    }
    if mutual(m, filter, a, x) {
        lemma_reach_join(m, true, filter, v, a, x);
        lemma_reach_join(m, true, filter, x, a, v);
    }
}

/// The strongly connected component of an accepted node holds exactly the
/// nodes that reach it and that it reaches, each once.
pub proof fn lemma_scc_of(m: Seq<Seq<Time>>, filter: Seq<bool>, v: Node)
    requires
        filter.len() == m.len(),
        m.len() <= usize::MAX,
        accepted(filter, v),
    ensures
        forall|x: Node| #[trigger] scc_of(m, filter, v).contains(x) <==> mutual(m, filter, v, x),
        forall|k: int| 0 <= k < scc_of(m, filter, v).len() ==> accepted(filter, #[trigger] scc_of(m, filter, v)[k]),
        forall|i: int, j: int|
            0 <= i < j < scc_of(m, filter, v).len() ==> scc_of(m, filter, v)[i] != scc_of(m, filter, v)[j],
        scc_of(m, filter, v).contains(v),
{
    let fwd = reach_mask(m, filter, v);
    let group = scc_of(m, filter, v);
    lemma_reach_set(m, true, filter, v);
    lemma_reach_ends(m, true, filter, v, v);
    assert(accepted(fwd, v));
    lemma_reach_set(m, false, fwd, v);
    assert forall|y: Node| #[trigger] accepted(fwd, y) implies accepted(filter, y) by {
        assert(reaches(m, true, filter, v, y));
        lemma_reach_ends(m, true, filter, v, y);
    }
    assert forall|x: Node| #[trigger] group.contains(x) <==> mutual(m, filter, v, x) by {
        if group.contains(x) {
            assert(reaches(m, false, fwd, v, x));
            lemma_reach_ends(m, false, fwd, v, x);
            assert(fwd[x as int]);
            lemma_reach_wider(m, false, fwd, filter, v, x);
            lemma_reach_turn(m, false, filter, v, x);
        }
        if mutual(m, filter, v, x) {
            let p = choose|path: Seq<Node>| #[trigger] is_path(m, true, filter, path) && path[0] == x && path.last() == v;
            assert forall|i: int| 0 <= i < p.len() implies accepted(fwd, #[trigger] p[i]) by {
                lemma_reach_on_path(m, true, filter, p, i);
                lemma_reach_join(m, true, filter, v, x, p[i]);
                lemma_reach_ends(m, true, filter, v, p[i]);
            }
            assert(is_path(m, true, fwd, p));
            assert(reaches(m, true, fwd, x, v));
            lemma_reach_turn(m, true, fwd, x, v);
        }
    }
    assert forall|k: int| 0 <= k < group.len() implies accepted(filter, #[trigger] group[k]) by {
        assert(group.contains(group[k]));
        lemma_reach_ends(m, true, filter, v, group[k]);
    }
    lemma_reach_ends(m, false, fwd, v, v);
}

/// Marking the nodes of a group one by one marks the group.
pub proof fn lemma_with_group_push(marks: Seq<bool>, group: Seq<Node>, c: Node)
    requires
        c < marks.len(),
        marks.len() <= usize::MAX,
    ensures
        with_group(marks, group.push(c)) == with_group(marks, group).update(c as int, true),
{
    let left = with_group(marks, group.push(c));
    let right = with_group(marks, group).update(c as int, true);
    assert forall|x: int| 0 <= x < marks.len() implies left[x] == right[x] by {
        if group.contains(x as usize) {
            let k = choose|k: int| 0 <= k < group.len() && group[k] == x as usize;
            assert(group.push(c)[k] == x as usize);
        }
        if x == c {
            assert(group.push(c)[group.len() as int] == c);
        }
        if group.push(c).contains(x as usize) {
            let k = choose|k: int| 0 <= k < group.push(c).len() && group.push(c)[k] == x as usize;
            if k < group.len() {
                assert(group[k] == x as usize);
            }
        }
    }
    assert(left =~= right);
}

/// Returns the strongly connected components of the graph induced by `mat`
/// and `nodefilter`, for the nodes that a depth-first search from `order`
/// enters: two accepted nodes stand in one group exactly when each reaches
/// the other through accepted nodes. The groups come in the order in which
/// the search enters their first node, and each group in the order in which
/// a walk back from that node enters its nodes. Each group takes one walk
/// forward from its first node and one walk back among the nodes that the
/// first walk reached.
pub fn connected_component(mat: &Matrix<Time>, order: &Vec<Node>, nodefilter: &Vec<bool>) -> (result: Vec<
    Vec<Node>,
>)
    requires
        mat.wf(),
        mat.square(),
        nodefilter@.len() == mat.width,
        nodes_below(order@, mat.width),
    ensures
        lists(result@) == components_of(mat@, order@, nodefilter@),
        disjoint_groups(lists(result@), nodefilter@),
        forall|gi: int, i: int, gj: int, j: int|
            placed(lists(result@), gi, i) && placed(lists(result@), gj, j) ==> ((gi == gj) <==> mutual(
                mat@,
                nodefilter@,
                #[trigger] lists(result@)[gi][i],
                #[trigger] lists(result@)[gj][j],
            )),
        forall|k: int|
            0 <= k < order@.len() && nodefilter@[(#[trigger] order@[k]) as int] ==> in_groups(
                lists(result@),
                order@[k] as int,
            ),
{
    let dfsorder = dfs(mat, order, nodefilter);
    proof {
        lemma_dfs_order(mat@, order@, nodefilter@);
    }
    let mut result: Vec<Vec<Node>> = Vec::new();
    let mut marks: Vec<bool> = no_marks(mat.width);
    let mut stack: Vec<Node> = Vec::new();
    let mut k: usize = 0;
    assert(dfsorder@.take(0) =~= Seq::empty());
    assert(lists(result@) =~= Seq::empty());
    while k < dfsorder.len()
        invariant
            k <= dfsorder.len(),
            mat.wf(),
            mat.square(),
            nodefilter@.len() == mat.width,
            nodes_below(dfsorder@, mat.width),
            marks@.len() == mat.width,
            stack@.len() == 0,
            (Grouping { marks: marks@, groups: lists(result@) }) == group_sweep(
                mat@,
                nodefilter@,
                dfsorder@.take(k as int),
                fresh_grouping(mat@.len()),
            ),
        decreases dfsorder.len() - k,
    {
        let node = dfsorder[k];
        proof {
            assert(dfsorder@.take(k + 1).drop_last() =~= dfsorder@.take(k as int));
            assert(dfsorder@.take(k + 1).last() == node);
        }
        if nodefilter[node] && !marks[node] {
            let mut fwd: Vec<bool> = no_marks(mat.width);
            let mut reached: Vec<Node> = Vec::new();
            stack.push(node);
            assert(stack@ =~= seq![node]);
            assert(reached@ =~= Seq::empty());
            drain(mat, true, nodefilter, &mut stack, &mut fwd, &mut reached);
            assert(fwd@ == reach_mask(mat@, nodefilter@, node));
            let mut back: Vec<bool> = no_marks(mat.width);
            let mut component: Vec<Node> = Vec::new();
            stack.push(node);
            assert(stack@ =~= seq![node]);
            assert(component@ =~= Seq::empty());
            drain(mat, false, &fwd, &mut stack, &mut back, &mut component);
            assert(component@ == scc_of(mat@, nodefilter@, node));
            proof {
                lemma_scc_of(mat@, nodefilter@, node);
            }
            let ghost held = marks@;
            let mut j: usize = 0;
            assert(component@.take(0) =~= Seq::empty());
            assert(marks@ =~= with_group(held, component@.take(0)));
            while j < component.len()
                invariant
                    j <= component@.len(),
                    marks@.len() == mat.width,
                    held.len() == mat.width,
                    nodefilter@.len() == mat.width,
                    forall|c: int| 0 <= c < component@.len() ==> accepted(nodefilter@, #[trigger] component@[c]),
                    marks@ == with_group(held, component@.take(j as int)),
                decreases component.len() - j,
            {
                let c = component[j];
                assert(accepted(nodefilter@, component@[j as int]));
                proof {
                    lemma_with_group_push(held, component@.take(j as int), c);
                    assert(component@.take(j + 1) =~= component@.take(j as int).push(c));
                }
                marks[c] = true;
                j = j + 1;
            }
            assert(component@.take(component@.len() as int) =~= component@);
            let ghost groups = lists(result@);
            result.push(component);
            assert(lists(result@) =~= groups.push(component@));
        }
        k = k + 1;
    }
    assert(dfsorder@.take(dfsorder@.len() as int) =~= dfsorder@);
    proof {
        lemma_components_disjoint(mat@, order@, nodefilter@);
        lemma_components_scc(mat@, order@, nodefilter@);
        lemma_components_cover(mat@, order@, nodefilter@);
    }
    result
}

/// The group `gi` has a position `i`.
pub open spec fn placed(groups: Seq<Seq<Node>>, gi: int, i: int) -> bool {
    0 <= gi < groups.len() && 0 <= i < groups[gi].len()
}

/// The node `v` stands in one of the groups.
pub open spec fn in_groups(groups: Seq<Seq<Node>>, v: int) -> bool {
    exists|gi: int, i: int| placed(groups, gi, i) && #[trigger] groups[gi][i] == v
}

/// The groups hold accepted nodes only, no node twice, and no group is
/// empty.
pub open spec fn disjoint_groups(groups: Seq<Seq<Node>>, filter: Seq<bool>) -> bool {
    &&& forall|gi: int, i: int|
        placed(groups, gi, i) ==> (#[trigger] groups[gi][i]) < filter.len() && filter[groups[gi][i] as int]
    &&& forall|gi: int, i: int, gj: int, j: int|
        placed(groups, gi, i) && placed(groups, gj, j) && (gi != gj || i != j) ==> #[trigger] groups[gi][i]
            != #[trigger] groups[gj][j]
    &&& forall|gi: int| 0 <= gi < groups.len() ==> (#[trigger] groups[gi]).len() > 0
}

/// The node `x` stands in the group exactly when it and `a` reach each
/// other.
pub open spec fn same_class(m: Seq<Seq<Time>>, filter: Seq<bool>, group: Seq<Node>, a: Node, x: Node) -> bool {
    group.contains(x) <==> mutual(m, filter, a, x)
}

/// Each group holds exactly the nodes that reach each of its nodes and are
/// reached by it.
pub open spec fn classes(m: Seq<Seq<Time>>, filter: Seq<bool>, groups: Seq<Seq<Node>>) -> bool {
    forall|gi: int, i: int, x: Node|
        placed(groups, gi, i) ==> #[trigger] same_class(m, filter, groups[gi], groups[gi][i], x)
}

/// The groups are disjoint, each is a strongly connected component, and
/// the marks name exactly the nodes grouped.
pub open spec fn grouped(m: Seq<Seq<Time>>, g: Grouping, filter: Seq<bool>) -> bool {
    &&& g.marks.len() == filter.len()
    &&& disjoint_groups(g.groups, filter)
    &&& classes(m, filter, g.groups)
    &&& forall|v: int| 0 <= v < g.marks.len() ==> (#[trigger] g.marks[v] <==> in_groups(g.groups, v))
}

/// Taking the nodes of `order` in turn keeps the groups disjoint and
/// strongly connected components, keeps the groups made before, and leaves
/// no accepted node of `order` without a group.
pub proof fn lemma_group_sweep(m: Seq<Seq<Time>>, filter: Seq<bool>, order: Seq<Node>, g: Grouping)
    requires
        filter.len() == m.len(),
        m.len() <= usize::MAX,
        grouped(m, g, filter),
    ensures
        grouped(m, group_sweep(m, filter, order, g), filter),
        all_entered(order, filter, group_sweep(m, filter, order, g).marks),
        g.groups.len() <= group_sweep(m, filter, order, g).groups.len(),
        forall|gi: int| 0 <= gi < g.groups.len() ==> #[trigger] group_sweep(m, filter, order, g).groups[gi] == g.groups[gi],
    decreases order.len(),
{
    if order.len() > 0 {
        let before = group_sweep(m, filter, order.drop_last(), g);
        let after = group_sweep(m, filter, order, g);
        let node = order.last();
        lemma_group_sweep(m, filter, order.drop_last(), g);
        if open_at(filter, before.marks, node) {
            let group = scc_of(m, filter, node);
            lemma_scc_of(m, filter, node);
            let last = before.groups.len() as int;
            assert(after.groups[last] == group);
            assert forall|gi: int, i: int| placed(after.groups, gi, i) implies (#[trigger] after.groups[gi][i])
                < filter.len() && filter[after.groups[gi][i] as int] by {
                if gi < last {
                    assert(placed(before.groups, gi, i));
                    assert(after.groups[gi] == before.groups[gi]);
                } else {
                    assert(accepted(filter, group[i]));
                }
            }
            assert forall|gi: int, i: int| placed(before.groups, gi, i) implies !group.contains(
                #[trigger] before.groups[gi][i],
            ) by {
                let a = before.groups[gi][i];
                if group.contains(a) {
                    assert(mutual(m, filter, node, a));
                    assert(same_class(m, filter, before.groups[gi], before.groups[gi][i], node));
                    assert(before.groups[gi].contains(node));
                    let j = choose|j: int| 0 <= j < before.groups[gi].len() && before.groups[gi][j] == node;
                    assert(placed(before.groups, gi, j) && before.groups[gi][j] == node as int);
                    assert(in_groups(before.groups, node as int));
                    assert(before.marks[node as int] <==> in_groups(before.groups, node as int));
                }
            }
            assert forall|gi: int, i: int, gj: int, j: int|
                placed(after.groups, gi, i) && placed(after.groups, gj, j) && (gi != gj || i != j) implies #[trigger] after.groups[gi][i]
                != #[trigger] after.groups[gj][j] by {
                if gi < last && gj < last {
                    assert(placed(before.groups, gi, i));
                    assert(placed(before.groups, gj, j));
                    assert(after.groups[gi] == before.groups[gi]);
                    assert(after.groups[gj] == before.groups[gj]);
                } else if gi < last {
                    assert(placed(before.groups, gi, i));
                    assert(after.groups[gi] == before.groups[gi]);
                    assert(!group.contains(before.groups[gi][i]));
                    assert(group.contains(group[j]));
                } else if gj < last {
                    assert(placed(before.groups, gj, j));
                    assert(after.groups[gj] == before.groups[gj]);
                    assert(!group.contains(before.groups[gj][j]));
                    assert(group.contains(group[i]));
                } else {
                    if i < j {
                        assert(group[i] != group[j]);
                    } else {
                        assert(group[j] != group[i]);
                    }
                }
            }
            assert forall|gi: int| 0 <= gi < after.groups.len() implies (#[trigger] after.groups[gi]).len() > 0 by {
                if gi < last {
                    assert(after.groups[gi] == before.groups[gi]);
                }
            }
            assert forall|gi: int, i: int, x: Node| placed(after.groups, gi, i) implies #[trigger] same_class(
                m,
                filter,
                after.groups[gi],
                after.groups[gi][i],
                x,
            ) by {
                if gi < last {
                    assert(after.groups[gi] == before.groups[gi]);
                    assert(placed(before.groups, gi, i));
                    assert(same_class(m, filter, before.groups[gi], before.groups[gi][i], x));
                } else {
                    assert(group.contains(group[i]));
                    lemma_mutual_shift(m, filter, node, group[i], x);
                }
            }
            assert forall|v: int| 0 <= v < after.marks.len() implies (#[trigger] after.marks[v] <==> in_groups(
                after.groups,
                v,
            )) by {
                assert(before.marks[v] <==> in_groups(before.groups, v));
                if in_groups(before.groups, v) {
                    let (gi, i) = choose|gi: int, i: int|
                        placed(before.groups, gi, i) && #[trigger] before.groups[gi][i] == v;
                    assert(after.groups[gi] == before.groups[gi]);
                    assert(placed(after.groups, gi, i) && after.groups[gi][i] == v);
                }
                if group.contains(v as usize) {
                    let i = choose|i: int| 0 <= i < group.len() && group[i] == v as usize;
                    assert(placed(after.groups, last, i) && after.groups[last][i] == v);
                }
                if in_groups(after.groups, v) {
                    let (gi, i) = choose|gi: int, i: int|
                        placed(after.groups, gi, i) && #[trigger] after.groups[gi][i] == v;
                    if gi < last {
                        assert(after.groups[gi] == before.groups[gi]);
                        assert(placed(before.groups, gi, i) && before.groups[gi][i] == v);
                    } else {
                        assert(group[i] == v as usize);
                        assert(group.contains(group[i]));
                    }
                }
            }
        }
        assert forall|k: int|
            0 <= k < order.len() && (#[trigger] order[k]) < filter.len() && filter[order[k] as int] implies after.marks[order[k] as int] by {
            let x = order[k] as int;
            if k < order.len() - 1 {
                assert(order.drop_last()[k] == order[k]);
                assert(before.marks[x]);
            } else {
                if open_at(filter, before.marks, node) {
                    lemma_scc_of(m, filter, node);
                }
            }
        }
    }
}

/// A grouping that holds no group is in order.
pub proof fn lemma_fresh_grouping(m: Seq<Seq<Time>>, filter: Seq<bool>)
    requires
        filter.len() == m.len(),
    ensures
        grouped(m, fresh_grouping(m.len()), filter),
{
    let start = fresh_grouping(m.len());
    assert forall|v: int| 0 <= v < start.marks.len() implies (#[trigger] start.marks[v] <==> in_groups(
        start.groups,
        v,
    )) by {
    }
}

/// The groups that `connected_component` returns hold accepted nodes only,
/// no node twice, and none of them is empty.
pub proof fn lemma_components_disjoint(m: Seq<Seq<Time>>, order: Seq<Node>, filter: Seq<bool>)
    requires
        filter.len() == m.len(),
        m.len() <= usize::MAX,
    ensures
        disjoint_groups(components_of(m, order, filter), filter),
{
    lemma_fresh_grouping(m, filter);
    lemma_group_sweep(m, filter, dfs_order(m, order, filter), fresh_grouping(m.len()));
}

/// The groups that `connected_component` returns are strongly connected
/// components: two of their nodes stand in one group exactly when each
/// reaches the other through accepted nodes.
pub proof fn lemma_components_scc(m: Seq<Seq<Time>>, order: Seq<Node>, filter: Seq<bool>)
    requires
        filter.len() == m.len(),
        m.len() <= usize::MAX,
    ensures
        forall|gi: int, i: int, gj: int, j: int|
            placed(components_of(m, order, filter), gi, i) && placed(components_of(m, order, filter), gj, j) ==> ((gi
                == gj) <==> mutual(
                m,
                filter,
                #[trigger] components_of(m, order, filter)[gi][i],
                #[trigger] components_of(m, order, filter)[gj][j],
            )),
{
    let groups = components_of(m, order, filter);
    lemma_fresh_grouping(m, filter);
    lemma_group_sweep(m, filter, dfs_order(m, order, filter), fresh_grouping(m.len()));
    assert forall|gi: int, i: int, gj: int, j: int| placed(groups, gi, i) && placed(groups, gj, j) implies ((gi
        == gj) <==> mutual(m, filter, #[trigger] groups[gi][i], #[trigger] groups[gj][j])) by {
        let a = groups[gi][i];
        let b = groups[gj][j];
        assert(same_class(m, filter, groups[gi], groups[gi][i], b));
        if gi == gj {
            assert(groups[gi][j] == b);
            assert(groups[gi].contains(b));
        }
        if mutual(m, filter, a, b) {
            assert(groups[gi].contains(b));
            let k = choose|k: int| 0 <= k < groups[gi].len() && groups[gi][k] == b;
            assert(placed(groups, gi, k));
            if gi != gj {
                assert(groups[gi][k] != groups[gj][j]);
            }
        }
    }
}

/// Every accepted node that `order` names stands in a group.
pub proof fn lemma_components_cover(m: Seq<Seq<Time>>, order: Seq<Node>, filter: Seq<bool>)
    requires
        filter.len() == m.len(),
        m.len() <= usize::MAX,
    ensures
        forall|k: int|
            0 <= k < order.len() && accepted(filter, #[trigger] order[k]) ==> in_groups(
                components_of(m, order, filter),
                order[k] as int,
            ),
{
    let visit = dfs_order(m, order, filter);
    let start = fresh_grouping(m.len());
    let after = group_sweep(m, filter, visit, start);
    lemma_dfs_order(m, order, filter);
    lemma_fresh_grouping(m, filter);
    lemma_group_sweep(m, filter, visit, start);
    assert forall|k: int| 0 <= k < order.len() && accepted(filter, #[trigger] order[k]) implies in_groups(
        after.groups,
        order[k] as int,
    ) by {
        let v = order[k];
        assert(visit.contains(order[k]));
        let i = choose|i: int| 0 <= i < visit.len() && visit[i] == order[k];
        assert(visit[i] == v);
        assert(after.marks[v as int]);
        assert(after.marks[v as int] <==> in_groups(after.groups, v as int));
    }
}

/// The groups that `connected_component` returns split the accepted nodes:
/// where `order` names every accepted node, each accepted node stands in
/// exactly one group, once, and nothing else stands in a group.
pub proof fn lemma_components_partition(m: Seq<Seq<Time>>, order: Seq<Node>, filter: Seq<bool>)
    requires
        filter.len() == m.len(),
        m.len() <= usize::MAX,
        forall|v: Node| v < m.len() && #[trigger] filter[v as int] ==> order.contains(v),
    ensures
        disjoint_groups(components_of(m, order, filter), filter),
        forall|v: Node|
            v < m.len() && #[trigger] filter[v as int] ==> in_groups(components_of(m, order, filter), v as int),
{
    lemma_components_disjoint(m, order, filter);
    lemma_components_cover(m, order, filter);
    assert forall|v: Node| v < m.len() && #[trigger] filter[v as int] implies in_groups(
        components_of(m, order, filter),
        v as int,
    ) by {
        assert(order.contains(v));
        let k = choose|k: int| 0 <= k < order.len() && order[k] == v;
        assert(accepted(filter, order[k]));
    }
}

} // verus!
