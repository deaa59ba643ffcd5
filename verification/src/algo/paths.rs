use vstd::prelude::*;
use crate::algo::traversal::enter;
use crate::algo::traversal::found_since;
use crate::algo::traversal::fresh_walk;
use crate::algo::traversal::lemma_run_grown;
use crate::algo::traversal::lemma_unmarked_update;
use crate::algo::traversal::neighbours;
use crate::algo::traversal::open_at;
use crate::algo::traversal::run;
use crate::algo::traversal::unmarked;
use crate::algo::traversal::Walk;
use crate::data::link::Node;
use crate::data::link::Time;
use crate::data::matrix::is_edge;
use crate::data::matrix::lemma_column_edges;
use crate::data::matrix::lemma_row_edges;

verus! {

/// The filter accepts the node.
pub open spec fn accepted(filter: Seq<bool>, v: Node) -> bool {
    v < filter.len() && filter[v as int]
}

/// One step leads from `x` to `y`: along an edge when going forward,
/// against an edge when going backward.
pub open spec fn hop(m: Seq<Seq<Time>>, forward: bool, x: Node, y: Node) -> bool {
    x < m.len() && y < m.len() && if forward {
        is_edge(m[x as int][y as int])
    } else {
        is_edge(m[y as int][x as int])
    }
}

/// The nodes of `path` are accepted, and one step leads from each to the
/// next.
pub open spec fn is_path(m: Seq<Seq<Time>>, forward: bool, filter: Seq<bool>, path: Seq<Node>) -> bool {
    &&& path.len() >= 1
    &&& forall|i: int| 0 <= i < path.len() ==> accepted(filter, #[trigger] path[i])
    &&& forall|i: int| 0 <= i < path.len() - 1 ==> hop(m, forward, #[trigger] path[i], path[i + 1])
}

/// The node `a` reaches the node `b` through accepted nodes: some path
/// leads from the one to the other.
pub open spec fn reaches(m: Seq<Seq<Time>>, forward: bool, filter: Seq<bool>, a: Node, b: Node) -> bool {
    exists|path: Seq<Node>| #[trigger] is_path(m, forward, filter, path) && path[0] == a && path.last() == b
}

/// An accepted node reaches itself, and what a node reaches is accepted, as
/// the node is.
pub proof fn lemma_reach_ends(m: Seq<Seq<Time>>, forward: bool, filter: Seq<bool>, a: Node, b: Node)
    ensures
        accepted(filter, a) ==> reaches(m, forward, filter, a, a),
        reaches(m, forward, filter, a, b) ==> accepted(filter, a) && accepted(filter, b),
{
    if accepted(filter, a) {
        assert(is_path(m, forward, filter, seq![a]));
        assert(seq![a][0] == a);
    }
    if reaches(m, forward, filter, a, b) {
        let p = choose|path: Seq<Node>| #[trigger] is_path(m, forward, filter, path) && path[0] == a && path.last() == b;
        assert(accepted(filter, p[0]));
        assert(accepted(filter, p[p.len() - 1]));
    }
}

/// Where one step leads from an accepted node to a node that reaches `c`,
/// the first node reaches `c`.
pub proof fn lemma_reach_step(m: Seq<Seq<Time>>, forward: bool, filter: Seq<bool>, a: Node, b: Node, c: Node)
    requires
        accepted(filter, a),
        hop(m, forward, a, b),
        reaches(m, forward, filter, b, c),
    ensures
        reaches(m, forward, filter, a, c),
{
    let p = choose|path: Seq<Node>| #[trigger] is_path(m, forward, filter, path) && path[0] == b && path.last() == c;
    let q = seq![a] + p;
    assert forall|i: int| 0 <= i < q.len() implies accepted(filter, #[trigger] q[i]) by {
        if i > 0 {
            assert(q[i] == p[i - 1]);
        }
    }
    assert forall|i: int| 0 <= i < q.len() - 1 implies hop(m, forward, #[trigger] q[i], q[i + 1]) by {
        if i > 0 {
            assert(q[i] == p[i - 1]);
            assert(q[i + 1] == p[i]);
        } else {
            assert(q[1] == p[0]);
        }
    }
    assert(is_path(m, forward, filter, q));
    assert(q[0] == a && q.last() == c);
}

/// Reaching goes on: where `a` reaches `b` and `b` reaches `c`, `a` reaches
/// `c`.
pub proof fn lemma_reach_join(m: Seq<Seq<Time>>, forward: bool, filter: Seq<bool>, a: Node, b: Node, c: Node)
    requires
        reaches(m, forward, filter, a, b),
        reaches(m, forward, filter, b, c),
    ensures
        reaches(m, forward, filter, a, c),
{
    let p = choose|path: Seq<Node>| #[trigger] is_path(m, forward, filter, path) && path[0] == a && path.last() == b;
    let r = choose|path: Seq<Node>| #[trigger] is_path(m, forward, filter, path) && path[0] == b && path.last() == c;
    let q = p + r.subrange(1, r.len() as int);
    assert forall|i: int| 0 <= i < q.len() implies accepted(filter, #[trigger] q[i]) by {
        if i < p.len() {
            assert(q[i] == p[i]);
        } else {
            assert(q[i] == r[i - p.len() + 1]);
        }
    }
    assert forall|i: int| 0 <= i < q.len() - 1 implies hop(m, forward, #[trigger] q[i], q[i + 1]) by {
        if i < p.len() - 1 {
            assert(q[i] == p[i]);
            assert(q[i + 1] == p[i + 1]);
        } else if i == p.len() - 1 {
            assert(q[i] == p[i]);
            assert(p[i] == r[0]);
            assert(q[i + 1] == r[1]);
        } else {
            assert(q[i] == r[i - p.len() + 1]);
            assert(q[i + 1] == r[i - p.len() + 2]);
        }
    }
    assert(is_path(m, forward, filter, q));
    assert(q[0] == a);
    if r.len() == 1 {
        assert(q =~= p);
    } else {
        assert(q.last() == r.last());
    }
}

/// A path walked the other way is a path in the other direction.
pub proof fn lemma_reach_turn(m: Seq<Seq<Time>>, forward: bool, filter: Seq<bool>, a: Node, b: Node)
    requires
        reaches(m, forward, filter, a, b),
    ensures
        reaches(m, !forward, filter, b, a),
{
    let p = choose|path: Seq<Node>| #[trigger] is_path(m, forward, filter, path) && path[0] == a && path.last() == b;
    let q = Seq::new(p.len(), |i: int| p[p.len() - 1 - i]);
    assert forall|i: int| 0 <= i < q.len() implies accepted(filter, #[trigger] q[i]) by {
        assert(accepted(filter, p[p.len() - 1 - i]));
    }
    assert forall|i: int| 0 <= i < q.len() - 1 implies hop(m, !forward, #[trigger] q[i], q[i + 1]) by {
        let k = p.len() - 2 - i;
        assert(hop(m, forward, p[k], p[k + 1]));
    }
    assert(is_path(m, !forward, filter, q));
    assert(q[0] == b && q.last() == a);
}

/// A path through the nodes of a filter is a path through the nodes of
/// any filter that accepts them.
pub proof fn lemma_reach_wider(
    m: Seq<Seq<Time>>,
    forward: bool,
    narrow: Seq<bool>,
    wide: Seq<bool>,
    a: Node,
    b: Node,
)
    requires
        forall|v: Node| #[trigger] accepted(narrow, v) ==> accepted(wide, v),
        reaches(m, forward, narrow, a, b),
    ensures
        reaches(m, forward, wide, a, b),
{
    let p = choose|path: Seq<Node>| #[trigger] is_path(m, forward, narrow, path) && path[0] == a && path.last() == b;
    assert forall|i: int| 0 <= i < p.len() implies accepted(wide, #[trigger] p[i]) by {
        assert(accepted(narrow, p[i]));
    }
    assert(is_path(m, forward, wide, p));
}

/// The first node of a path reaches each node of it, and each node of it
/// reaches the last.
pub proof fn lemma_reach_on_path(m: Seq<Seq<Time>>, forward: bool, filter: Seq<bool>, path: Seq<Node>, i: int)
    requires
        is_path(m, forward, filter, path),
        0 <= i < path.len(),
    ensures
        reaches(m, forward, filter, path[0], path[i]),
        reaches(m, forward, filter, path[i], path.last()),
{
    let head = path.take(i + 1);
    assert forall|k: int| 0 <= k < head.len() implies accepted(filter, #[trigger] head[k]) by {
        assert(accepted(filter, path[k]));
    }
    assert forall|k: int| 0 <= k < head.len() - 1 implies hop(m, forward, #[trigger] head[k], head[k + 1]) by {
        assert(hop(m, forward, path[k], path[k + 1]));
    }
    assert(is_path(m, forward, filter, head));
    assert(head[0] == path[0] && head.last() == path[i]);
    let tail = path.skip(i);
    assert forall|k: int| 0 <= k < tail.len() implies accepted(filter, #[trigger] tail[k]) by {
        assert(accepted(filter, path[k + i]));
    }
    assert forall|k: int| 0 <= k < tail.len() - 1 implies hop(m, forward, #[trigger] tail[k], tail[k + 1]) by {
        assert(hop(m, forward, path[k + i], path[k + i + 1]));
    }
    assert(is_path(m, forward, filter, tail));
    assert(tail[0] == path[i] && tail.last() == path.last());
}

/// The marked nodes are closed: every accepted node one step from a marked
/// node is marked.
pub open spec fn closed_marks(m: Seq<Seq<Time>>, forward: bool, filter: Seq<bool>, marks: Seq<bool>) -> bool {
    forall|x: Node, y: Node|
        x < marks.len() && marks[x as int] && accepted(filter, y) && #[trigger] hop(m, forward, x, y)
            ==> marks[y as int]
}

/// Closed marks that hold the first node of a path hold every node of it.
pub proof fn lemma_closed_holds(
    m: Seq<Seq<Time>>,
    forward: bool,
    filter: Seq<bool>,
    marks: Seq<bool>,
    path: Seq<Node>,
    i: int,
)
    requires
        marks.len() == filter.len(),
        closed_marks(m, forward, filter, marks),
        is_path(m, forward, filter, path),
        marks[path[0] as int],
        0 <= i < path.len(),
    ensures
        marks[path[i] as int],
    decreases i,
{
    if i > 0 {
        lemma_closed_holds(m, forward, filter, marks, path, i - 1);
        assert(accepted(filter, path[i - 1]));
        assert(accepted(filter, path[i]));
        assert(hop(m, forward, path[i - 1], path[i]));
    }
}

/// Some node of the stack reaches `x`.
pub open spec fn from_stack(m: Seq<Seq<Time>>, forward: bool, filter: Seq<bool>, stack: Seq<Node>, x: Node) -> bool {
    exists|k: int| 0 <= k < stack.len() && reaches(m, forward, filter, #[trigger] stack[k], x)
}

/// The neighbours of a node are the nodes one step from it.
pub proof fn lemma_neighbours(m: Seq<Seq<Time>>, forward: bool, v: Node)
    requires
        v < m.len() <= usize::MAX,
    ensures
        forall|k: int|
            0 <= k < neighbours(m, forward, v).len() ==> hop(m, forward, v, #[trigger] neighbours(m, forward, v)[k]),
        forall|y: Node| #[trigger] hop(m, forward, v, y) ==> neighbours(m, forward, v).contains(y),
{
    lemma_row_edges(m, v as int, m.len() as int);
    lemma_column_edges(m, v as int, m.len() as int);
}

/// What a run enters is reached from its stack, and what lies one step
/// from a node that it enters is marked when it ends.
pub proof fn lemma_run_reach(m: Seq<Seq<Time>>, forward: bool, filter: Seq<bool>, stack: Seq<Node>, w: Walk)
    requires
        filter.len() == w.marks.len(),
        filter.len() == m.len(),
        m.len() <= usize::MAX,
    ensures
        forall|i: int|
            w.found.len() <= i < run(m, forward, filter, stack, w).found.len() ==> from_stack(
                m,
                forward,
                filter,
                stack,
                #[trigger] run(m, forward, filter, stack, w).found[i],
            ),
        forall|i: int, y: Node|
            w.found.len() <= i < run(m, forward, filter, stack, w).found.len() && accepted(filter, y) && #[trigger] hop(
                m,
                forward,
                run(m, forward, filter, stack, w).found[i],
                y,
            ) ==> run(m, forward, filter, stack, w).marks[y as int],
    decreases unmarked(w.marks), stack.len(),
{
    let after = run(m, forward, filter, stack, w);
    let a = w.found.len() as int;
    if stack.len() > 0 {
        let v = stack.last();
        let rest = stack.drop_last();
        if open_at(filter, w.marks, v) {
            lemma_unmarked_update(w.marks, v as int);
            let mid = enter(w, v);
            let pending = rest + neighbours(m, forward, v);
            lemma_run_reach(m, forward, filter, pending, mid);
            lemma_run_grown(m, forward, filter, pending, mid);
            lemma_neighbours(m, forward, v);
            assert(after == run(m, forward, filter, pending, mid));
            assert(after.found[a] == mid.found[a]);
            assert(mid.found[a] == v);
            assert forall|i: int| a <= i < after.found.len() implies from_stack(
                m,
                forward,
                filter,
                stack,
                #[trigger] after.found[i],
            ) by {
                let x = after.found[i];
                if i == a {
                    lemma_reach_ends(m, forward, filter, v, v);
                    assert(stack[stack.len() - 1] == v);
                } else {
                    assert(from_stack(m, forward, filter, pending, x));
                    let k = choose|k: int|
                        0 <= k < pending.len() && reaches(m, forward, filter, #[trigger] pending[k], x);
                    if k < rest.len() {
                        assert(pending[k] == stack[k]);
                    } else {
                        let s = neighbours(m, forward, v)[k - rest.len()];
                        assert(pending[k] == s);
                        lemma_reach_step(m, forward, filter, v, s, x);
                        assert(stack[stack.len() - 1] == v);
                    }
                }
            }
            assert forall|i: int, y: Node|
                a <= i < after.found.len() && accepted(filter, y) && #[trigger] hop(
                    m,
                    forward,
                    after.found[i],
                    y,
                ) implies after.marks[y as int] by {
                if i == a {
                    assert(neighbours(m, forward, v).contains(y));
                    let j = choose|j: int|
                        0 <= j < neighbours(m, forward, v).len() && neighbours(m, forward, v)[j] == y;
                    assert(pending[rest.len() + j] == y);
                } else {
                    assert(hop(m, forward, run(m, forward, filter, pending, mid).found[i], y));
                }
            }
        } else {
            lemma_run_reach(m, forward, filter, rest, w);
            assert(after == run(m, forward, filter, rest, w));
            assert forall|i: int, y: Node|
                a <= i < after.found.len() && accepted(filter, y) && #[trigger] hop(
                    m,
                    forward,
                    after.found[i],
                    y,
                ) implies after.marks[y as int] by {
                assert(hop(m, forward, run(m, forward, filter, rest, w).found[i], y));
            }
            assert forall|i: int| a <= i < after.found.len() implies from_stack(
                m,
                forward,
                filter,
                stack,
                #[trigger] after.found[i],
            ) by {
                let x = after.found[i];
                assert(from_stack(m, forward, filter, rest, x));
                let k = choose|k: int| 0 <= k < rest.len() && reaches(m, forward, filter, #[trigger] rest[k], x);
                assert(rest[k] == stack[k]);
            }
        }
    }
}

/// A run from one accepted node, with no node marked before, marks exactly
/// the nodes that the node reaches, and enters each of them once.
pub proof fn lemma_reach_set(m: Seq<Seq<Time>>, forward: bool, filter: Seq<bool>, v: Node)
    requires
        filter.len() == m.len(),
        m.len() <= usize::MAX,
        accepted(filter, v),
    ensures
        run(m, forward, filter, seq![v], fresh_walk(m.len())).marks.len() == m.len(),
        forall|x: Node|
            x < m.len() ==> (#[trigger] run(m, forward, filter, seq![v], fresh_walk(m.len())).marks[x as int]
                <==> reaches(m, forward, filter, v, x)),
        forall|x: Node|
            #[trigger] run(m, forward, filter, seq![v], fresh_walk(m.len())).found.contains(x) <==> reaches(
                m,
                forward,
                filter,
                v,
                x,
            ),
        forall|i: int, j: int|
            0 <= i < j < run(m, forward, filter, seq![v], fresh_walk(m.len())).found.len() ==> run(
                m,
                forward,
                filter,
                seq![v],
                fresh_walk(m.len()),
            ).found[i] != run(m, forward, filter, seq![v], fresh_walk(m.len())).found[j],
{
    let start = fresh_walk(m.len());
    let stack = seq![v];
    let after = run(m, forward, filter, stack, start);
    lemma_run_grown(m, forward, filter, stack, start);
    lemma_run_reach(m, forward, filter, stack, start);
    assert(stack[0] == v);
    assert(after.marks[v as int]);
    assert(closed_marks(m, forward, filter, after.marks)) by {
        assert forall|x: Node, y: Node|
            x < after.marks.len() && after.marks[x as int] && accepted(filter, y) && #[trigger] hop(
                m,
                forward,
                x,
                y,
            ) implies after.marks[y as int] by {
            assert(after.marks[x as int] <==> (start.marks[x as int] || found_since(after.found, 0, x as int)));
            let i = choose|i: int| 0 <= i < after.found.len() && #[trigger] after.found[i] == x as int;
            assert(hop(m, forward, after.found[i], y));
        }
    }
    assert forall|x: Node| x < m.len() implies (#[trigger] after.marks[x as int] <==> reaches(
        m,
        forward,
        filter,
        v,
        x,
    )) by {
        assert(after.marks[x as int] <==> (start.marks[x as int] || found_since(after.found, 0, x as int)));
        if after.marks[x as int] {
            let i = choose|i: int| 0 <= i < after.found.len() && #[trigger] after.found[i] == x as int;
            assert(from_stack(m, forward, filter, stack, after.found[i]));
        }
        if reaches(m, forward, filter, v, x) {
            let p = choose|path: Seq<Node>|
                #[trigger] is_path(m, forward, filter, path) && path[0] == v && path.last() == x;
            lemma_closed_holds(m, forward, filter, after.marks, p, p.len() - 1);
        }
    }
    assert forall|x: Node| #[trigger] after.found.contains(x) <==> reaches(m, forward, filter, v, x) by {
        if after.found.contains(x) {
            let i = choose|i: int| 0 <= i < after.found.len() && after.found[i] == x;
            assert(open_at(filter, start.marks, after.found[i]));
            assert(after.marks[x as int] <==> (start.marks[x as int] || found_since(after.found, 0, x as int)));
            assert(found_since(after.found, 0, x as int));
        }
        if reaches(m, forward, filter, v, x) {
            lemma_reach_ends(m, forward, filter, v, x);
            assert(after.marks[x as int]);
            assert(after.marks[x as int] <==> (start.marks[x as int] || found_since(after.found, 0, x as int)));
            let i = choose|i: int| 0 <= i < after.found.len() && #[trigger] after.found[i] == x as int;
            assert(after.found[i] == x);
        }
    }
}

} // verus!
