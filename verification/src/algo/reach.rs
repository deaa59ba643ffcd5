use vstd::prelude::*;
use crate::algo::distance::kept;
use crate::algo::distance::kept_within;
use crate::algo::distance::tracker_after;
use crate::algo::distance::DistanceTracker;
use crate::data::filtre::combine;
use crate::data::filtre::NodeFilter;
use crate::data::filtre::TimeFilter;
use crate::data::link::Link;
use crate::data::link::Time;
use crate::data::matrix::filled;
use crate::data::matrix::gap;
use crate::data::matrix::Matrix;

verus! {

/// A cell of the graph after a refresh: an edge is lost where the distance
/// lies more than `delta` after `time`.
pub open spec fn expired_cell(cell: Time, distance: Time, time: Time, delta: Time) -> Time {
    if cell == 1 && gap(distance, time) > delta {
        0
    } else {
        cell
    }
}

/// The graph `reach` once the pairs whose distance lies more than `delta`
/// after `time` have lost their edge. Nothing else changes.
pub open spec fn expired(reach: Seq<Seq<Time>>, dist: Seq<Seq<Time>>, time: Time, delta: Time) -> Seq<Seq<Time>> {
    Seq::new(
        reach.len(),
        |i: int| Seq::new(reach[i].len(), |j: int| expired_cell(reach[i][j], dist[i][j], time, delta)),
    )
}

/// Whether the graph is refreshed when the last link of `f` is taken in:
/// its instant differs from that of the link before it, and lies more than
/// `delta` before the instant of the first link.
pub open spec fn refreshes(f: Seq<Link>, delta: Time) -> bool {
    &&& f.len() >= 2
    &&& f[f.len() - 2].time != f.last().time
    &&& f.last().time < gap(f[0].time, delta)
}

/// The delta-reachability graph after the kept links `f`: it starts with
/// every edge, and is refreshed against the distances at the links that
/// `refreshes` names.
pub open spec fn reach_after(f: Seq<Link>, size: usize, delta: Time) -> Seq<Seq<Time>>
    decreases f.len(),
{
    if f.len() == 0 {
        filled(1, size as nat, size as nat)
    } else {
        let before = reach_after(f.drop_last(), size, delta);
        if refreshes(f, delta) {
            expired(before, tracker_after(f, size).dist, f.last().time, delta)
        } else {
            before
        }
    }
}

/// Update the delta-reachability graph using the distance matrix.
pub fn maj_reach_graph(reach: &mut Matrix<Time>, dist: &Matrix<Time>, time: Time, delta: Time)
    requires
        old(reach).wf(),
        dist.wf(),
        old(reach).width == dist.width,
        old(reach).height == dist.height,
    ensures
        final(reach).wf(),
        final(reach).width == old(reach).width,
        final(reach).height == old(reach).height,
        final(reach)@ == expired(old(reach)@, dist@, time, delta),
        forall|i: int, j: int|
            0 <= i < dist.width && 0 <= j < dist.height && old(reach)@[i][j] == 0
                ==> #[trigger] final(reach)@[i][j] == 0,
{
    let mut i: usize = 0;
    while i < dist.width
        invariant
            i <= dist.width,
            reach.wf(),
            dist.wf(),
            reach.width == dist.width,
            reach.height == dist.height,
            reach.width == old(reach).width,
            reach.height == old(reach).height,
            old(reach).wf(),
            forall|a: int, b: int|
                0 <= a < dist.width && 0 <= b < dist.height ==> #[trigger] reach@[a][b] == (if a < i {
                    expired_cell(old(reach)@[a][b], dist@[a][b], time, delta)
                } else {
                    old(reach)@[a][b]
                }),
        decreases dist.width - i,
    {
        let mut j: usize = 0;
        while j < dist.height
            invariant
                i < dist.width,
                j <= dist.height,
                reach.wf(),
                dist.wf(),
                reach.width == dist.width,
                reach.height == dist.height,
                reach.width == old(reach).width,
                reach.height == old(reach).height,
                old(reach).wf(),
                forall|a: int, b: int|
                    0 <= a < dist.width && 0 <= b < dist.height ==> #[trigger] reach@[a][b] == (if a < i || (a
                        == i && b < j) {
                        expired_cell(old(reach)@[a][b], dist@[a][b], time, delta)
                    } else {
                        old(reach)@[a][b]
                    }),
            decreases dist.height - j,
        {
            if reach.get(i, j) == 1 {
                if dist.get(i, j).saturating_sub(time) > delta {
                    reach.set(i, j, 0);
                }
            }
            j = j + 1;
        }
        i = i + 1;
    }
    assert(reach@ =~~= expired(old(reach)@, dist@, time, delta));
}

/// The delta-reachability graph of the filtered stream: the cell (u, v) is 1
/// as long as u can still delta-reach v, else 0.
pub fn delta_reachability_graph(
    links: &Vec<Link>,
    delta: Time,
    size: usize,
    nfilter: &NodeFilter,
    tfilter: &TimeFilter,
) -> (reach: Matrix<Time>)
    requires
        kept_within(links@, size, nfilter, tfilter),
    ensures
        reach.square_of(size),
        reach@ == reach_after(kept(links@, nfilter, tfilter), size, delta),
{
    let mut tracker = DistanceTracker::new(size);
    let mut reach: Matrix<Time> = Matrix::new(1, size, size);
    let mut pcurr: Time = tracker.curr;
    let mut first: bool = true;
    let mut tmax: Time = Time::MAX;
    let mut i: usize = 0;
    assert(links@.take(0) =~= Seq::empty());
    while i < links.len()
        invariant
            i <= links.len(),
            kept_within(links@, size, nfilter, tfilter),
            tracker.wf(size),
            reach.square_of(size),
            tracker@ == tracker_after(kept(links@.take(i as int), nfilter, tfilter), size),
            first == (kept(links@.take(i as int), nfilter, tfilter).len() == 0),
            !first ==> pcurr == kept(links@.take(i as int), nfilter, tfilter).last().time,
            !first ==> tmax == kept(links@.take(i as int), nfilter, tfilter)[0].time,
            reach@ == reach_after(kept(links@.take(i as int), nfilter, tfilter), size, delta),
        decreases links.len() - i,
    {
        let link = links[i];
        proof {
            assert(links@.take(i + 1).drop_last() =~= links@.take(i as int));
            assert(links@.take(i + 1).last() == link);
            assert(links@[i as int] == link);
        }
        let ghost f = kept(links@.take(i as int), nfilter, tfilter);
        if combine(link, nfilter, tfilter) {
            let ghost g = f.push(link);
            assert(g.drop_last() =~= f);
            assert(kept(links@.take(i + 1), nfilter, tfilter) == g);
            tracker.update(link);
            if first {
                pcurr = tracker.curr;
                first = false;
                tmax = link.time;
            }
            if tracker.curr != pcurr {
                pcurr = tracker.curr;
                if tracker.curr < tmax.saturating_sub(delta) {
                    maj_reach_graph(&mut reach, &tracker.dist, link.time, delta);
                }
            }
        }
        i = i + 1;
    }
    assert(links@.take(links@.len() as int) =~= links@);
    reach
}

/// The graph keeps its side, and each cell holds 0 or 1.
pub proof fn lemma_reach_cells(f: Seq<Link>, size: usize, delta: Time)
    ensures
        reach_after(f, size, delta).len() == size,
        forall|i: int| 0 <= i < size ==> (#[trigger] reach_after(f, size, delta)[i]).len() == size,
        forall|i: int, j: int|
            0 <= i < size && 0 <= j < size ==> (#[trigger] reach_after(f, size, delta)[i][j]) <= 1,
    decreases f.len(),
{
    if f.len() > 0 {
        lemma_reach_cells(f.drop_last(), size, delta);
    }
}

/// The graph only loses edges: a cell that holds 0 after the first `n`
/// links holds 0 after any longer run of the same stream, and no cell ever
/// grows.
pub proof fn lemma_reach_monotone(f: Seq<Link>, n: int, size: usize, delta: Time, i: int, j: int)
    requires
        0 <= n <= f.len(),
        0 <= i < size,
        0 <= j < size,
    ensures
        reach_after(f, size, delta)[i][j] <= reach_after(f.take(n), size, delta)[i][j],
        reach_after(f.take(n), size, delta)[i][j] == 0 ==> reach_after(f, size, delta)[i][j] == 0,
    decreases f.len(),
{
    if n == f.len() {
        assert(f.take(n) =~= f);
    } else {
        assert(f.drop_last().take(n) =~= f.take(n));
        lemma_reach_monotone(f.drop_last(), n, size, delta, i, j);
        lemma_reach_cells(f.drop_last(), size, delta);
    }
}

} // verus!
