use vstd::prelude::*;
use crate::data::filtre::combine;
use crate::data::filtre::passes;
use crate::data::filtre::NodeFilter;
use crate::data::filtre::TimeFilter;
use crate::data::link::Link;
use crate::data::link::Time;
use crate::data::matrix::filled;
use crate::data::matrix::subset_delta_clique;
use crate::data::matrix::Matrix;

verus! {

/// What the tracker holds between two links: the distances, their snapshot
/// at the last change of instant, and the instant being tracked
/// (`Time::MAX` before the first link).
pub struct Tracker {
    pub dist: Seq<Seq<Time>>,
    pub p_dist: Seq<Seq<Time>>,
    pub curr: Time,
}

/// The smaller of two instants.
pub open spec fn earliest(a: Time, b: Time) -> Time {
    if a <= b {
        a
    } else {
        b
    }
}

/// The table `m` with `t` written on its diagonal.
pub open spec fn with_diag(m: Seq<Seq<Time>>, t: Time) -> Seq<Seq<Time>> {
    Seq::new(
        m.len(),
        |x: int|
            Seq::new(
                m[x].len(),
                |y: int|
                    if x == y {
                        t
                    } else {
                        m[x][y]
                    },
            ),
    )
}

/// One cell of the distances after the link was relaxed against the snapshot
/// `p`: a direct contact holds the link's instant, and each end of the link
/// takes over what the other end knew of a third node, where that is later
/// than the link and earlier than what it knew itself.
pub open spec fn relaxed_cell(d: Seq<Seq<Time>>, p: Seq<Seq<Time>>, link: Link, x: int, i: int) -> Time {
    let u = link.node1 as int;
    let v = link.node2 as int;
    let t = link.time;
    if i == u {
        if x == v {
            t
        } else {
            d[x][i]
        }
    } else if i == v {
        if x == u {
            t
        } else {
            d[x][i]
        }
    } else if x == v && p[u][i] > t {
        earliest(d[v][i], p[u][i])
    } else if x == u && p[v][i] > t {
        earliest(d[u][i], p[v][i])
    } else {
        d[x][i]
    }
}

/// The distances `d` after the link was relaxed against the snapshot `p`.
pub open spec fn relaxed(d: Seq<Seq<Time>>, p: Seq<Seq<Time>>, link: Link) -> Seq<Seq<Time>> {
    Seq::new(d.len(), |x: int| Seq::new(d[x].len(), |i: int| relaxed_cell(d, p, link, x, i)))
}

/// The tracker before any link: nothing is known.
pub open spec fn tracker_start(size: usize) -> Tracker {
    Tracker {
        dist: filled(Time::MAX, size as nat, size as nat),
        p_dist: filled(Time::MAX, size as nat, size as nat),
        curr: Time::MAX,
    }
}

/// The tracker after one more link. At a change of instant the distances
/// are first saved as the snapshot and their diagonal is set to the new
/// instant; on the first link only the diagonal is set.
pub open spec fn tracker_step(s: Tracker, link: Link) -> Tracker {
    let t = link.time;
    let snapshot = if s.curr != Time::MAX && s.curr != t {
        s.dist
    } else {
        s.p_dist
    };
    let reset = if s.curr == Time::MAX || s.curr != t {
        with_diag(s.dist, t)
    } else {
        s.dist
    };
    Tracker { dist: relaxed(reset, snapshot, link), p_dist: snapshot, curr: t }
}

/// The tracker after the links of `links`, fed in order. The links are
/// taken as they come, forward or back in time: what counts is where the
/// instant changes from one link to the next. Links of one instant that
/// follow one another are relaxed against the same snapshot.
pub open spec fn tracker_after(links: Seq<Link>, size: usize) -> Tracker
    decreases links.len(),
{
    if links.len() == 0 {
        tracker_start(size)
    } else {
        tracker_step(tracker_after(links.drop_last(), size), links.last())
    }
}

/// Both tables of the tracker are square of side `size`.
pub open spec fn tracker_sized(s: Tracker, size: usize) -> bool {
    &&& s.dist.len() == size
    &&& s.p_dist.len() == size
    &&& forall|x: int| 0 <= x < size ==> (#[trigger] s.dist[x]).len() == size
    &&& forall|x: int| 0 <= x < size ==> (#[trigger] s.p_dist[x]).len() == size
}

/// The links of `links` that pass both filters, in order.
pub open spec fn kept(links: Seq<Link>, nfilter: &NodeFilter, tfilter: &TimeFilter) -> Seq<Link>
    decreases links.len(),
{
    if links.len() == 0 {
        Seq::empty()
    } else if passes(links.last(), nfilter, tfilter) {
        kept(links.drop_last(), nfilter, tfilter).push(links.last())
    } else {
        kept(links.drop_last(), nfilter, tfilter)
    }
}

/// Every link names nodes below `size`.
pub open spec fn within(links: Seq<Link>, size: usize) -> bool {
    forall|k: int| 0 <= k < links.len() ==> (#[trigger] links[k]).node1 < size && links[k].node2 < size
}

/// Update the distance matrix with a new link.
pub fn maj_distance(link: Link, dist: &mut Matrix<Time>, p_dist: &mut Matrix<Time>, curr: &mut Time)
    requires
        old(dist).square_of(old(dist).width),
        old(p_dist).square_of(old(dist).width),
        link.node1 < old(dist).width,
        link.node2 < old(dist).width,
    ensures
        final(dist).square_of(old(dist).width),
        final(p_dist).square_of(old(dist).width),
        (Tracker { dist: final(dist)@, p_dist: final(p_dist)@, curr: *final(curr) }) == tracker_step(
            (Tracker { dist: old(dist)@, p_dist: old(p_dist)@, curr: *old(curr) }),
            link,
        ),
        final(dist)@[link.node1 as int][link.node2 as int] == link.time,
        final(dist)@[link.node2 as int][link.node1 as int] == link.time,
{
    let u = link.node1;
    let v = link.node2;
    let t = link.time;
    if *curr == Time::MAX {
        *curr = t;
        dist.diag(t);
    } else if *curr != t {
        p_dist.copy(dist);
        dist.diag(t);
        *curr = t;
    }
    let ghost before = Tracker { dist: old(dist)@, p_dist: old(p_dist)@, curr: *old(curr) };
    let ghost snapshot = p_dist@;
    let ghost reset = dist@;
    assert(snapshot == tracker_step(before, link).p_dist);
    assert(reset =~~= if before.curr == Time::MAX || before.curr != t {
        with_diag(before.dist, t)
    } else {
        before.dist
    });
    let size = dist.width;
    let mut i: usize = 0;
    while i < size
        invariant
            i <= size,
            size == old(dist).width,
            u == link.node1,
            v == link.node2,
            t == link.time,
            u < size,
            v < size,
            dist.square_of(size),
            p_dist.square_of(size),
            p_dist@ == snapshot,
            reset.len() == size,
            forall|x: int| 0 <= x < size ==> (#[trigger] reset[x]).len() == size,
            forall|x: int, c: int|
                0 <= x < size && 0 <= c < size ==> #[trigger] dist@[x][c] == (if c < i {
                    relaxed_cell(reset, snapshot, link, x, c)
                } else {
                    reset[x][c]
                }),
        decreases size - i,
    {
        if u == i {
            dist.set(v, i, t);
        } else if v == i {
            dist.set(u, i, t);
        } else {
            if p_dist.get(u, i) > t {
                let known = dist.get(v, i);
                let other = p_dist.get(u, i);
                let min_res = if known <= other {
                    known
                } else {
                    other
                };
                dist.set(v, i, min_res);
            }
            if p_dist.get(v, i) > t {
                let known = dist.get(u, i);
                let other = p_dist.get(v, i);
                let min_res = if known <= other {
                    known
                } else {
                    other
                };
                dist.set(u, i, min_res);
            }
        }
        i = i + 1;
    }
    assert(dist@ =~~= relaxed(reset, snapshot, link));
}

/// The distance tracker: the distances between the nodes, their snapshot
/// at the last change of instant, and the instant being tracked.
pub struct DistanceTracker {
    pub dist: Matrix<Time>,
    pub p_dist: Matrix<Time>,
    pub curr: Time,
}

impl DistanceTracker {
    /// What the tracker holds.
    pub open spec fn view(&self) -> Tracker {
        Tracker { dist: self.dist@, p_dist: self.p_dist@, curr: self.curr }
    }

    /// Both tables are square of side `size`.
    pub open spec fn wf(&self, size: usize) -> bool {
        self.dist.square_of(size) && self.p_dist.square_of(size)
    }

    /// A tracker over `size` nodes that has seen no link.
    pub fn new(size: usize) -> (tracker: DistanceTracker)
        ensures
            tracker.wf(size),
            tracker@ == tracker_start(size),
    {
        DistanceTracker {
            dist: Matrix::new(Time::MAX, size, size),
            p_dist: Matrix::new(Time::MAX, size, size),
            curr: Time::MAX,
        }
    }

    /// Take in the next link of the stream.
    pub fn update(&mut self, link: Link)
        requires
            old(self).wf(old(self).dist.width),
            link.node1 < old(self).dist.width,
            link.node2 < old(self).dist.width,
        ensures
            final(self).wf(old(self).dist.width),
            final(self)@ == tracker_step(old(self)@, link),
            final(self).dist@[link.node1 as int][link.node2 as int] == link.time,
            final(self).dist@[link.node2 as int][link.node1 as int] == link.time,
    {
        maj_distance(link, &mut self.dist, &mut self.p_dist, &mut self.curr);
    }
}

/// The tables of the tracker keep their side.
pub proof fn lemma_tracker_sized(links: Seq<Link>, size: usize)
    ensures
        tracker_sized(tracker_after(links, size), size),
    decreases links.len(),
{
    if links.len() > 0 {
        lemma_tracker_sized(links.drop_last(), size);
    }
}

/// The report on the kept links `f`: one entry for each link whose instant
/// differs from that of the link before it, which says whether the accepted
/// nodes are within `delta` of one another once that link is taken in.
pub open spec fn connectivity(f: Seq<Link>, size: usize, delta: Time, nfilter: &NodeFilter) -> Seq<(Time, bool)>
    decreases f.len(),
{
    if f.len() == 0 {
        Seq::empty()
    } else {
        let before = connectivity(f.drop_last(), size, delta, nfilter);
        let t = f.last().time;
        if f.len() >= 2 && f[f.len() - 2].time != t {
            before.push((t, subset_delta_clique(tracker_after(f, size).dist, t, delta, nfilter.accepted())))
        } else {
            before
        }
    }
}

/// The links that pass the filters name nodes below `size`.
pub open spec fn kept_within(links: Seq<Link>, size: usize, nfilter: &NodeFilter, tfilter: &TimeFilter) -> bool {
    forall|k: int|
        0 <= k < links.len() && passes(#[trigger] links[k], nfilter, tfilter) ==> links[k].node1 < size
            && links[k].node2 < size
}

/// Return a vector where each element (t, bool) tells whether the accepted
/// nodes are delta-connected at the instant `t`, for each instant of the
/// filtered stream but the first.
pub fn is_delta_connected(
    links: &Vec<Link>,
    delta: Time,
    size: usize,
    nfilter: &NodeFilter,
    tfilter: &TimeFilter,
) -> (resultat: Vec<(Time, bool)>)
    requires
        kept_within(links@, size, nfilter, tfilter),
    ensures
        resultat@ == connectivity(kept(links@, nfilter, tfilter), size, delta, nfilter),
{
    let mut resultat: Vec<(Time, bool)> = Vec::new();
    let mut tracker = DistanceTracker::new(size);
    let mut pcurr: Time = tracker.curr;
    let mut first: bool = true;
    let mut i: usize = 0;
    assert(links@.take(0) =~= Seq::empty());
    while i < links.len()
        invariant
            i <= links.len(),
            kept_within(links@, size, nfilter, tfilter),
            tracker.wf(size),
            tracker@ == tracker_after(kept(links@.take(i as int), nfilter, tfilter), size),
            first == (kept(links@.take(i as int), nfilter, tfilter).len() == 0),
            !first ==> pcurr == kept(links@.take(i as int), nfilter, tfilter).last().time,
            resultat@ == connectivity(kept(links@.take(i as int), nfilter, tfilter), size, delta, nfilter),
        decreases links.len() - i,
    {
        let link = links[i];
        proof {
            assert(links@.take(i + 1).drop_last() =~= links@.take(i as int));
            assert(links@.take(i + 1).last() == link);
            assert(links@[i as int] == link);
        }
        let ghost f = kept(links@.take(i as int), nfilter, tfilter);
        if combine(link, nfilter, tfilter) {
            let ghost g = f.push(link);
            assert(g.drop_last() =~= f);
            assert(kept(links@.take(i + 1), nfilter, tfilter) == g);
            tracker.update(link);
            if first {
                pcurr = tracker.curr;
                first = false;
            }
            if tracker.curr != pcurr {
                pcurr = tracker.curr;
                let res = tracker.dist.is_subset_delta_clique(pcurr, delta, nfilter);
                resultat.push((tracker.curr, res));
            }
        }
        i = i + 1;
    }
    assert(links@.take(links@.len() as int) =~= links@);
    resultat
}

/// After a link has been taken in, and as long as no later instant has
/// followed it, the distance between its two ends is at most its instant:
/// a direct contact is never worse than the link that made it. Right after
/// the link the distance is its instant; in a stream that goes back in
/// time, or stays at one instant, it is at most that instant ever after.
pub proof fn lemma_direct_contact(links: Seq<Link>, size: usize, k: int)
    requires
        within(links, size),
        0 <= k < links.len(),
        forall|j: int| k < j < links.len() ==> (#[trigger] links[j]).time <= links[k].time,
    ensures
        tracker_after(links, size).dist[links[k].node1 as int][links[k].node2 as int] <= links[k].time,
        tracker_after(links, size).dist[links[k].node2 as int][links[k].node1 as int] <= links[k].time,
        k == links.len() - 1 ==> tracker_after(links, size).dist[links[k].node1 as int][links[k].node2 as int]
            == links[k].time,
    decreases links.len(),
{
    let before = tracker_after(links.drop_last(), size);
    lemma_tracker_sized(links.drop_last(), size);
    lemma_tracker_sized(links, size);
    if k < links.len() - 1 {
        assert(within(links.drop_last(), size));
        assert(links.drop_last()[k] == links[k]);
        assert forall|j: int| k < j < links.drop_last().len() implies (#[trigger] links.drop_last()[j]).time
            <= links.drop_last()[k].time by {
            assert(links.drop_last()[j] == links[j]);
        }
        lemma_direct_contact(links.drop_last(), size, k);
        assert(links.last() == links[links.len() - 1]);
    }
}

} // verus!
