use vstd::prelude::*;
use crate::algo::distance::within;
use crate::data::filtre::contains_node;
use crate::data::link::Link;
use crate::data::link::Node;
use crate::data::link::Time;
use crate::data::matrix::filled;
use crate::data::matrix::Matrix;

verus! {

/// What the count of degrees holds between two links: the pairs of nodes
/// already met, and the degree of each node.
pub struct Tally {
    pub met: Seq<Seq<bool>>,
    pub degrees: Seq<nat>,
}

/// The count before any link.
pub open spec fn tally_start(size: usize) -> Tally {
    Tally { met: filled(false, size as nat, size as nat), degrees: Seq::new(size as nat, |n: int| 0nat) }
}

/// The table with the cell of the row `x` and the column `y` set.
pub open spec fn marked(met: Seq<Seq<bool>>, x: int, y: int) -> Seq<Seq<bool>> {
    met.update(x, met[x].update(y, true))
}

/// The degrees with one more for the node `n`.
pub open spec fn raised(degrees: Seq<nat>, n: int) -> Seq<nat> {
    degrees.update(n, degrees[n] + 1)
}

/// The count after one more link: a pair of nodes that was not met before
/// is marked in both directions, and adds one to the degree of each of its
/// ends.
pub open spec fn tally_step(t: Tally, link: Link) -> Tally {
    let a = link.node1 as int;
    let b = link.node2 as int;
    if t.met[a][b] {
        t
    } else {
        Tally { met: marked(marked(t.met, a, b), b, a), degrees: raised(raised(t.degrees, a), b) }
    }
}

/// The count after the links of `links`, taken in order.
pub open spec fn tally_after(links: Seq<Link>, size: usize) -> Tally
    decreases links.len(),
{
    if links.len() == 0 {
        tally_start(size)
    } else {
        tally_step(tally_after(links.drop_last(), size), links.last())
    }
}

/// The degrees as numbers.
pub open spec fn numbers(v: Seq<u32>) -> Seq<nat> {
    Seq::new(v.len(), |n: int| v[n] as nat)
}

/// Count the degree of each node in the stream: the number of nodes that it
/// has a link with, where a link of a node with itself counts twice.
pub fn count_degrees(links: &Vec<Link>, size: usize) -> (result: Vec<u32>)
    requires
        within(links@, size),
        2 * links@.len() <= u32::MAX,
    ensures
        numbers(result@) == tally_after(links@, size).degrees,
{
    let mut result: Vec<u32> = Vec::with_capacity(size);
    let mut n: usize = 0;
    while n < size
        invariant
            n <= size,
            result@.len() == n,
            forall|k: int| 0 <= k < n ==> result@[k] == 0,
        decreases size - n,
    {
        result.push(0);
        n = n + 1;
    }
    let mut mat: Matrix<bool> = Matrix::new(false, size, size);
    assert(numbers(result@) =~= tally_start(size).degrees);
    assert(links@.take(0) =~= Seq::empty());
    let mut i: usize = 0;
    while i < links.len()
        invariant
            i <= links@.len(),
            within(links@, size),
            2 * links@.len() <= u32::MAX,
            mat.square_of(size),
            result@.len() == size,
            mat@ == tally_after(links@.take(i as int), size).met,
            numbers(result@) == tally_after(links@.take(i as int), size).degrees,
            forall|k: int| 0 <= k < size ==> #[trigger] result@[k] <= 2 * i,
        decreases links.len() - i,
    {
        let link = links[i];
        proof {
            assert(links@.take(i + 1).drop_last() =~= links@.take(i as int));
            assert(links@.take(i + 1).last() == link);
            assert(links@[i as int] == link);
        }
        let ghost before = tally_after(links@.take(i as int), size);
        if !mat.get(link.node1, link.node2) {
            mat.set(link.node1, link.node2, true);
            mat.set(link.node2, link.node1, true);
            let ghost shown = numbers(result@);
            result[link.node1] = result[link.node1] + 1;
            assert(numbers(result@) =~= raised(shown, link.node1 as int));
            let ghost once = numbers(result@);
            result[link.node2] = result[link.node2] + 1;
            assert(numbers(result@) =~= raised(once, link.node2 as int));
        }
        i = i + 1;
    }
    assert(links@.take(links@.len() as int) =~= links@);
    result
}

/// The link has the node at one of its ends.
pub open spec fn touches(link: Link, n: int) -> bool {
    link.node1 == n || link.node2 == n
}

/// The instant of the last link of the stream that has the node at one of
/// its ends, if there is one.
pub open spec fn last_seen(links: Seq<Link>, n: int) -> Option<Time>
    decreases links.len(),
{
    if links.len() == 0 {
        None
    } else if touches(links.last(), n) {
        Some(links.last().time)
    } else {
        last_seen(links.drop_last(), n)
    }
}

/// The instant of the first link of the stream that has the node at one of
/// its ends, if there is one.
pub open spec fn first_seen(links: Seq<Link>, n: int) -> Option<Time>
    decreases links.len(),
{
    if links.len() == 0 {
        None
    } else {
        match first_seen(links.drop_last(), n) {
            Some(t) => Some(t),
            None => if touches(links.last(), n) {
                Some(links.last().time)
            } else {
                None
            },
        }
    }
}

/// The two instants that the count of apparitions gives for a node: that
/// of the last link of the stream with the node, then that of the first;
/// two zeros for a node that no link has.
pub open spec fn apparition(links: Seq<Link>, n: int) -> (Time, Time) {
    match (last_seen(links, n), first_seen(links, n)) {
        (Some(last), Some(first)) => (last, first),
        _ => (0, 0),
    }
}

/// A node is seen for the last time if and only if it is seen for the
/// first time.
pub proof fn lemma_seen(links: Seq<Link>, n: int)
    ensures
        last_seen(links, n).is_some() == first_seen(links, n).is_some(),
    decreases links.len(),
{
    if links.len() > 0 {
        lemma_seen(links.drop_last(), n);
    }
}

/// For each node, the instant of the link of the stream that comes last
/// among those with the node, and the instant of the one that comes first.
/// In a stream that goes back in time these are the first and the last
/// apparition of the node.
pub fn count_first_and_last_apparition(links: &Vec<Link>, size: usize) -> (result: Vec<(Time, Time)>)
    requires
        within(links@, size),
    ensures
        result@.len() == size,
        forall|n: int| 0 <= n < size ==> #[trigger] result@[n] == apparition(links@, n),
{
    let mut result: Vec<(Time, Time)> = Vec::with_capacity(size);
    let mut seens: Vec<bool> = Vec::with_capacity(size);
    let mut k: usize = 0;
    while k < size
        invariant
            k <= size,
            result@.len() == k,
            seens@.len() == k,
            forall|n: int| 0 <= n < k ==> #[trigger] result@[n] == (0u64, 0u64),
            forall|n: int| 0 <= n < k ==> !#[trigger] seens@[n],
        decreases size - k,
    {
        result.push((0, 0));
        seens.push(false);
        k = k + 1;
    }
    assert(links@.take(0) =~= Seq::empty());
    let mut i: usize = 0;
    while i < links.len()
        invariant
            i <= links@.len(),
            within(links@, size),
            result@.len() == size,
            seens@.len() == size,
            forall|n: int| 0 <= n < size ==> #[trigger] seens@[n] == first_seen(links@.take(i as int), n).is_some(),
            forall|n: int| 0 <= n < size ==> #[trigger] result@[n] == apparition(links@.take(i as int), n),
        decreases links.len() - i,
    {
        let link = links[i];
        proof {
            assert(links@.take(i + 1).drop_last() =~= links@.take(i as int));
            assert(links@.take(i + 1).last() == link);
            assert(links@[i as int] == link);
            assert forall|n: int| 0 <= n < size implies last_seen(links@.take(i as int), n).is_some() == first_seen(
                links@.take(i as int),
                n,
            ).is_some() by {
                lemma_seen(links@.take(i as int), n);
            }
        }
        let n1 = link.node1;
        let n2 = link.node2;
        if !seens[n1] {
            result[n1] = (link.time, link.time);
            seens[n1] = true;
        }
        if !seens[n2] {
            result[n2] = (link.time, link.time);
            seens[n2] = true;
        }
        let last = result[n1].1;
        result[n1] = (link.time, last);
        let last = result[n2].1;
        result[n2] = (link.time, last);
        i = i + 1;
    }
    assert(links@.take(links@.len() as int) =~= links@);
    result
}

/// The nodes that stand at an end of some link of the stream.
pub open spec fn endpoints(links: Seq<Link>) -> Set<Node> {
    Set::new(|n: Node| exists|k: int| 0 <= k < links.len() && touches(#[trigger] links[k], n as int))
}

/// Count the number of different nodes the stream has and the number of
/// its links.
pub fn count_nodes_and_links(links: &Vec<Link>) -> (res: (usize, usize))
    ensures
        res.0 == endpoints(links@).len(),
        res.1 == links@.len(),
{
    let mut seens: Vec<Node> = Vec::new();
    let mut count: usize = 0;
    assert(seens@.to_set() =~= endpoints(links@.take(0)));
    while count < links.len()
        invariant
            count <= links@.len(),
            seens@.no_duplicates(),
            seens@.to_set() == endpoints(links@.take(count as int)),
        decreases links.len() - count,
    {
        let link = links[count];
        let ghost before = seens@;
        if !contains_node(&seens, link.node1) {
            seens.push(link.node1);
        }
        let ghost once = seens@;
        if !contains_node(&seens, link.node2) {
            seens.push(link.node2);
        }
        proof {
            let shorter = links@.take(count as int);
            let longer = links@.take(count + 1);
            assert(longer[count as int] == link);
            assert forall|n: Node| seens@.to_set().contains(n) <==> endpoints(longer).contains(n) by {
                if seens@.contains(n) {
                    if before.contains(n) {
                        assert(endpoints(shorter).contains(n));
                        let k = choose|k: int| 0 <= k < shorter.len() && touches(#[trigger] shorter[k], n as int);
                        assert(longer[k] == shorter[k]);
                    } else {
                        let j = choose|j: int| 0 <= j < seens@.len() && seens@[j] == n;
                        if j < before.len() {
                            assert(before[j] == n);
                        }
                        assert(touches(longer[count as int], n as int));
                    }
                }
                if endpoints(longer).contains(n) {
                    let k = choose|k: int| 0 <= k < longer.len() && touches(#[trigger] longer[k], n as int);
                    if k < count {
                        assert(shorter[k] == longer[k]);
                        assert(endpoints(shorter).contains(n));
                        assert(before.contains(n));
                        let j = choose|j: int| 0 <= j < before.len() && before[j] == n;
                        assert(seens@[j] == n);
                    } else {
                        if n == link.node1 {
                            if before.contains(n) {
                                let j = choose|j: int| 0 <= j < before.len() && before[j] == n;
                                assert(seens@[j] == n);
                            } else {
                                assert(once[before.len() as int] == n);
                                assert(seens@[before.len() as int] == n);
                            }
                        } else {
                            if once.contains(n) {
                                let j = choose|j: int| 0 <= j < once.len() && once[j] == n;
                                assert(seens@[j] == n);
                            } else {
                                assert(seens@[once.len() as int] == n);
                            }
                        }
                    }
                }
            }
            assert(seens@.to_set() =~= endpoints(longer));
        }
        count = count + 1;
    }
    proof {
        assert(links@.take(links@.len() as int) =~= links@);
        seens@.unique_seq_to_set();
    }
    (seens.len(), count)
}

} // verus!
