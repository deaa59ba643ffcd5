use std::collections::HashMap;
use vstd::prelude::*;
use crate::algo::boolvec::any_of;
use crate::algo::boolvec::boolvec_to_set;
use crate::algo::boolvec::copy_bools;
use crate::algo::boolvec::diff;
use crate::algo::boolvec::lemma_truths_below;
use crate::algo::boolvec::or_v;
use crate::algo::boolvec::rows_of;
use crate::algo::boolvec::truths;
use crate::data::link::Link;
use crate::data::link::Node;
use crate::data::link::Time;

verus! {

/// The place of each tracked node in the list: the last one where a node
/// is listed several times.
pub open spec fn slots(nodes: Seq<Node>) -> Map<Node, usize>
    decreases nodes.len(),
{
    if nodes.len() == 0 {
        Map::empty()
    } else {
        slots(nodes.drop_last()).insert(nodes.last(), (nodes.len() - 1) as usize)
    }
}

/// Every place that `slots` gives lies in the list.
pub proof fn lemma_slots(nodes: Seq<Node>)
    requires
        nodes.len() <= usize::MAX,
    ensures
        forall|n: Node| #[trigger] slots(nodes).contains_key(n) ==> slots(nodes)[n] < nodes.len(),
        forall|n: Node| #[trigger] slots(nodes).contains_key(n) <==> nodes.contains(n),
    decreases nodes.len(),
{
    if nodes.len() > 0 {
        let init = nodes.drop_last();
        let last = nodes.last();
        lemma_slots(init);
        assert(slots(nodes) == slots(init).insert(last, (nodes.len() - 1) as usize));
        assert forall|n: Node| #[trigger] slots(nodes).contains_key(n) implies slots(nodes)[n] < nodes.len() by {
            if n != last {
                assert(slots(init).contains_key(n));
                assert(slots(nodes)[n] == slots(init)[n]);
            }
        }
        assert forall|n: Node| #[trigger] slots(nodes).contains_key(n) <==> nodes.contains(n) by {
            assert(slots(nodes).contains_key(n) <==> (n == last || slots(init).contains_key(n)));
            assert(slots(init).contains_key(n) <==> init.contains(n));
            if nodes.contains(n) {
                let k = choose|k: int| 0 <= k < nodes.len() && nodes[k] == n;
                if k < nodes.len() - 1 {
                    assert(init[k] == n);
                }
            }
            if init.contains(n) {
                let k = choose|k: int| 0 <= k < init.len() && init[k] == n;
                assert(nodes[k] == n);
            }
            if last == n {
                assert(nodes[nodes.len() - 1] == n);
            }
        }
    }
}

/// The last instant at which each tracked node was seen, once `n` has been
/// seen at `t`.
pub open spec fn seen(record: Seq<Time>, places: Map<Node, usize>, n: Node, t: Time) -> Seq<Time> {
    if places.contains_key(n) {
        record.update(places[n] as int, t)
    } else {
        record
    }
}

/// Which tracked nodes exist at `t`: those that were seen, and last seen at
/// `t` or after it, less than `delta` away. `Time::MAX` stands for a node
/// never seen.
pub open spec fn existing(record: Seq<Time>, t: Time, delta: Time) -> Seq<bool> {
    Seq::new(record.len(), |i: int| record[i] != Time::MAX && record[i] >= t && record[i] - t < delta)
}

/// The last instant at which each tracked node was seen in the stream;
/// `Time::MAX` for a node that no link has.
pub open spec fn record_after(links: Seq<Link>, nodes: Seq<Node>) -> Seq<Time>
    decreases links.len(),
{
    if links.len() == 0 {
        Seq::new(nodes.len(), |i: int| Time::MAX)
    } else {
        seen(
            seen(record_after(links.drop_last(), nodes), slots(nodes), links.last().node1, links.last().time),
            slots(nodes),
            links.last().node2,
            links.last().time,
        )
    }
}

/// The entry of the trace for the instant of the last link of `links`:
/// that instant, with the tracked nodes that exist at it once the links
/// are taken in.
pub open spec fn entry_at(links: Seq<Link>, nodes: Seq<Node>, delta: Time) -> (Time, Seq<bool>) {
    (links.last().time, existing(record_after(links, nodes), links.last().time, delta))
}

/// The entries for the instants that the stream has left behind: one for
/// each link that a link of another instant follows.
pub open spec fn closed_trace(links: Seq<Link>, nodes: Seq<Node>, delta: Time) -> Seq<(Time, Seq<bool>)>
    decreases links.len(),
{
    if links.len() <= 1 {
        Seq::empty()
    } else if links[links.len() - 2].time != links.last().time {
        closed_trace(links.drop_last(), nodes, delta).push(entry_at(links.drop_last(), nodes, delta))
    } else {
        closed_trace(links.drop_last(), nodes, delta)
    }
}

/// The existence trace of the stream over the tracked nodes: one entry for
/// each run of links of one instant, in the order of the stream, which
/// holds the instant and the tracked nodes that exist at it when the run is
/// over.
pub open spec fn existence_trace(links: Seq<Link>, nodes: Seq<Node>, delta: Time) -> Seq<(Time, Seq<bool>)> {
    if links.len() == 0 {
        Seq::empty()
    } else {
        closed_trace(links, nodes, delta).push(entry_at(links, nodes, delta))
    }
}

/// One instant is kept for each tracked node, and each entry of the trace
/// says of each tracked node whether it exists.
pub proof fn lemma_trace_sized(links: Seq<Link>, nodes: Seq<Node>, delta: Time)
    requires
        nodes.len() <= usize::MAX,
    ensures
        record_after(links, nodes).len() == nodes.len(),
        forall|k: int|
            0 <= k < closed_trace(links, nodes, delta).len() ==> (#[trigger] closed_trace(links, nodes, delta)[k]).1.len()
                == nodes.len(),
        forall|k: int|
            0 <= k < existence_trace(links, nodes, delta).len() ==> (#[trigger] existence_trace(
                links,
                nodes,
                delta,
            )[k]).1.len() == nodes.len(),
    decreases links.len(),
{
    if links.len() > 0 {
        let init = links.drop_last();
        lemma_trace_sized(init, nodes, delta);
        lemma_slots(nodes);
        let closed = closed_trace(links, nodes, delta);
        assert forall|k: int| 0 <= k < closed.len() implies (#[trigger] closed[k]).1.len() == nodes.len() by {
            if k < closed_trace(init, nodes, delta).len() {
                assert(closed[k] == closed_trace(init, nodes, delta)[k]);
            }
        }
        let trace = existence_trace(links, nodes, delta);
        assert forall|k: int| 0 <= k < trace.len() implies (#[trigger] trace[k]).1.len() == nodes.len() by {
            if k < closed.len() {
                assert(trace[k] == closed[k]);
            }
        }
    }
}

/// The instants of the links do not decrease along the stream.
pub open spec fn forward_in_time(links: Seq<Link>) -> bool {
    forall|i: int, j: int| 0 <= i <= j < links.len() ==> (#[trigger] links[i]).time <= (#[trigger] links[j]).time
}

/// The instants of the links do not increase along the stream.
pub open spec fn back_in_time(links: Seq<Link>) -> bool {
    forall|i: int, j: int| 0 <= i <= j < links.len() ==> (#[trigger] links[i]).time >= (#[trigger] links[j]).time
}

/// Some entry of the trace holds the instant `t`.
pub open spec fn has_instant(trace: Seq<(Time, Seq<bool>)>, t: Time) -> bool {
    exists|k: int| 0 <= k < trace.len() && (#[trigger] trace[k]).0 == t
}

/// The entries for the instants left behind follow the stream: no two in
/// a row hold one instant, the last holds another instant than the last
/// link, and every instant of a link before the last run has its entry.
/// In a stream that goes forward in time their instants rise and lie
/// before the last; in one that goes back, they fall and lie after it.
pub proof fn lemma_closed_instants(links: Seq<Link>, nodes: Seq<Node>, delta: Time)
    ensures
        forall|k: int|
            0 <= k && k + 1 < closed_trace(links, nodes, delta).len() ==> (#[trigger] closed_trace(
                links,
                nodes,
                delta,
            )[k]).0 != closed_trace(links, nodes, delta)[k + 1].0,
        closed_trace(links, nodes, delta).len() > 0 ==> closed_trace(links, nodes, delta).last().0
            != links.last().time,
        forall|j: int|
            0 <= j < links.len() && (#[trigger] links[j]).time != links.last().time ==> has_instant(
                closed_trace(links, nodes, delta),
                links[j].time,
            ),
        forward_in_time(links) ==> forall|k: int|
            0 <= k < closed_trace(links, nodes, delta).len() ==> (#[trigger] closed_trace(links, nodes, delta)[k]).0
                < links.last().time,
        forward_in_time(links) ==> forall|k: int, l: int|
            0 <= k < l < closed_trace(links, nodes, delta).len() ==> (#[trigger] closed_trace(links, nodes, delta)[k]).0
                < (#[trigger] closed_trace(links, nodes, delta)[l]).0,
        back_in_time(links) ==> forall|k: int|
            0 <= k < closed_trace(links, nodes, delta).len() ==> (#[trigger] closed_trace(links, nodes, delta)[k]).0
                > links.last().time,
        back_in_time(links) ==> forall|k: int, l: int|
            0 <= k < l < closed_trace(links, nodes, delta).len() ==> (#[trigger] closed_trace(links, nodes, delta)[k]).0
                > (#[trigger] closed_trace(links, nodes, delta)[l]).0,
    decreases links.len(),
{
    if links.len() > 1 {
        let init = links.drop_last();
        let closed = closed_trace(links, nodes, delta);
        let before = closed_trace(init, nodes, delta);
        lemma_closed_instants(init, nodes, delta);
        assert(init.last() == links[links.len() - 2]);
        assert(links.last() == links[links.len() - 1]);
        let turned = links[links.len() - 2].time != links.last().time;
        if turned {
            assert(closed == before.push(entry_at(init, nodes, delta)));
            assert(closed[closed.len() - 1].0 == init.last().time);
        } else {
            assert(closed == before);
        }
        assert forall|k: int| 0 <= k && k + 1 < closed.len() implies (#[trigger] closed[k]).0 != closed[k + 1].0 by {
            if k + 1 < before.len() {
                assert(closed[k] == before[k]);
                assert(closed[k + 1] == before[k + 1]);
            } else {
                assert(closed[k] == before[before.len() - 1]);
            }
        }
        assert forall|j: int| 0 <= j < links.len() && (#[trigger] links[j]).time != links.last().time implies has_instant(
            closed,
            links[j].time,
        ) by {
            assert(j < links.len() - 1);
            assert(init[j] == links[j]);
            if links[j].time != init.last().time {
                assert(has_instant(before, init[j].time));
                let k = choose|k: int| 0 <= k < before.len() && (#[trigger] before[k]).0 == init[j].time;
                assert(closed[k] == before[k]);
            } else {
                assert(turned);
                assert(closed[closed.len() - 1].0 == links[j].time);
            }
        }
        if forward_in_time(links) {
            assert(forward_in_time(init)) by {
                assert forall|i: int, j: int| 0 <= i <= j < init.len() implies (#[trigger] init[i]).time <= (
                #[trigger] init[j]).time by {
                    assert(init[i] == links[i] && init[j] == links[j]);
                }
            }
            assert(links[links.len() - 2].time <= links[links.len() - 1].time);
            assert forall|k: int| 0 <= k < closed.len() implies (#[trigger] closed[k]).0 < links.last().time by {
                if k < before.len() {
                    assert(closed[k] == before[k]);
                }
            }
            assert forall|k: int, l: int| 0 <= k < l < closed.len() implies (#[trigger] closed[k]).0 < (
            #[trigger] closed[l]).0 by {
                assert(closed[k] == before[k]);
                if l < before.len() {
                    assert(closed[l] == before[l]);
                }
            }
        }
        if back_in_time(links) {
            assert(back_in_time(init)) by {
                assert forall|i: int, j: int| 0 <= i <= j < init.len() implies (#[trigger] init[i]).time >= (
                #[trigger] init[j]).time by {
                    assert(init[i] == links[i] && init[j] == links[j]);
                }
            }
            assert(links[links.len() - 2].time >= links[links.len() - 1].time);
            assert forall|k: int| 0 <= k < closed.len() implies (#[trigger] closed[k]).0 > links.last().time by {
                if k < before.len() {
                    assert(closed[k] == before[k]);
                }
            }
            assert forall|k: int, l: int| 0 <= k < l < closed.len() implies (#[trigger] closed[k]).0 > (
            #[trigger] closed[l]).0 by {
                assert(closed[k] == before[k]);
                if l < before.len() {
                    assert(closed[l] == before[l]);
                }
            }
        }
    }
}

/// The trace opens at the instant of the first link and closes at that of
/// the last.
pub proof fn lemma_trace_span(links: Seq<Link>, nodes: Seq<Node>, delta: Time)
    requires
        links.len() > 0,
    ensures
        closed_trace(links, nodes, delta).len() > 0 ==> closed_trace(links, nodes, delta)[0].0 == links[0].time,
        closed_trace(links, nodes, delta).len() == 0 ==> links.last().time == links[0].time,
        existence_trace(links, nodes, delta)[0].0 == links[0].time,
        existence_trace(links, nodes, delta).last().0 == links.last().time,
    decreases links.len(),
{
    if links.len() > 1 {
        let init = links.drop_last();
        lemma_trace_span(init, nodes, delta);
        assert(init.last() == links[links.len() - 2]);
        assert(init[0] == links[0]);
    }
}

/// The trace holds one entry for each instant of the stream. Its entries
/// follow the stream, no two in a row hold one instant, and every instant
/// of a link has its entry. In a stream ordered by time, forward or back,
/// no instant has two entries: the instants of the trace rise or fall
/// throughout.
pub proof fn lemma_trace_instants(links: Seq<Link>, nodes: Seq<Node>, delta: Time)
    ensures
        forall|k: int|
            0 <= k && k + 1 < existence_trace(links, nodes, delta).len() ==> (#[trigger] existence_trace(
                links,
                nodes,
                delta,
            )[k]).0 != existence_trace(links, nodes, delta)[k + 1].0,
        forall|j: int|
            0 <= j < links.len() ==> has_instant(existence_trace(links, nodes, delta), (#[trigger] links[j]).time),
        forward_in_time(links) ==> forall|k: int, l: int|
            0 <= k < l < existence_trace(links, nodes, delta).len() ==> (#[trigger] existence_trace(
                links,
                nodes,
                delta,
            )[k]).0 < (#[trigger] existence_trace(links, nodes, delta)[l]).0,
        back_in_time(links) ==> forall|k: int, l: int|
            0 <= k < l < existence_trace(links, nodes, delta).len() ==> (#[trigger] existence_trace(
                links,
                nodes,
                delta,
            )[k]).0 > (#[trigger] existence_trace(links, nodes, delta)[l]).0,
{
    if links.len() > 0 {
        let closed = closed_trace(links, nodes, delta);
        let trace = existence_trace(links, nodes, delta);
        lemma_closed_instants(links, nodes, delta);
        assert(trace[trace.len() - 1].0 == links.last().time);
        assert forall|k: int| 0 <= k && k + 1 < trace.len() implies (#[trigger] trace[k]).0 != trace[k + 1].0 by {
            assert(trace[k] == closed[k]);
            if k + 1 < closed.len() {
                assert(trace[k + 1] == closed[k + 1]);
            }
        }
        assert forall|j: int| 0 <= j < links.len() implies has_instant(trace, (#[trigger] links[j]).time) by {
            if links[j].time != links.last().time {
                assert(has_instant(closed, links[j].time));
                let k = choose|k: int| 0 <= k < closed.len() && (#[trigger] closed[k]).0 == links[j].time;
                assert(trace[k] == closed[k]);
            } else {
                assert(trace[trace.len() - 1].0 == links[j].time);
            }
        }
        if forward_in_time(links) {
            assert forall|k: int, l: int| 0 <= k < l < trace.len() implies (#[trigger] trace[k]).0 < (
            #[trigger] trace[l]).0 by {
                assert(trace[k] == closed[k]);
                if l < closed.len() {
                    assert(trace[l] == closed[l]);
                }
            }
        }
        if back_in_time(links) {
            assert forall|k: int, l: int| 0 <= k < l < trace.len() implies (#[trigger] trace[k]).0 > (
            #[trigger] trace[l]).0 by {
                assert(trace[k] == closed[k]);
                if l < closed.len() {
                    assert(trace[l] == closed[l]);
                }
            }
        }
    }
}

/// A tracked node that no link of the stream has exists in no entry of the
/// trace.
pub proof fn lemma_never_seen(links: Seq<Link>, nodes: Seq<Node>, delta: Time, i: int)
    requires
        nodes.len() <= usize::MAX,
        0 <= i < nodes.len(),
        forall|k: int| 0 <= k < links.len() ==> (#[trigger] links[k]).node1 != nodes[i] && links[k].node2 != nodes[i],
    ensures
        record_after(links, nodes)[i] == Time::MAX,
        forall|k: int|
            0 <= k < closed_trace(links, nodes, delta).len() ==> !(#[trigger] closed_trace(links, nodes, delta)[k]).1[i],
        forall|k: int|
            0 <= k < existence_trace(links, nodes, delta).len() ==> !(#[trigger] existence_trace(
                links,
                nodes,
                delta,
            )[k]).1[i],
    decreases links.len(),
{
    lemma_trace_sized(links, nodes, delta);
    if links.len() > 0 {
        let init = links.drop_last();
        assert forall|k: int| 0 <= k < init.len() implies (#[trigger] init[k]).node1 != nodes[i] && init[k].node2
            != nodes[i] by {
            assert(init[k] == links[k]);
        }
        lemma_never_seen(init, nodes, delta, i);
        lemma_trace_sized(init, nodes, delta);
        lemma_slots(nodes);
        lemma_slot_named(nodes);
        let last = links[links.len() - 1];
        assert(last.node1 != nodes[i] && last.node2 != nodes[i]);
        let closed = closed_trace(links, nodes, delta);
        assert forall|k: int| 0 <= k < closed.len() implies !(#[trigger] closed[k]).1[i] by {
            if k < closed_trace(init, nodes, delta).len() {
                assert(closed[k] == closed_trace(init, nodes, delta)[k]);
            }
        }
        let trace = existence_trace(links, nodes, delta);
        assert forall|k: int| 0 <= k < trace.len() implies !(#[trigger] trace[k]).1[i] by {
            if k < closed.len() {
                assert(trace[k] == closed[k]);
            }
        }
    }
}

/// The place that `slots` gives for a node holds that node.
pub proof fn lemma_slot_named(nodes: Seq<Node>)
    requires
        nodes.len() <= usize::MAX,
    ensures
        forall|n: Node| #[trigger] slots(nodes).contains_key(n) ==> slots(nodes)[n] < nodes.len() && nodes[slots(
            nodes,
        )[n] as int] == n,
    decreases nodes.len(),
{
    if nodes.len() > 0 {
        let init = nodes.drop_last();
        let last = nodes.last();
        lemma_slot_named(init);
        assert(slots(nodes) == slots(init).insert(last, (nodes.len() - 1) as usize));
        assert forall|n: Node| #[trigger] slots(nodes).contains_key(n) implies slots(nodes)[n] < nodes.len()
            && nodes[slots(nodes)[n] as int] == n by {
            if n != last {
                assert(slots(init).contains_key(n));
                assert(slots(nodes)[n] == slots(init)[n]);
                assert(init[slots(init)[n] as int] == n);
            }
        }
    }
}

/// The trace as a sequence of instants and vectors.
pub open spec fn trace_of(v: Seq<(Time, Vec<bool>)>) -> Seq<(Time, Seq<bool>)> {
    Seq::new(v.len(), |k: int| (v[k].0, v[k].1@))
}

/// Which tracked nodes exist at `t_curr`.
fn is_existing(t_curr: Time, record: &Vec<Time>, delta: Time) -> (res: Vec<bool>)
    ensures
        res@ == existing(record@, t_curr, delta),
{
    let mut res: Vec<bool> = Vec::with_capacity(record.len());
    let mut i: usize = 0;
    while i < record.len()
        invariant
            i <= record@.len(),
            res@.len() == i,
            forall|k: int|
                0 <= k < i ==> res@[k] == (record@[k] != Time::MAX && record@[k] >= t_curr && record@[k] - t_curr
                    < delta),
        decreases record.len() - i,
    {
        let time = record[i];
        res.push(time != Time::MAX && time >= t_curr && time - t_curr < delta);
        i = i + 1;
    }
    assert(res@ =~= existing(record@, t_curr, delta));
    res
}

/// The existence trace of the stream: one entry for each run of links of
/// one instant, which holds the instant and the tracked nodes seen at it
/// or less than `delta` after it, as far as the stream has come.
pub fn delta_existence(links: &Vec<Link>, nodes: &Vec<Node>, delta: Time) -> (results: Vec<(Time, Vec<bool>)>)
    ensures
        trace_of(results@) == existence_trace(links@, nodes@, delta),
{
    broadcast use vstd::std_specs::hash::group_hash_axioms;

    let mut results: Vec<(Time, Vec<bool>)> = Vec::new();
    let mut map: HashMap<Node, usize> = HashMap::new();
    let mut i: usize = 0;
    assert(nodes@.take(0) =~= Seq::empty());
    while i < nodes.len()
        invariant
            i <= nodes@.len(),
            map@ == slots(nodes@.take(i as int)),
        decreases nodes.len() - i,
    {
        assert(nodes@.take(i + 1).drop_last() =~= nodes@.take(i as int));
        map.insert(nodes[i], i);
        i = i + 1;
    }
    assert(nodes@.take(nodes@.len() as int) =~= nodes@);
    let mut record: Vec<Time> = Vec::with_capacity(nodes.len());
    let mut t_curr: Time = Time::MAX;
    let mut k: usize = 0;
    while k < nodes.len()
        invariant
            k <= nodes@.len(),
            record@.len() == k,
            forall|j: int| 0 <= j < k ==> record@[j] == Time::MAX,
        decreases nodes.len() - k,
    {
        record.push(Time::MAX);
        k = k + 1;
    }
    assert(links@.take(0) =~= Seq::empty());
    assert(record@ =~= record_after(links@.take(0), nodes@));
    assert(trace_of(results@) =~= Seq::empty());
    proof {
        lemma_slots(nodes@);
    }
    let mut l: usize = 0;
    while l < links.len()
        invariant
            l <= links@.len(),
            map@ == slots(nodes@),
            record@.len() == nodes@.len(),
            forall|n: Node| #[trigger] slots(nodes@).contains_key(n) ==> slots(nodes@)[n] < nodes@.len(),
            record@ == record_after(links@.take(l as int), nodes@),
            trace_of(results@) == closed_trace(links@.take(l as int), nodes@, delta),
            l > 0 ==> t_curr == links@[l - 1].time,
        decreases links.len() - l,
    {
        let link = links[l];
        proof {
            assert(links@.take(l + 1).drop_last() =~= links@.take(l as int));
            assert(links@.take(l + 1).last() == link);
            if l > 0 {
                assert(links@.take(l + 1)[l - 1] == links@[l - 1]);
                assert(links@.take(l as int).last() == links@[l - 1]);
            }
        }
        let n1 = link.node1;
        let n2 = link.node2;
        let t = link.time;
        if l > 0 && t_curr != t {
            let ghost before = trace_of(results@);
            let row = is_existing(t_curr, &record, delta);
            results.push((t_curr, row));
            assert(trace_of(results@) =~= before.push((t_curr, row@)));
        }
        t_curr = t;
        match map.get(&n1) {
            Some(bij) => {
                record[*bij] = t;
            },
            None => {},
        }
        match map.get(&n2) {
            Some(bij) => {
                record[*bij] = t;
            },
            None => {},
        }
        l = l + 1;
    }
    assert(links@.take(links@.len() as int) =~= links@);
    if links.len() > 0 {
        let ghost before = trace_of(results@);
        let row = is_existing(t_curr, &record, delta);
        results.push((t_curr, row));
        assert(trace_of(results@) =~= before.push((t_curr, row@)));
    }
    results
}

/// Whether the instant `tv` lies in the window around `t`: at most `delta`
/// before it and at most `delta` after it; where `delta` exceeds `t`, from
/// `t` to at most `delta` after it.
pub open spec fn in_window(tv: Time, t: Time, delta: Time) -> bool {
    if delta > t {
        t <= tv && tv <= t + delta
    } else {
        t - delta <= tv && tv <= t + delta
    }
}

/// The vectors of the entries of the trace whose instant lies in the window
/// around `t`, in order.
pub open spec fn window_rows(trace: Seq<(Time, Seq<bool>)>, t: Time, delta: Time) -> Seq<Seq<bool>>
    decreases trace.len(),
{
    if trace.len() == 0 {
        Seq::empty()
    } else if in_window(trace.last().0, t, delta) {
        window_rows(trace.drop_last(), t, delta).push(trace.last().1)
    } else {
        window_rows(trace.drop_last(), t, delta)
    }
}

/// The vector `row` belongs to an entry of the trace whose instant lies in
/// the window around `t`.
pub open spec fn from_window(trace: Seq<(Time, Seq<bool>)>, t: Time, delta: Time, row: Seq<bool>) -> bool {
    exists|k: int| 0 <= k < trace.len() && in_window((#[trigger] trace[k]).0, t, delta) && trace[k].1 == row
}

/// The window holds the vector of each entry whose instant lies in it, and
/// nothing else.
pub proof fn lemma_window_rows(trace: Seq<(Time, Seq<bool>)>, t: Time, delta: Time)
    ensures
        forall|r: int|
            0 <= r < window_rows(trace, t, delta).len() ==> from_window(
                trace,
                t,
                delta,
                #[trigger] window_rows(trace, t, delta)[r],
            ),
        forall|k: int|
            0 <= k < trace.len() && in_window((#[trigger] trace[k]).0, t, delta) ==> window_rows(
                trace,
                t,
                delta,
            ).contains(trace[k].1),
    decreases trace.len(),
{
    if trace.len() > 0 {
        let init = trace.drop_last();
        let rows = window_rows(trace, t, delta);
        let before = window_rows(init, t, delta);
        lemma_window_rows(init, t, delta);
        assert forall|r: int| 0 <= r < rows.len() implies from_window(trace, t, delta, #[trigger] rows[r]) by {
            if r < before.len() {
                assert(rows[r] == before[r]);
                assert(from_window(init, t, delta, before[r]));
                let k = choose|k: int|
                    0 <= k < init.len() && in_window((#[trigger] init[k]).0, t, delta) && init[k].1 == before[r];
                assert(trace[k] == init[k]);
            } else {
                assert(trace[trace.len() - 1].1 == rows[r]);
            }
        }
        assert forall|k: int| 0 <= k < trace.len() && in_window((#[trigger] trace[k]).0, t, delta) implies rows.contains(
            trace[k].1,
        ) by {
            if k < init.len() {
                assert(init[k] == trace[k]);
                let r = choose|r: int| 0 <= r < before.len() && before[r] == init[k].1;
                assert(rows[r] == trace[k].1);
            } else {
                assert(rows[rows.len() - 1] == trace[k].1);
            }
        }
    }
}

/// Fold the trace at `t`: the nodes that exist in some entry whose instant
/// lies in the window around `t`. The window must hold an entry, and none
/// of its vectors may be shorter than the first; `init` plays no part.
pub fn fold_existence_at(t: Time, v: &Vec<(Time, Vec<bool>)>, delta: Time, init: &Vec<bool>) -> (res: Vec<bool>)
    requires
        window_rows(trace_of(v@), t, delta).len() > 0,
        forall|r: int|
            0 <= r < window_rows(trace_of(v@), t, delta).len() ==> (#[trigger] window_rows(
                trace_of(v@),
                t,
                delta,
            )[r]).len() >= window_rows(trace_of(v@), t, delta)[0].len(),
    ensures
        res@ == any_of(window_rows(trace_of(v@), t, delta)),
{
    let mut vectors: Vec<Vec<bool>> = Vec::new();
    let mut k: usize = 0;
    assert(trace_of(v@).take(0) =~= Seq::empty());
    assert(rows_of(vectors@) =~= Seq::empty());
    while k < v.len()
        invariant
            k <= v@.len(),
            rows_of(vectors@) == window_rows(trace_of(v@).take(k as int), t, delta),
        decreases v.len() - k,
    {
        let tv = v[k].0;
        proof {
            assert(trace_of(v@).take(k + 1).drop_last() =~= trace_of(v@).take(k as int));
            assert(trace_of(v@).take(k + 1).last() == (tv, v@[k as int].1@));
        }
        let inside = if delta > t {
            t <= tv && tv <= t.saturating_add(delta)
        } else {
            tv >= t - delta && tv <= t.saturating_add(delta)
        };
        assert(inside == in_window(tv, t, delta));
        if inside {
            let ghost before = rows_of(vectors@);
            let row = copy_bools(&v[k].1);
            vectors.push(row);
            assert(rows_of(vectors@) =~= before.push(v@[k as int].1@));
        }
        k = k + 1;
    }
    assert(trace_of(v@).take(v@.len() as int) =~= trace_of(v@));
    proof {
        let rows = rows_of(vectors@);
        assert forall|r: int| 0 <= r < vectors@.len() implies (#[trigger] vectors@[r])@.len() >= vectors@[0]@.len() by {
            assert(rows[r] == vectors@[r]@);
            assert(rows[0] == vectors@[0]@);
        }
    }
    or_v(&vectors)
}

/// The trace with each vector replaced by the fold of the trace at its
/// instant.
pub open spec fn folded(trace: Seq<(Time, Seq<bool>)>, delta: Time) -> Seq<(Time, Seq<bool>)> {
    Seq::new(trace.len(), |k: int| (trace[k].0, any_of(window_rows(trace, trace[k].0, delta))))
}

/// The folded existence trace of the stream: the trace of existence at one
/// unit of time, each entry folded over the window of `delta` around it.
pub fn new_delta_existence(links: &Vec<Link>, nodes: &Vec<Node>, delta: Time) -> (res: Vec<(Time, Vec<bool>)>)
    ensures
        trace_of(res@) == folded(existence_trace(links@, nodes@, 1), delta),
{
    let exist_mat = delta_existence(links, nodes, 1);
    let ghost trace = trace_of(exist_mat@);
    let mut truevec: Vec<bool> = Vec::with_capacity(nodes.len());
    let mut n: usize = 0;
    while n < nodes.len()
        invariant
            n <= nodes@.len(),
        decreases nodes.len() - n,
    {
        truevec.push(false);
        n = n + 1;
    }
    let size = exist_mat.len();
    let mut res: Vec<(Time, Vec<bool>)> = Vec::with_capacity(size);
    let mut k: usize = 0;
    proof {
        lemma_trace_sized(links@, nodes@, 1);
    }
    while k < size
        invariant
            k <= size,
            size == exist_mat@.len(),
            trace == trace_of(exist_mat@),
            forall|j: int| 0 <= j < trace.len() ==> (#[trigger] trace[j]).1.len() == nodes@.len(),
            res@.len() == k,
            forall|j: int| 0 <= j < k ==> #[trigger] trace_of(res@)[j] == folded(trace, delta)[j],
        decreases size - k,
    {
        let t = exist_mat[k].0;
        proof {
            lemma_window_rows(trace, t, delta);
            let rows = window_rows(trace, t, delta);
            assert(trace[k as int].0 == t);
            assert(in_window(trace[k as int].0, t, delta));
            assert(rows.contains(trace[k as int].1));
            assert forall|r: int| 0 <= r < rows.len() implies (#[trigger] rows[r]).len() >= rows[0].len() by {
                assert(from_window(trace, t, delta, rows[r]));
                assert(from_window(trace, t, delta, rows[0]));
            }
        }
        let ghost before = trace_of(res@);
        let row = fold_existence_at(t, &exist_mat, delta, &truevec);
        res.push((t, row));
        assert forall|j: int| 0 <= j < k + 1 implies #[trigger] trace_of(res@)[j] == folded(trace, delta)[j] by {
            if j < k {
                assert(trace_of(res@)[j] == before[j]);
            }
        }
        k = k + 1;
    }
    assert(trace_of(res@) =~= folded(trace, delta));
    res
}

/// The entry `j` of the trace opens an interval: it is the first, or its
/// vector differs from that of the entry before it.
pub open spec fn opens(trace: Seq<(Time, Seq<bool>)>, j: int) -> bool {
    j == 0 || trace[j].1 != trace[j - 1].1
}

/// The entries below `k` that open an interval, in increasing order.
pub open spec fn starts_below(trace: Seq<(Time, Seq<bool>)>, k: int) -> Seq<int>
    decreases k,
{
    if k <= 0 {
        Seq::empty()
    } else if opens(trace, k - 1) {
        starts_below(trace, k - 1).push(k - 1)
    } else {
        starts_below(trace, k - 1)
    }
}

/// The entries of the trace that open an interval, in increasing order.
pub open spec fn starts(trace: Seq<(Time, Seq<bool>)>) -> Seq<int> {
    starts_below(trace, trace.len() as int)
}

/// The last entry of the interval `i`: the one before the next interval
/// opens, or the last of the trace.
pub open spec fn stop_of(trace: Seq<(Time, Seq<bool>)>, s: Seq<int>, i: int) -> int {
    if i + 1 < s.len() {
        s[i + 1] - 1
    } else {
        trace.len() - 1
    }
}

/// The intervals of constant activity of the trace: each runs from an
/// entry that opens an interval to the entry before the next one, and
/// holds the instants of both and the nodes active in it.
pub open spec fn segments(trace: Seq<(Time, Seq<bool>)>) -> Seq<(Time, Time, Seq<Node>)> {
    Seq::new(
        starts(trace).len(),
        |i: int|
            (
                trace[starts(trace)[i]].0,
                trace[stop_of(trace, starts(trace), i)].0,
                truths(trace[starts(trace)[i]].1),
            ),
    )
}

/// The intervals as a sequence of instants and node lists.
pub open spec fn spans_of(v: Seq<(Time, Time, Vec<Node>)>) -> Seq<(Time, Time, Seq<Node>)> {
    Seq::new(v.len(), |k: int| (v[k].0, v[k].1, v[k].2@))
}

/// The entries that open an interval below `k`: the first one is among
/// them, they increase, and between one and the next the vector stays the
/// same and then changes.
pub proof fn lemma_starts_below(trace: Seq<(Time, Seq<bool>)>, k: int)
    requires
        1 <= k <= trace.len(),
    ensures
        starts_below(trace, k).len() >= 1,
        starts_below(trace, k)[0] == 0,
        forall|i: int| 0 <= i < starts_below(trace, k).len() ==> 0 <= (#[trigger] starts_below(trace, k)[i]) < k,
        forall|i: int, j: int|
            0 <= i < j < starts_below(trace, k).len() ==> starts_below(trace, k)[i] < starts_below(trace, k)[j],
        forall|i: int, j: int|
            0 <= i < starts_below(trace, k).len() && starts_below(trace, k)[i] <= j <= stop_of(
                trace.take(k),
                starts_below(trace, k),
                i,
            ) ==> (#[trigger] trace[j]).1 == trace[#[trigger] starts_below(trace, k)[i]].1,
        forall|i: int|
            0 <= i && i + 1 < starts_below(trace, k).len() ==> trace[#[trigger] starts_below(trace, k)[i]].1
                != trace[starts_below(trace, k)[i + 1]].1,
    decreases k,
{
    let s = starts_below(trace, k);
    if k == 1 {
        assert(starts_below(trace, 0) =~= Seq::empty());
        assert(s =~= seq![0int]);
    } else {
        let before = starts_below(trace, k - 1);
        lemma_starts_below(trace, k - 1);
        let last = before.len() - 1;
        assert(stop_of(trace.take(k - 1), before, last) == k - 2);
        if opens(trace, k - 1) {
            assert(s == before.push(k - 1));
            assert forall|i: int, j: int|
                0 <= i < s.len() && s[i] <= j <= stop_of(trace.take(k), s, i) implies (#[trigger] trace[j]).1
                == trace[#[trigger] s[i]].1 by {
                if i < last {
                    assert(s[i] == before[i]);
                    assert(s[i + 1] == before[i + 1]);
                    assert(stop_of(trace.take(k - 1), before, i) == before[i + 1] - 1);
                } else if i == last {
                    assert(s[i] == before[i]);
                    assert(stop_of(trace.take(k), s, i) == k - 2);
                }
            }
            assert forall|i: int| 0 <= i && i + 1 < s.len() implies trace[#[trigger] s[i]].1 != trace[s[i + 1]].1 by {
                if i + 1 < before.len() {
                    assert(s[i] == before[i]);
                    assert(s[i + 1] == before[i + 1]);
                } else {
                    assert(s[i] == before[last]);
                    assert(before[last] <= k - 2 <= stop_of(trace.take(k - 1), before, last));
                    assert(trace[k - 2].1 == trace[before[last]].1);
                }
            }
        } else {
            assert(s == before);
            assert forall|i: int, j: int|
                0 <= i < s.len() && s[i] <= j <= stop_of(trace.take(k), s, i) implies (#[trigger] trace[j]).1
                == trace[#[trigger] s[i]].1 by {
                if i < last {
                    assert(stop_of(trace.take(k - 1), before, i) == before[i + 1] - 1);
                } else {
                    assert(before[last] <= k - 2 <= stop_of(trace.take(k - 1), before, last));
                    assert(trace[k - 2].1 == trace[before[last]].1);
                    if j == k - 1 {
                    } else {
                        assert(j <= stop_of(trace.take(k - 1), before, last));
                    }
                }
            }
        }
    }
}

/// Two vectors of one length that hold `true` at the same indices are the
/// same vector.
pub proof fn lemma_truths_tell(a: Seq<bool>, b: Seq<bool>)
    requires
        a.len() == b.len(),
        a.len() <= usize::MAX,
        truths(a) == truths(b),
    ensures
        a == b,
{
    lemma_truths_below(a, a.len() as int);
    lemma_truths_below(b, b.len() as int);
    assert forall|j: int| 0 <= j < a.len() implies a[j] == b[j] by {
        if a[j] {
            assert(truths(a).contains(j as usize));
            let k = choose|k: int| 0 <= k < truths(b).len() && truths(b)[k] == j as usize;
            assert(b[truths(b)[k] as int]);
        }
        if b[j] {
            assert(truths(b).contains(j as usize));
            let k = choose|k: int| 0 <= k < truths(a).len() && truths(a)[k] == j as usize;
            assert(a[truths(a)[k] as int]);
        }
    }
    assert(a =~= b);
}

/// The intervals tile the trace. The first opens at the first entry and
/// the last closes at the last one; each closes on the entry before the
/// next one opens; within an interval the vector does not change, and
/// from one interval to the next it does. Where all vectors have one
/// length, neighbouring intervals differ in their active nodes.
pub proof fn lemma_intervals_tile(trace: Seq<(Time, Seq<bool>)>)
    requires
        trace.len() > 0,
    ensures
        segments(trace).len() == starts(trace).len(),
        starts(trace).len() >= 1,
        starts(trace)[0] == 0,
        segments(trace)[0].0 == trace[0].0,
        segments(trace).last().1 == trace.last().0,
        forall|i: int| 0 <= i < starts(trace).len() ==> 0 <= (#[trigger] starts(trace)[i]) < trace.len(),
        forall|i: int, j: int| 0 <= i < j < starts(trace).len() ==> starts(trace)[i] < starts(trace)[j],
        forall|i: int|
            0 <= i < starts(trace).len() ==> #[trigger] segments(trace)[i] == (
                trace[starts(trace)[i]].0,
                trace[stop_of(trace, starts(trace), i)].0,
                truths(trace[starts(trace)[i]].1),
            ),
        forall|i: int, j: int|
            0 <= i < starts(trace).len() && starts(trace)[i] <= j <= stop_of(trace, starts(trace), i) ==> (
            #[trigger] trace[j]).1 == trace[#[trigger] starts(trace)[i]].1,
        forall|i: int|
            0 <= i && i + 1 < starts(trace).len() ==> trace[#[trigger] starts(trace)[i]].1 != trace[starts(
                trace,
            )[i + 1]].1,
        (trace.len() <= usize::MAX && forall|j: int|
            0 <= j < trace.len() ==> (#[trigger] trace[j]).1.len() == trace[0].1.len() && trace[0].1.len()
                <= usize::MAX) ==> forall|i: int|
            0 <= i && i + 1 < segments(trace).len() ==> (#[trigger] segments(trace)[i]).2 != segments(trace)[i
                + 1].2,
{
    let s = starts(trace);
    let n = trace.len() as int;
    lemma_starts_below(trace, n);
    assert(trace.take(n) =~= trace);
    if trace.len() <= usize::MAX && forall|j: int|
        0 <= j < trace.len() ==> (#[trigger] trace[j]).1.len() == trace[0].1.len() && trace[0].1.len()
            <= usize::MAX {
        assert forall|i: int| 0 <= i && i + 1 < segments(trace).len() implies (#[trigger] segments(trace)[i]).2
            != segments(trace)[i + 1].2 by {
            let a = trace[s[i]].1;
            let b = trace[s[i + 1]].1;
            assert(trace[s[i]].1.len() == trace[0].1.len());
            assert(trace[s[i + 1]].1.len() == trace[0].1.len());
            if truths(a) == truths(b) {
                lemma_truths_tell(a, b);
            }
        }
    }
}

/// The trace holds an entry for each run of links of one instant: at most
/// as many as there are links, and one at least where there is a link.
pub proof fn lemma_trace_count(links: Seq<Link>, nodes: Seq<Node>, delta: Time)
    ensures
        closed_trace(links, nodes, delta).len() <= links.len(),
        existence_trace(links, nodes, delta).len() <= links.len(),
        links.len() > 0 ==> closed_trace(links, nodes, delta).len() < links.len() && existence_trace(
            links,
            nodes,
            delta,
        ).len() > 0,
    decreases links.len(),
{
    if links.len() > 0 {
        lemma_trace_count(links.drop_last(), nodes, delta);
    }
}

/// Every vector of the folded existence trace of a stream says of each
/// tracked node whether it is active.
pub proof fn lemma_folded_sized(links: Seq<Link>, nodes: Seq<Node>, delta: Time)
    requires
        nodes.len() <= usize::MAX,
    ensures
        forall|k: int|
            0 <= k < folded(existence_trace(links, nodes, 1), delta).len() ==> (#[trigger] folded(
                existence_trace(links, nodes, 1),
                delta,
            )[k]).1.len() == nodes.len(),
{
    let trace = existence_trace(links, nodes, 1);
    lemma_trace_sized(links, nodes, 1);
    assert forall|k: int| 0 <= k < folded(trace, delta).len() implies (#[trigger] folded(trace, delta)[k]).1.len()
        == nodes.len() by {
        let t = trace[k].0;
        let rows = window_rows(trace, t, delta);
        lemma_window_rows(trace, t, delta);
        assert(in_window(trace[k].0, t, delta));
        assert(rows.contains(trace[k].1));
        assert(from_window(trace, t, delta, rows[0]));
    }
}

/// The intervals of constant activity of a stream cover it from the
/// instant of its first link to that of its last, and neighbouring
/// intervals differ in their active nodes.
pub proof fn lemma_existence_intervals_tile(links: Seq<Link>, nodes: Seq<Node>, delta: Time)
    requires
        nodes.len() <= usize::MAX,
        0 < links.len() <= usize::MAX,
    ensures
        segments(folded(existence_trace(links, nodes, 1), delta))[0].0 == links[0].time,
        segments(folded(existence_trace(links, nodes, 1), delta)).last().1 == links.last().time,
        forall|i: int|
            0 <= i && i + 1 < segments(folded(existence_trace(links, nodes, 1), delta)).len() ==> (#[trigger] segments(
                folded(existence_trace(links, nodes, 1), delta),
            )[i]).2 != segments(folded(existence_trace(links, nodes, 1), delta))[i + 1].2,
{
    let trace = folded(existence_trace(links, nodes, 1), delta);
    lemma_folded_sized(links, nodes, delta);
    lemma_trace_count(links, nodes, 1);
    lemma_trace_span(links, nodes, 1);
    lemma_intervals_tile(trace);
}

/// Cut the trace into its intervals of constant activity. The trace must
/// hold an entry.
pub fn intervals_of(trace: &Vec<(Time, Vec<bool>)>) -> (intervals: Vec<(Time, Time, Vec<Node>)>)
    requires
        trace@.len() > 0,
    ensures
        spans_of(intervals@) == segments(trace_of(trace@)),
{
    let ghost tr = trace_of(trace@);
    let mut intervals: Vec<(Time, Time, Vec<Node>)> = Vec::new();
    let mut curr_vec: Vec<bool> = copy_bools(&trace[0].1);
    let mut start: Time = trace[0].0;
    let mut prev: Time = start;
    let mut k: usize = 1;
    proof {
        lemma_starts_below(tr, 1);
        assert(starts_below(tr, 0) =~= Seq::empty());
        assert(starts_below(tr, 1) =~= seq![0int]);
    }
    while k < trace.len()
        invariant
            1 <= k <= trace@.len(),
            tr == trace_of(trace@),
            starts_below(tr, k as int).len() >= 1,
            0 <= starts_below(tr, k as int).last() < k,
            curr_vec@ == tr[k - 1].1,
            curr_vec@ == tr[starts_below(tr, k as int).last()].1,
            start == tr[starts_below(tr, k as int).last()].0,
            prev == tr[k - 1].0,
            intervals@.len() == starts_below(tr, k as int).len() - 1,
            forall|i: int|
                0 <= i < intervals@.len() ==> #[trigger] spans_of(intervals@)[i] == (
                    tr[starts_below(tr, k as int)[i]].0,
                    tr[starts_below(tr, k as int)[i + 1] - 1].0,
                    truths(tr[starts_below(tr, k as int)[i]].1),
                ),
        decreases trace.len() - k,
    {
        let tcurr = trace[k].0;
        let ghost s = starts_below(tr, k as int);
        let ghost shown = spans_of(intervals@);
        assert(tr[k as int] == (tcurr, trace@[k as int].1@));
        if diff(&curr_vec, &trace[k].1) {
            assert(opens(tr, k as int));
            let set = boolvec_to_set(&curr_vec);
            intervals.push((start, prev, set));
            start = tcurr;
            curr_vec = copy_bools(&trace[k].1);
            proof {
                let after = starts_below(tr, k + 1);
                assert(after == s.push(k as int));
                assert forall|i: int| 0 <= i < intervals@.len() implies #[trigger] spans_of(intervals@)[i] == (
                    tr[after[i]].0,
                    tr[after[i + 1] - 1].0,
                    truths(tr[after[i]].1),
                ) by {
                    if i < shown.len() {
                        assert(spans_of(intervals@)[i] == shown[i]);
                        assert(after[i] == s[i]);
                        assert(after[i + 1] == s[i + 1]);
                    } else {
                        assert(after[i] == s.last());
                        assert(after[i + 1] == k);
                    }
                }
            }
        } else {
            assert(!opens(tr, k as int));
            assert(starts_below(tr, k + 1) == s);
        }
        prev = tcurr;
        k = k + 1;
    }
    let ghost s = starts(tr);
    let ghost shown = spans_of(intervals@);
    let set = boolvec_to_set(&curr_vec);
    intervals.push((start, prev, set));
    proof {
        assert(spans_of(intervals@).len() == segments(tr).len());
        assert forall|i: int| 0 <= i < segments(tr).len() implies spans_of(intervals@)[i] == segments(tr)[i] by {
            if i < shown.len() {
                assert(spans_of(intervals@)[i] == shown[i]);
            }
        }
        assert(spans_of(intervals@) =~= segments(tr));
    }
    intervals
}

/// The intervals of constant activity of the stream: its folded existence
/// trace, cut wherever the active nodes change. The stream must hold a
/// link.
pub fn existence_intervals(links: &Vec<Link>, nodes: &Vec<Node>, delta: Time) -> (intervals: Vec<
    (Time, Time, Vec<Node>),
>)
    requires
        links@.len() > 0,
    ensures
        spans_of(intervals@) == segments(folded(existence_trace(links@, nodes@, 1), delta)),
{
    let trace = new_delta_existence(links, nodes, delta);
    assert(trace_of(trace@).len() == trace@.len());
    intervals_of(&trace)
}

} // verus!
