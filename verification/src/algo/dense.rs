use vstd::prelude::*;
use crate::algo::boolvec::and;
use crate::algo::boolvec::boolvec_to_set;
use crate::algo::boolvec::both;
use crate::algo::boolvec::copy_bools;
use crate::algo::boolvec::truths;
use crate::algo::existence::delta_existence;
use crate::algo::existence::existence_trace;
use crate::algo::existence::trace_of;
use crate::data::link::push_decimal;
use crate::data::link::decimal;
use crate::data::link::Link;
use crate::data::link::Node;
use crate::data::link::Time;
use crate::data::matrix::gap;

verus! {

/// The nodes that exist in every entry of the trace from `i` to `j`.
pub open spec fn meet(trace: Seq<(Time, Seq<bool>)>, i: int, j: int) -> Seq<bool>
    decreases j - i,
{
    if j <= i {
        trace[i].1
    } else {
        both(trace[j].1, meet(trace, i, j - 1))
    }
}

/// The score of the box that spans the entries from `i` to `j`: the time
/// between their instants, times the number of nodes that exist
/// throughout.
pub open spec fn score(trace: Seq<(Time, Seq<bool>)>, i: int, j: int) -> nat {
    (gap(trace[i].0, trace[j].0) * truths(meet(trace, i, j)).len()) as nat
}

/// The pair of entries comes before another in the order in which boxes
/// are scored: by the entry that closes the box, then by the one that
/// opens it.
pub open spec fn scored_before(a: int, b: int, i: int, j: int) -> bool {
    b < j || (b == j && a < i)
}

/// The box from `i` to `j` is the best of the first `n` entries: its score
/// is positive, no box has a larger one, and every box scored before it
/// has a smaller one.
pub open spec fn is_best(trace: Seq<(Time, Seq<bool>)>, n: int, i: int, j: int) -> bool {
    &&& 0 <= i < j < n
    &&& score(trace, i, j) > 0
    &&& forall|a: int, b: int| 0 <= a < b < n ==> #[trigger] score(trace, a, b) <= score(trace, i, j)
    &&& forall|a: int, b: int|
        0 <= a < b < n && scored_before(a, b, i, j) ==> #[trigger] score(trace, a, b) < score(trace, i, j)
}

/// At most one box is the best.
pub proof fn lemma_best_unique(trace: Seq<(Time, Seq<bool>)>, n: int, i: int, j: int, a: int, b: int)
    requires
        is_best(trace, n, i, j),
        is_best(trace, n, a, b),
    ensures
        i == a,
        j == b,
{
    if scored_before(a, b, i, j) {
        assert(score(trace, a, b) < score(trace, i, j));
        assert(score(trace, i, j) <= score(trace, a, b));
    } else if scored_before(i, j, a, b) {
        assert(score(trace, i, j) < score(trace, a, b));
        assert(score(trace, a, b) <= score(trace, i, j));
    }
}

/// Some box of the trace has a positive score.
pub open spec fn has_box(trace: Seq<(Time, Seq<bool>)>) -> bool {
    exists|i: int, j: int| is_best(trace, trace.len() as int, i, j)
}

/// The largest box of the trace: the instant that closes it, the instant
/// that opens it, and the nodes that exist throughout; where no box has a
/// positive score, two zero instants and no node.
pub open spec fn largest_box(trace: Seq<(Time, Seq<bool>)>) -> (Time, Time, Seq<Node>) {
    if has_box(trace) {
        let (i, j) = choose|i: int, j: int| is_best(trace, trace.len() as int, i, j);
        (trace[j].0, trace[i].0, truths(meet(trace, i, j)))
    } else {
        (0, 0, Seq::empty())
    }
}

/// The product of a span of time and a number of nodes.
fn box_score(span: Time, count: usize) -> (res: u128)
    ensures
        res == span * count,
{
    assert(span * count <= u64::MAX * usize::MAX) by (nonlinear_arith)
        requires
            span <= u64::MAX,
            count <= usize::MAX,
    ;
    assert(u64::MAX * usize::MAX <= u128::MAX) by (nonlinear_arith)
        requires
            usize::MAX <= u64::MAX,
    ;
    (span as u128) * (count as u128)
}

/// The largest box of the existence trace of the stream: the span of
/// entries over which the most nodes exist for the longest time.
pub fn largest_boxe(links: &Vec<Link>, nodes: &Vec<Node>, delta: Time) -> (max: (Time, Time, Vec<Node>))
    ensures
        (max.0, max.1, max.2@) == largest_box(existence_trace(links@, nodes@, delta)),
{
    let trace: Vec<(Time, Vec<bool>)> = delta_existence(links, nodes, delta);
    let ghost tr = trace_of(trace@);
    let mut stack: Vec<(Time, Time, Vec<bool>)> = Vec::new();
    let mut max_score: u128 = 0;
    let mut max: (Time, Time, Vec<Node>) = (0, 0, Vec::new());
    let ghost mut best: (int, int) = (0, 0);
    let mut j: usize = 0;
    while j < trace.len()
        invariant
            j <= trace@.len(),
            tr == trace_of(trace@),
            stack@.len() == j,
            forall|i: int| 0 <= i < j ==> (#[trigger] stack@[i]).1 == tr[i].0 && stack@[i].2@ == meet(tr, i, j - 1),
            max_score == 0 ==> (max.0 == 0 && max.1 == 0 && max.2@ == Seq::<Node>::empty() && forall|a: int, b: int|
                0 <= a < b < j ==> #[trigger] score(tr, a, b) == 0),
            max_score > 0 ==> is_best(tr, j as int, best.0, best.1) && max_score == score(tr, best.0, best.1)
                && max.0 == tr[best.1].0 && max.1 == tr[best.0].0 && max.2@ == truths(meet(tr, best.0, best.1)),
        decreases trace.len() - j,
    {
        let tcurr = trace[j].0;
        assert(tr[j as int] == (tcurr, trace@[j as int].1@));
        let size = stack.len();
        let mut i: usize = 0;
        while i < size
            invariant
                i <= size,
                size == j,
                j < trace@.len(),
                tr == trace_of(trace@),
                tcurr == tr[j as int].0,
                stack@.len() == size,
                forall|a: int|
                    0 <= a < i ==> (#[trigger] stack@[a]).0 == tcurr && stack@[a].1 == tr[a].0 && stack@[a].2@ == meet(
                        tr,
                        a,
                        j as int,
                    ),
                forall|a: int|
                    i <= a < size ==> (#[trigger] stack@[a]).1 == tr[a].0 && stack@[a].2@ == meet(tr, a, j - 1),
            decreases size - i,
        {
            let tstop = stack[i].1;
            let merged = and(&trace[j].1, &stack[i].2);
            assert(merged@ == meet(tr, i as int, j as int));
            stack[i] = (tcurr, tstop, merged);
            i = i + 1;
        }
        let row = copy_bools(&trace[j].1);
        stack.push((tcurr.saturating_sub(1), tcurr, row));
        let mut i: usize = 0;
        while i < size
            invariant
                i <= size,
                size == j,
                j < trace@.len(),
                tr == trace_of(trace@),
                tcurr == tr[j as int].0,
                stack@.len() == size + 1,
                forall|a: int|
                    0 <= a < size ==> (#[trigger] stack@[a]).0 == tcurr && stack@[a].1 == tr[a].0 && stack@[a].2@
                        == meet(tr, a, j as int),
                stack@[j as int].1 == tr[j as int].0,
                stack@[j as int].2@ == meet(tr, j as int, j as int),
                max_score == 0 ==> (max.0 == 0 && max.1 == 0 && max.2@ == Seq::<Node>::empty() && forall|
                    a: int,
                    b: int,
                |
                    0 <= a < b <= j && (b < j || a < i) ==> #[trigger] score(tr, a, b) == 0),
                max_score > 0 ==> {
                    &&& 0 <= best.0 < best.1 <= j
                    &&& (best.1 < j || best.0 < i)
                    &&& max_score == score(tr, best.0, best.1)
                    &&& max.0 == tr[best.1].0
                    &&& max.1 == tr[best.0].0
                    &&& max.2@ == truths(meet(tr, best.0, best.1))
                    &&& forall|a: int, b: int|
                        0 <= a < b <= j && (b < j || a < i) ==> #[trigger] score(tr, a, b) <= max_score
                    &&& forall|a: int, b: int|
                        0 <= a < b <= j && scored_before(a, b, best.0, best.1) ==> #[trigger] score(tr, a, b)
                            < max_score
                },
            decreases size - i,
        {
            let tstart = stack[i].0;
            let tstop = stack[i].1;
            let v2 = boolvec_to_set(&stack[i].2);
            let found = box_score(tstop.saturating_sub(tstart), v2.len());
            assert(found == score(tr, i as int, j as int));
            if found > max_score {
                max_score = found;
                max = (tstart, tstop, v2);
                proof {
                    best = (i as int, j as int);
                }
            }
            i = i + 1;
        }
        j = j + 1;
    }
    proof {
        let n = tr.len() as int;
        if max_score > 0 {
            assert(is_best(tr, n, best.0, best.1));
            let (i, j) = choose|i: int, j: int| is_best(tr, n, i, j);
            lemma_best_unique(tr, n, best.0, best.1, i, j);
        } else {
            if has_box(tr) {
                let (i, j) = choose|i: int, j: int| is_best(tr, n, i, j);
                assert(score(tr, i, j) == 0);
            }
        }
    }
    max
}

/// A cell of a table, by its column and its row.
#[derive(Debug, Copy, Clone, PartialEq, Eq, Structural)]
pub struct Point {
    pub x: usize,
    pub y: usize,
}

/// The text that stands for a point: its two coordinates in brackets.
pub open spec fn point_text(p: Point) -> Seq<char> {
    seq!['('] + decimal(p.x as nat) + seq![',', ' '] + decimal(p.y as nat) + seq![')']
}

impl Point {
    /// The point of the column `x` and the row `y`.
    pub fn from_coords(x: usize, y: usize) -> (p: Point)
        ensures
            p == (Point { x: x, y: y }),
    {
        Point { x: x, y: y }
    }

    /// The point of the first column and the first row.
    pub fn new() -> (p: Point)
        ensures
            p == (Point { x: 0, y: 0 }),
    {
        Point { x: 0, y: 0 }
    }

    /// The point as text: "(x, y)".
    pub fn to_string(&self) -> (text: String)
        ensures
            text@ == point_text(*self),
    {
        let mut text = String::new();
        text.push('(');
        push_decimal(&mut text, self.x as u64);
        text.push(',');
        text.push(' ');
        push_decimal(&mut text, self.y as u64);
        text.push(')');
        assert(text@ =~= point_text(*self));
        text
    }
}

/// The table holds `width` columns of at least `height` rows.
pub open spec fn table_holds(tab: Seq<(Time, Seq<bool>)>, width: usize, height: usize) -> bool {
    &&& width <= tab.len()
    &&& forall|x: int| 0 <= x < width ==> (#[trigger] tab[x]).1.len() >= height
}

/// The number of nodes that a box may hold, as far as numbers go.
pub open spec fn clamped(n: int) -> nat {
    if n > usize::MAX {
        usize::MAX as nat
    } else if n < 0 {
        0
    } else {
        n as nat
    }
}

/// The area of the rectangle between two corners: the time between their
/// columns, times the number of rows, as far as numbers go; zero where the
/// corners are the wrong way round.
pub open spec fn area_of(tab: Seq<(Time, Seq<bool>)>, ll: Point, ur: Point) -> nat {
    if ll.x > ur.x || ll.y > ur.y {
        0
    } else {
        clamped(gap(tab[ur.x as int].0, tab[ll.x as int].0) * (ur.y - ll.y + 1))
    }
}

/// The area of the rectangle between the corners `ll` and `ur`. The column
/// of `ur` must be one of the table, unless the corners are the wrong way
/// round.
pub fn area(ll: Point, ur: Point, tab: &Vec<(Time, Vec<bool>)>) -> (res: usize)
    requires
        ll.x <= ur.x && ll.y <= ur.y ==> ur.x < tab@.len(),
    ensures
        res == area_of(trace_of(tab@), ll, ur),
{
    if ll.x > ur.x || ll.y > ur.y {
        0
    } else {
        let t_ur = tab[ur.x].0;
        let t_ll = tab[ll.x].0;
        let span = t_ur.saturating_sub(t_ll);
        let rows: u128 = (ur.y - ll.y) as u128 + 1;
        assert(span * rows <= u64::MAX * (usize::MAX + 1)) by (nonlinear_arith)
            requires
                span <= u64::MAX,
                rows <= usize::MAX + 1,
        ;
        assert(u64::MAX * (usize::MAX + 1) <= u128::MAX) by (nonlinear_arith)
            requires
                usize::MAX <= u64::MAX,
        ;
        let product: u128 = (span as u128) * rows;
        if product > usize::MAX as u128 {
            usize::MAX
        } else {
            product as usize
        }
    }
}

/// The cell of the column `x` and the row `y`.
pub open spec fn cell(tab: Seq<(Time, Seq<bool>)>, x: int, y: int) -> bool {
    tab[x].1[y]
}

/// The number of cells that hold `true` in the row `y`, going back from the
/// column `x` without a gap.
pub open spec fn run(tab: Seq<(Time, Seq<bool>)>, x: int, y: int) -> nat
    decreases x + 1,
{
    if x < 0 || !cell(tab, x, y) {
        0
    } else {
        run(tab, x - 1, y) + 1
    }
}

/// A run that ends at the column `x` holds at most the columns up to `x`,
/// and every cell of it holds `true`.
pub proof fn lemma_run(tab: Seq<(Time, Seq<bool>)>, x: int, y: int)
    requires
        -1 <= x,
    ensures
        run(tab, x, y) <= x + 1,
        forall|c: int| x - run(tab, x, y) < c <= x ==> #[trigger] cell(tab, c, y),
    decreases x + 1,
{
    if x >= 0 && cell(tab, x, y) {
        lemma_run(tab, x - 1, y);
    }
}

/// A row whose cells hold `true` from the column `a` to the column `x` has
/// a run of that length at least.
pub proof fn lemma_run_covers(tab: Seq<(Time, Seq<bool>)>, a: int, x: int, y: int)
    requires
        0 <= a <= x,
        forall|c: int| a <= c <= x ==> #[trigger] cell(tab, c, y),
    ensures
        run(tab, x, y) >= x - a + 1,
    decreases x - a,
{
    assert(cell(tab, x, y));
    if a < x {
        lemma_run_covers(tab, a, x - 1, y);
    } else {
        assert(run(tab, x - 1, y) >= 0);
    }
}

/// The shortest of the runs that end at the column `x` in the rows from
/// `y1` to `y2`.
pub open spec fn narrowest(tab: Seq<(Time, Seq<bool>)>, x: int, y1: int, y2: int) -> nat
    decreases y2 - y1,
{
    if y2 <= y1 {
        run(tab, x, y1)
    } else if run(tab, x, y2) < narrowest(tab, x, y1, y2 - 1) {
        run(tab, x, y2)
    } else {
        narrowest(tab, x, y1, y2 - 1)
    }
}

/// The column `x` holds `true` in the rows from `y1` to `y2`, which are
/// rows of the table.
pub open spec fn is_candidate(tab: Seq<(Time, Seq<bool>)>, height: usize, x: int, y1: int, y2: int) -> bool {
    &&& 0 <= y1 <= y2 < height
    &&& forall|y: int| y1 <= y <= y2 ==> #[trigger] cell(tab, x, y)
}

/// The lower corner of the widest rectangle of `true` cells that ends at
/// the column `x` and holds the rows from `y1` to `y2`.
pub open spec fn candidate_ll(tab: Seq<(Time, Seq<bool>)>, x: int, y1: int, y2: int) -> Point {
    Point { x: (x + 1 - narrowest(tab, x, y1, y2)) as usize, y: y1 as usize }
}

/// The upper corner of that rectangle.
pub open spec fn candidate_ur(x: int, y2: int) -> Point {
    Point { x: x as usize, y: y2 as usize }
}

/// The area of that rectangle.
pub open spec fn candidate_area(tab: Seq<(Time, Seq<bool>)>, x: int, y1: int, y2: int) -> nat {
    area_of(tab, candidate_ll(tab, x, y1, y2), candidate_ur(x, y2))
}

/// The order in which rectangles are tried: by the column where they end,
/// then by their first row, then by their last.
pub open spec fn tried_before(a: int, b1: int, b2: int, x: int, y1: int, y2: int) -> bool {
    a < x || (a == x && (b1 < y1 || (b1 == y1 && b2 < y2)))
}

/// The shortest run of a candidate is at least one column and at most the
/// columns up to `x`, and the rectangle that it gives holds `true` only.
pub proof fn lemma_narrowest(tab: Seq<(Time, Seq<bool>)>, height: usize, x: int, y1: int, y2: int)
    requires
        0 <= x,
        is_candidate(tab, height, x, y1, y2),
    ensures
        1 <= narrowest(tab, x, y1, y2) <= x + 1,
        forall|y: int| y1 <= y <= y2 ==> narrowest(tab, x, y1, y2) <= #[trigger] run(tab, x, y),
        forall|c: int, y: int|
            x - narrowest(tab, x, y1, y2) < c <= x && y1 <= y <= y2 ==> #[trigger] cell(tab, c, y),
    decreases y2 - y1,
{
    lemma_run(tab, x, y1);
    assert(cell(tab, x, y1));
    if y2 > y1 {
        assert(is_candidate(tab, height, x, y1, y2 - 1));
        lemma_narrowest(tab, height, x, y1, y2 - 1);
        lemma_run(tab, x, y2);
        assert(cell(tab, x, y2));
    }
    assert forall|c: int, y: int| x - narrowest(tab, x, y1, y2) < c <= x && y1 <= y <= y2 implies #[trigger] cell(
        tab,
        c,
        y,
    ) by {
        lemma_run(tab, x, y);
    }
}

/// Every cell of the rectangle between the two corners holds `true`.
pub open spec fn all_true(tab: Seq<(Time, Seq<bool>)>, ll: Point, ur: Point) -> bool {
    forall|c: int, y: int| ll.x <= c <= ur.x && ll.y <= y <= ur.y ==> #[trigger] cell(tab, c, y)
}

/// The instants of the first `width` columns do not decrease.
pub open spec fn times_ordered(tab: Seq<(Time, Seq<bool>)>, width: usize) -> bool {
    forall|a: int, b: int| 0 <= a <= b < width ==> (#[trigger] tab[a]).0 <= (#[trigger] tab[b]).0
}

/// The shortest run of a candidate is as long as the shortest of its rows.
pub proof fn lemma_narrowest_least(tab: Seq<(Time, Seq<bool>)>, x: int, y1: int, y2: int, least: nat)
    requires
        y1 <= y2,
        forall|y: int| y1 <= y <= y2 ==> #[trigger] run(tab, x, y) >= least,
    ensures
        narrowest(tab, x, y1, y2) >= least,
    decreases y2 - y1,
{
    if y2 > y1 {
        lemma_narrowest_least(tab, x, y1, y2 - 1, least);
    }
}

/// Where the instants of the columns do not decrease, a rectangle of `true`
/// cells is no larger than the widest one that ends at its last column and
/// holds its rows.
pub proof fn lemma_rectangle_within(tab: Seq<(Time, Seq<bool>)>, width: usize, height: usize, ll: Point, ur: Point)
    requires
        times_ordered(tab, width),
        ll.x <= ur.x < width,
        ll.y <= ur.y < height,
        all_true(tab, ll, ur),
    ensures
        is_candidate(tab, height, ur.x as int, ll.y as int, ur.y as int),
        area_of(tab, ll, ur) <= candidate_area(tab, ur.x as int, ll.y as int, ur.y as int),
{
    let x = ur.x as int;
    let y1 = ll.y as int;
    let y2 = ur.y as int;
    assert forall|y: int| y1 <= y <= y2 implies #[trigger] cell(tab, x, y) by {
    }
    let least = (x - ll.x + 1) as nat;
    assert forall|y: int| y1 <= y <= y2 implies #[trigger] run(tab, x, y) >= least by {
        assert forall|c: int| ll.x <= c <= x implies #[trigger] cell(tab, c, y) by {
        }
        lemma_run_covers(tab, ll.x as int, x, y);
    }
    lemma_narrowest_least(tab, x, y1, y2, least);
    lemma_narrowest(tab, height, x, y1, y2);
    let left = candidate_ll(tab, x, y1, y2);
    assert(left.x <= ll.x);
    assert(tab[left.x as int].0 <= tab[ll.x as int].0);
    let rows = y2 - y1 + 1;
    let wide = gap(tab[x].0, tab[left.x as int].0);
    let given = gap(tab[x].0, tab[ll.x as int].0);
    assert(given <= wide);
    assert(given * rows <= wide * rows) by (nonlinear_arith)
        requires
            given <= wide,
            rows >= 0,
    ;
}

/// Among the rectangles that end at the column `x` and start at the row
/// `y1`, the one that ends at the row `y2` is the best: its area is
/// positive, none has a larger one, and every shorter one has a smaller
/// one.
pub open spec fn is_tallest(tab: Seq<(Time, Seq<bool>)>, height: usize, x: int, y1: int, y2: int) -> bool {
    &&& is_candidate(tab, height, x, y1, y2)
    &&& candidate_area(tab, x, y1, y2) > 0
    &&& forall|b2: int|
        is_candidate(tab, height, x, y1, b2) ==> #[trigger] candidate_area(tab, x, y1, b2) <= candidate_area(
            tab,
            x,
            y1,
            y2,
        )
    &&& forall|b2: int|
        is_candidate(tab, height, x, y1, b2) && b2 < y2 ==> #[trigger] candidate_area(tab, x, y1, b2)
            < candidate_area(tab, x, y1, y2)
}

/// The best rectangle that ends at the column `x` and starts at the row
/// `y1`; where none has a positive area, the cell of that column and row
/// by itself.
pub open spec fn grown(tab: Seq<(Time, Seq<bool>)>, height: usize, x: int, y1: int) -> (Point, Point) {
    if exists|y2: int| is_tallest(tab, height, x, y1, y2) {
        let y2 = choose|y2: int| is_tallest(tab, height, x, y1, y2);
        (candidate_ll(tab, x, y1, y2), candidate_ur(x, y2))
    } else {
        (Point { x: x as usize, y: y1 as usize }, Point { x: x as usize, y: y1 as usize })
    }
}

/// The rectangle that ends at the column `x` and holds the rows from `y1`
/// to `y2` is the largest of the table: its area is positive, none has a
/// larger one, and every one tried before it has a smaller one.
pub open spec fn is_largest(
    tab: Seq<(Time, Seq<bool>)>,
    width: usize,
    height: usize,
    x: int,
    y1: int,
    y2: int,
) -> bool {
    &&& 0 <= x < width
    &&& is_candidate(tab, height, x, y1, y2)
    &&& candidate_area(tab, x, y1, y2) > 0
    &&& forall|a: int, b1: int, b2: int|
        0 <= a < width && is_candidate(tab, height, a, b1, b2) ==> #[trigger] candidate_area(tab, a, b1, b2)
            <= candidate_area(tab, x, y1, y2)
    &&& forall|a: int, b1: int, b2: int|
        0 <= a < width && is_candidate(tab, height, a, b1, b2) && tried_before(a, b1, b2, x, y1, y2)
            ==> #[trigger] candidate_area(tab, a, b1, b2) < candidate_area(tab, x, y1, y2)
}

/// The largest rectangle of `true` cells of the table, by its two corners;
/// where none has a positive area, twice the first cell.
pub open spec fn largest_rect(tab: Seq<(Time, Seq<bool>)>, width: usize, height: usize) -> (Point, Point) {
    if exists|x: int, y1: int, y2: int| is_largest(tab, width, height, x, y1, y2) {
        let (x, y1, y2) = choose|x: int, y1: int, y2: int| is_largest(tab, width, height, x, y1, y2);
        (candidate_ll(tab, x, y1, y2), candidate_ur(x, y2))
    } else {
        (Point { x: 0, y: 0 }, Point { x: 0, y: 0 })
    }
}

/// The cache holds, for each row, the run that ends at the column `x`.
pub open spec fn cache_at(tab: Seq<(Time, Seq<bool>)>, cache: Seq<usize>, x: int, height: usize) -> bool {
    &&& cache.len() == height
    &&& forall|y: int| 0 <= y < height ==> #[trigger] cache[y] == run(tab, x, y)
}

/// Move the cache of runs from the column before `x` to the column `x`.
fn update_cache(tab: &Vec<(Time, Vec<bool>)>, cache: &mut Vec<usize>, x: usize, height: usize)
    requires
        x < tab@.len(),
        tab@[x as int].1@.len() >= height,
        cache_at(trace_of(tab@), old(cache)@, x - 1, height),
    ensures
        cache_at(trace_of(tab@), final(cache)@, x as int, height),
{
    let ghost tr = trace_of(tab@);
    let columns = tab.len();
    let mut y: usize = 0;
    while y < height
        invariant
            y <= height,
            x < columns,
            columns == tab@.len(),
            tab@[x as int].1@.len() >= height,
            tr == trace_of(tab@),
            cache@.len() == height,
            forall|r: int| 0 <= r < y ==> #[trigger] cache@[r] == run(tr, x as int, r),
            forall|r: int| y <= r < height ==> #[trigger] cache@[r] == run(tr, x - 1, r),
        decreases height - y,
    {
        proof {
            lemma_run(tr, x - 1, y as int);
            assert(cell(tr, x as int, y as int) == tab@[x as int].1@[y as int]);
            assert(cache@[y as int] == run(tr, x - 1, y as int));
        }
        if tab[x].1[y] {
            cache[y] = cache[y] + 1;
        } else {
            cache[y] = 0;
        }
        y = y + 1;
    }
}

/// Grow a rectangle of `true` cells down from the row `y1` of the column
/// `x`, as wide as the runs of its rows allow, and return the corners of
/// the best one.
fn grow_ones(tab: &Vec<(Time, Vec<bool>)>, cache: &Vec<usize>, height: usize, x: usize, y1: usize) -> (res: (
    Point,
    Point,
))
    requires
        x < tab@.len(),
        y1 < height,
        tab@[x as int].1@.len() >= height,
        cache_at(trace_of(tab@), cache@, x as int, height),
    ensures
        res == grown(trace_of(tab@), height, x as int, y1 as int),
{
    let ghost tr = trace_of(tab@);
    let anchor = Point::from_coords(x, y1);
    let mut ll = anchor;
    let mut ur = anchor;
    let mut best_area: usize = 0;
    let ghost mut best_row: int = y1 as int;
    let mut narrow: usize = 0;
    let mut y: usize = y1;
    while y < height && tab[x].1[y]
        invariant
            y1 <= y <= height,
            x < tab@.len(),
            tab@[x as int].1@.len() >= height,
            tr == trace_of(tab@),
            cache_at(tr, cache@, x as int, height),
            anchor == (Point { x: x, y: y1 }),
            forall|r: int| y1 <= r < y ==> #[trigger] cell(tr, x as int, r),
            y > y1 ==> narrow == narrowest(tr, x as int, y1 as int, y - 1),
            best_area == 0 ==> ll == anchor && ur == anchor && forall|b2: int|
                y1 <= b2 < y ==> #[trigger] candidate_area(tr, x as int, y1 as int, b2) == 0,
            best_area > 0 ==> {
                &&& y1 <= best_row < y
                &&& ll == candidate_ll(tr, x as int, y1 as int, best_row)
                &&& ur == candidate_ur(x as int, best_row)
                &&& best_area == candidate_area(tr, x as int, y1 as int, best_row)
                &&& forall|b2: int|
                    y1 <= b2 < y ==> #[trigger] candidate_area(tr, x as int, y1 as int, b2) <= best_area
                &&& forall|b2: int|
                    y1 <= b2 < best_row ==> #[trigger] candidate_area(tr, x as int, y1 as int, b2) < best_area
            },
        decreases height - y,
    {
        assert(cell(tr, x as int, y as int));
        if y == y1 || cache[y] < narrow {
            narrow = cache[y];
        }
        proof {
            assert(is_candidate(tr, height, x as int, y1 as int, y as int));
            lemma_narrowest(tr, height, x as int, y1 as int, y as int);
            assert(narrow == narrowest(tr, x as int, y1 as int, y as int));
        }
        let candidat_ll = Point::from_coords(x - (narrow - 1), y1);
        let candidat_ur = Point::from_coords(x, y);
        let found = area(candidat_ll, candidat_ur, tab);
        if found > best_area {
            ll = candidat_ll;
            ur = candidat_ur;
            best_area = found;
            proof {
                best_row = y as int;
            }
        }
        y = y + 1;
    }
    proof {
        assert forall|b2: int| is_candidate(tr, height, x as int, y1 as int, b2) implies y1 <= b2 < y by {
            if b2 >= y {
                assert(cell(tr, x as int, y as int));
                assert(cell(tr, x as int, y as int) == tab@[x as int].1@[y as int]);
            }
        }
        assert forall|b2: int| y1 <= b2 < y implies is_candidate(tr, height, x as int, y1 as int, b2) by {
            assert forall|r: int| y1 <= r <= b2 implies #[trigger] cell(tr, x as int, r) by {
            }
        }
        if best_area > 0 {
            assert(is_tallest(tr, height, x as int, y1 as int, best_row));
            let other = choose|y2: int| is_tallest(tr, height, x as int, y1 as int, y2);
            if other < best_row {
                assert(candidate_area(tr, x as int, y1 as int, other) < best_area);
                assert(candidate_area(tr, x as int, y1 as int, best_row) <= candidate_area(
                    tr,
                    x as int,
                    y1 as int,
                    other,
                ));
            } else if best_row < other {
                assert(candidate_area(tr, x as int, y1 as int, best_row) < candidate_area(
                    tr,
                    x as int,
                    y1 as int,
                    other,
                ));
                assert(candidate_area(tr, x as int, y1 as int, other) <= best_area);
            }
        } else {
            if exists|y2: int| is_tallest(tr, height, x as int, y1 as int, y2) {
                let other = choose|y2: int| is_tallest(tr, height, x as int, y1 as int, y2);
                assert(candidate_area(tr, x as int, y1 as int, other) == 0);
            }
        }
    }
    (ll, ur)
}

/// What `grown` gives for a column and a row: the area of its rectangle is
/// that of the best candidate there, and zero where there is none.
pub proof fn lemma_grown(tab: Seq<(Time, Seq<bool>)>, height: usize, x: int, y1: int)
    ensures
        (exists|y2: int| is_tallest(tab, height, x, y1, y2)) ==> is_tallest(
            tab,
            height,
            x,
            y1,
            choose|y2: int| is_tallest(tab, height, x, y1, y2),
        ),
        !(exists|y2: int| is_tallest(tab, height, x, y1, y2)) ==> (forall|b2: int|
            is_candidate(tab, height, x, y1, b2) ==> #[trigger] candidate_area(tab, x, y1, b2) == 0) && area_of(
            tab,
            grown(tab, height, x, y1).0,
            grown(tab, height, x, y1).1,
        ) == 0,
    decreases height,
{
    if !(exists|y2: int| is_tallest(tab, height, x, y1, y2)) {
        assert forall|b2: int| is_candidate(tab, height, x, y1, b2) implies #[trigger] candidate_area(
            tab,
            x,
            y1,
            b2,
        ) == 0 by {
            if candidate_area(tab, x, y1, b2) > 0 {
                lemma_tallest_exists(tab, height, x, y1, b2, height as int - 1);
            }
        }
    }
}

/// Where a candidate that starts at the row `y1` has a positive area, one
/// of those that end at the row `top` or before is the best of them.
pub proof fn lemma_tallest_upto(tab: Seq<(Time, Seq<bool>)>, height: usize, x: int, y1: int, top: int) -> (y2: int)
    requires
        exists|b2: int|
            b2 <= top && is_candidate(tab, height, x, y1, b2) && #[trigger] candidate_area(tab, x, y1, b2) > 0,
    ensures
        y2 <= top,
        is_candidate(tab, height, x, y1, y2),
        candidate_area(tab, x, y1, y2) > 0,
        forall|b2: int|
            b2 <= top && is_candidate(tab, height, x, y1, b2) ==> #[trigger] candidate_area(tab, x, y1, b2)
                <= candidate_area(tab, x, y1, y2),
        forall|b2: int|
            is_candidate(tab, height, x, y1, b2) && b2 < y2 ==> #[trigger] candidate_area(tab, x, y1, b2)
                < candidate_area(tab, x, y1, y2),
    decreases top - y1,
{
    let w = choose|b2: int|
        b2 <= top && is_candidate(tab, height, x, y1, b2) && #[trigger] candidate_area(tab, x, y1, b2) > 0;
    if exists|b2: int|
        b2 <= top - 1 && is_candidate(tab, height, x, y1, b2) && #[trigger] candidate_area(tab, x, y1, b2) > 0 {
        let q = lemma_tallest_upto(tab, height, x, y1, top - 1);
        if is_candidate(tab, height, x, y1, top) && candidate_area(tab, x, y1, top) > candidate_area(
            tab,
            x,
            y1,
            q,
        ) {
            top
        } else {
            q
        }
    } else {
        assert(w == top);
        top
    }
}

/// Where a candidate that starts at the row `y1` has a positive area, one
/// of them is the best.
pub proof fn lemma_tallest_exists(tab: Seq<(Time, Seq<bool>)>, height: usize, x: int, y1: int, b2: int, top: int)
    requires
        is_candidate(tab, height, x, y1, b2),
        candidate_area(tab, x, y1, b2) > 0,
        top == height - 1,
    ensures
        exists|y2: int| is_tallest(tab, height, x, y1, y2),
{
    let y2 = lemma_tallest_upto(tab, height, x, y1, top);
    assert(is_tallest(tab, height, x, y1, y2));
}

/// The largest rectangle of `true` cells among the first `width` columns
/// and the first `height` rows of the table, by its lower and its upper
/// corner. Its area is the time between its first and its last column,
/// times the number of its rows. For each last column and each run of rows
/// the widest rectangle is tried, and of two rectangles of one area the one
/// tried first is kept. Where the instants of the columns do not decrease,
/// no rectangle of `true` cells is larger than the one returned.
pub fn largest_rectangle(tab: &Vec<(Time, Vec<bool>)>, width: usize, height: usize) -> (res: (Point, Point))
    requires
        table_holds(trace_of(tab@), width, height),
    ensures
        res == largest_rect(trace_of(tab@), width, height),
        forall|a: int, b1: int, b2: int|
            0 <= a < width && is_candidate(trace_of(tab@), height, a, b1, b2) ==> #[trigger] candidate_area(
                trace_of(tab@),
                a,
                b1,
                b2,
            ) <= area_of(trace_of(tab@), res.0, res.1),
        area_of(trace_of(tab@), res.0, res.1) > 0 ==> res.0.x <= res.1.x < width && res.0.y <= res.1.y < height
            && all_true(trace_of(tab@), res.0, res.1),
        times_ordered(trace_of(tab@), width) ==> forall|ll: Point, ur: Point|
            ll.x <= ur.x < width && ll.y <= ur.y < height && #[trigger] all_true(trace_of(tab@), ll, ur) ==> area_of(
                trace_of(tab@),
                ll,
                ur,
            ) <= area_of(trace_of(tab@), res.0, res.1),
{
    let ghost tr = trace_of(tab@);
    let mut cache: Vec<usize> = Vec::with_capacity(height);
    let mut h: usize = 0;
    while h < height
        invariant
            h <= height,
            cache@.len() == h,
            forall|r: int| 0 <= r < h ==> cache@[r] == 0,
        decreases height - h,
    {
        cache.push(0);
        h = h + 1;
    }
    let mut best_ll = Point::new();
    let mut best_ur = Point::new();
    let mut best_area: usize = 0;
    let ghost mut best: (int, int, int) = (0, 0, 0);
    let mut x1: usize = 0;
    while x1 < width
        invariant
            x1 <= width,
            tr == trace_of(tab@),
            table_holds(tr, width, height),
            cache_at(tr, cache@, x1 - 1, height),
            best_area == 0 ==> best_ll == (Point { x: 0, y: 0 }) && best_ur == (Point { x: 0, y: 0 }) && forall|
                a: int,
                b1: int,
                b2: int,
            |
                0 <= a < x1 && is_candidate(tr, height, a, b1, b2) ==> #[trigger] candidate_area(tr, a, b1, b2) == 0,
            best_area > 0 ==> {
                &&& 0 <= best.0 < x1
                &&& is_candidate(tr, height, best.0, best.1, best.2)
                &&& best_ll == candidate_ll(tr, best.0, best.1, best.2)
                &&& best_ur == candidate_ur(best.0, best.2)
                &&& best_area == candidate_area(tr, best.0, best.1, best.2)
                &&& forall|a: int, b1: int, b2: int|
                    0 <= a < x1 && is_candidate(tr, height, a, b1, b2) ==> #[trigger] candidate_area(tr, a, b1, b2)
                        <= best_area
                &&& forall|a: int, b1: int, b2: int|
                    0 <= a < width && is_candidate(tr, height, a, b1, b2) && tried_before(
                        a,
                        b1,
                        b2,
                        best.0,
                        best.1,
                        best.2,
                    ) ==> #[trigger] candidate_area(tr, a, b1, b2) < best_area
            },
        decreases width - x1,
    {
        assert(tr[x1 as int].1.len() >= height);
        update_cache(tab, &mut cache, x1, height);
        let mut y1: usize = 0;
        while y1 < height
            invariant
                y1 <= height,
                x1 < width,
                tr == trace_of(tab@),
                table_holds(tr, width, height),
                cache_at(tr, cache@, x1 as int, height),
                best_area == 0 ==> best_ll == (Point { x: 0, y: 0 }) && best_ur == (Point { x: 0, y: 0 })
                    && forall|a: int, b1: int, b2: int|
                    0 <= a <= x1 && (a < x1 || b1 < y1) && is_candidate(tr, height, a, b1, b2)
                        ==> #[trigger] candidate_area(tr, a, b1, b2) == 0,
                best_area > 0 ==> {
                    &&& 0 <= best.0 <= x1
                    &&& (best.0 < x1 || best.1 < y1)
                    &&& is_candidate(tr, height, best.0, best.1, best.2)
                    &&& best_ll == candidate_ll(tr, best.0, best.1, best.2)
                    &&& best_ur == candidate_ur(best.0, best.2)
                    &&& best_area == candidate_area(tr, best.0, best.1, best.2)
                    &&& forall|a: int, b1: int, b2: int|
                        0 <= a <= x1 && (a < x1 || b1 < y1) && is_candidate(tr, height, a, b1, b2)
                            ==> #[trigger] candidate_area(tr, a, b1, b2) <= best_area
                    &&& forall|a: int, b1: int, b2: int|
                        0 <= a < width && is_candidate(tr, height, a, b1, b2) && tried_before(
                            a,
                            b1,
                            b2,
                            best.0,
                            best.1,
                            best.2,
                        ) ==> #[trigger] candidate_area(tr, a, b1, b2) < best_area
                },
            decreases height - y1,
        {
            assert(tr[x1 as int].1.len() >= height);
            let grown_pair = grow_ones(tab, &cache, height, x1, y1);
            let ll = grown_pair.0;
            let ur = grown_pair.1;
            proof {
                lemma_grown(tr, height, x1 as int, y1 as int);
                if exists|y2: int| is_tallest(tr, height, x1 as int, y1 as int, y2) {
                    let y2 = choose|y2: int| is_tallest(tr, height, x1 as int, y1 as int, y2);
                    lemma_narrowest(tr, height, x1 as int, y1 as int, y2);
                }
            }
            let found = area(ll, ur, tab);
            if found > best_area {
                proof {
                    let y2 = choose|y2: int| is_tallest(tr, height, x1 as int, y1 as int, y2);
                    best = (x1 as int, y1 as int, y2);
                }
                best_area = found;
                best_ll = ll;
                best_ur = ur;
            }
            y1 = y1 + 1;
        }
        x1 = x1 + 1;
    }
    proof {
        if times_ordered(tr, width) {
            assert forall|ll: Point, ur: Point|
                ll.x <= ur.x < width && ll.y <= ur.y < height && #[trigger] all_true(tr, ll, ur) implies area_of(
                tr,
                ll,
                ur,
            ) <= best_area by {
                lemma_rectangle_within(tr, width, height, ll, ur);
                assert(candidate_area(tr, ur.x as int, ll.y as int, ur.y as int) <= best_area);
            }
        }
        if best_area > 0 {
            lemma_narrowest(tr, height, best.0, best.1, best.2);
            assert(best_ll.x == best.0 + 1 - narrowest(tr, best.0, best.1, best.2));
            assert(best_ll.y == best.1);
            assert(best_ur.x == best.0);
            assert(best_ur.y == best.2);
            assert forall|c: int, y: int|
                best_ll.x <= c <= best_ur.x && best_ll.y <= y <= best_ur.y implies #[trigger] cell(tr, c, y) by {
            }
            assert(is_largest(tr, width, height, best.0, best.1, best.2));
            let (x, y1, y2) = choose|x: int, y1: int, y2: int| is_largest(tr, width, height, x, y1, y2);
            if tried_before(x, y1, y2, best.0, best.1, best.2) {
                assert(candidate_area(tr, x, y1, y2) < best_area);
                assert(candidate_area(tr, best.0, best.1, best.2) <= candidate_area(tr, x, y1, y2));
            } else if tried_before(best.0, best.1, best.2, x, y1, y2) {
                assert(candidate_area(tr, best.0, best.1, best.2) < candidate_area(tr, x, y1, y2));
                assert(candidate_area(tr, x, y1, y2) <= best_area);
            }
        } else {
            assert(best_ll == (Point { x: 0, y: 0 }) && best_ur == (Point { x: 0, y: 0 }));
            assert(gap(tr[0].0, tr[0].0) == 0);
            assert(gap(tr[0].0, tr[0].0) * (0 - 0 + 1) == 0);
            assert(area_of(tr, best_ll, best_ur) == 0);
            if exists|x: int, y1: int, y2: int| is_largest(tr, width, height, x, y1, y2) {
                let (x, y1, y2) = choose|x: int, y1: int, y2: int| is_largest(tr, width, height, x, y1, y2);
                assert(candidate_area(tr, x, y1, y2) == 0);
            }
        }
    }
    (best_ll, best_ur)
}

} // verus!
