use vstd::prelude::*;
use crate::data::filtre::NodeFilter;
use crate::data::link::Node;
use crate::data::link::Time;

verus! {

/// A dense table of `width` rows, each of `height` cells.
#[derive(Debug)]
pub struct Matrix<V: Copy> {
    pub matrix: Vec<Vec<V>>,
    pub width: usize,
    pub height: usize,
}

/// The table of `width` rows and `height` columns that holds `elem` everywhere.
pub open spec fn filled<V>(elem: V, width: nat, height: nat) -> Seq<Seq<V>> {
    Seq::new(width, |x: int| Seq::new(height, |y: int| elem))
}

/// A cell of a graph stands for an edge when it is neither zero nor the
/// sentinel.
pub open spec fn is_edge(cell: Time) -> bool {
    cell != 0 && cell != Time::MAX
}

/// How far `later` lies after `earlier`; zero when it does not.
pub open spec fn gap(later: Time, earlier: Time) -> int {
    if later >= earlier {
        later - earlier
    } else {
        0
    }
}

/// The columns below `n`, in increasing order, that row `node` has an edge to.
pub open spec fn row_edges(m: Seq<Seq<Time>>, node: int, n: int) -> Seq<Node>
    decreases n,
{
    if n <= 0 {
        Seq::empty()
    } else if is_edge(m[node][n - 1]) {
        row_edges(m, node, n - 1).push((n - 1) as usize)
    } else {
        row_edges(m, node, n - 1)
    }
}

/// The rows below `n`, in increasing order, that have an edge to column `node`.
pub open spec fn column_edges(m: Seq<Seq<Time>>, node: int, n: int) -> Seq<Node>
    decreases n,
{
    if n <= 0 {
        Seq::empty()
    } else if is_edge(m[n - 1][node]) {
        column_edges(m, node, n - 1).push((n - 1) as usize)
    } else {
        column_edges(m, node, n - 1)
    }
}

/// `row_edges` lists exactly the edges of the row, each once, in increasing
/// order.
pub proof fn lemma_row_edges(m: Seq<Seq<Time>>, node: int, n: int)
    requires
        0 <= n <= usize::MAX,
    ensures
        row_edges(m, node, n).len() <= n,
        forall|k: int| 0 <= k < row_edges(m, node, n).len() ==> (#[trigger] row_edges(m, node, n)[k]) < n,
        forall|k: int| 0 <= k < row_edges(m, node, n).len() ==> is_edge(m[node][(#[trigger] row_edges(m, node, n)[k]) as int]),
        forall|k: int, l: int| 0 <= k < l < row_edges(m, node, n).len() ==> row_edges(m, node, n)[k] < row_edges(m, node, n)[l],
        forall|j: int| 0 <= j < n && is_edge(m[node][j]) ==> row_edges(m, node, n).contains(j as usize),
    decreases n,
{
    if n > 0 {
        lemma_row_edges(m, node, n - 1);
        let before = row_edges(m, node, n - 1);
        let all = row_edges(m, node, n);
        if is_edge(m[node][n - 1]) {
            assert(all[all.len() - 1] == (n - 1) as usize);
            assert forall|j: int| 0 <= j < n && is_edge(m[node][j]) implies all.contains(j as usize) by {
                if j < n - 1 {
                    let k = choose|k: int| 0 <= k < before.len() && before[k] == j as usize;
                    assert(all[k] == j as usize);
                } else {
                    assert(all[all.len() - 1] == j as usize);
                }
            }
        }
    }
}

/// `column_edges` lists exactly the edges into the column, each once, in
/// increasing order.
pub proof fn lemma_column_edges(m: Seq<Seq<Time>>, node: int, n: int)
    requires
        0 <= n <= usize::MAX,
    ensures
        column_edges(m, node, n).len() <= n,
        forall|k: int| 0 <= k < column_edges(m, node, n).len() ==> (#[trigger] column_edges(m, node, n)[k]) < n,
        forall|k: int| 0 <= k < column_edges(m, node, n).len() ==> is_edge(m[(#[trigger] column_edges(m, node, n)[k]) as int][node]),
        forall|k: int, l: int| 0 <= k < l < column_edges(m, node, n).len() ==> column_edges(m, node, n)[k] < column_edges(m, node, n)[l],
        forall|j: int| 0 <= j < n && is_edge(m[j][node]) ==> column_edges(m, node, n).contains(j as usize),
    decreases n,
{
    if n > 0 {
        lemma_column_edges(m, node, n - 1);
        let before = column_edges(m, node, n - 1);
        let all = column_edges(m, node, n);
        if is_edge(m[n - 1][node]) {
            assert(all[all.len() - 1] == (n - 1) as usize);
            assert forall|j: int| 0 <= j < n && is_edge(m[j][node]) implies all.contains(j as usize) by {
                if j < n - 1 {
                    let k = choose|k: int| 0 <= k < before.len() && before[k] == j as usize;
                    assert(all[k] == j as usize);
                } else {
                    assert(all[all.len() - 1] == j as usize);
                }
            }
        }
    }
}

/// The number of edges between `x` and the accepted nodes below `n`, counted
/// in both directions.
pub open spec fn degree_below(m: Seq<Seq<Time>>, nodes: Set<Node>, x: int, n: int) -> nat
    decreases n,
{
    if n <= 0 {
        0
    } else {
        let out: nat = if nodes.contains((n - 1) as usize) && is_edge(m[x][n - 1]) {
            1
        } else {
            0
        };
        let inc: nat = if nodes.contains((n - 1) as usize) && is_edge(m[n - 1][x]) {
            1
        } else {
            0
        };
        degree_below(m, nodes, x, n - 1) + out + inc
    }
}

/// Every pair of nodes of the set is joined by an edge.
pub open spec fn subset_clique(m: Seq<Seq<Time>>, nodes: Set<Node>) -> bool {
    forall|x: int, y: int|
        0 <= x < m.len() && 0 <= y < m[x].len() && nodes.contains(x as usize) && nodes.contains(y as usize)
            ==> is_edge(#[trigger] m[x][y])
}

/// Every pair of nodes of the set holds an instant at most `delta` after
/// `time`.
pub open spec fn subset_delta_clique(m: Seq<Seq<Time>>, time: Time, delta: Time, nodes: Set<Node>) -> bool {
    forall|x: int, y: int|
        0 <= x < m.len() && 0 <= y < m[x].len() && nodes.contains(x as usize) && nodes.contains(y as usize)
            ==> gap(#[trigger] m[x][y], time) <= delta
}

/// The degree of `x` among the nodes of the set, in a square table: the
/// edges from `x` to them and from them to `x`.
pub open spec fn degree(m: Seq<Seq<Time>>, nodes: Set<Node>, x: Node) -> nat {
    degree_below(m, nodes, x as int, m.len() as int)
}

/// The node `p` is the one that `get_max_deg_node` picks among the nodes of
/// the set: none has a larger degree, and every smaller node has a smaller
/// one.
pub open spec fn is_pivot(m: Seq<Seq<Time>>, nodes: Set<Node>, p: Node) -> bool {
    &&& p < m.len()
    &&& nodes.contains(p)
    &&& forall|x: Node| x < m.len() && #[trigger] nodes.contains(x) ==> degree(m, nodes, x) <= degree(m, nodes, p)
    &&& forall|x: Node| x < p && #[trigger] nodes.contains(x) ==> degree(m, nodes, x) < degree(m, nodes, p)
}

/// At most one node is the pivot of a set.
pub proof fn lemma_pivot_unique(m: Seq<Seq<Time>>, nodes: Set<Node>, p: Node, q: Node)
    requires
        is_pivot(m, nodes, p),
        is_pivot(m, nodes, q),
    ensures
        p == q,
{
}

impl<V: Copy> Matrix<V> {
    /// The table as a sequence of rows.
    pub open spec fn view(&self) -> Seq<Seq<V>> {
        Seq::new(self.matrix@.len(), |i: int| self.matrix@[i]@)
    }

    /// Every row is present and has exactly `height` cells.
    pub open spec fn wf(&self) -> bool {
        &&& self.matrix@.len() == self.width
        &&& forall|i: int| 0 <= i < self.width ==> (#[trigger] self.matrix@[i])@.len() == self.height
    }

    /// As many rows as columns.
    pub open spec fn square(&self) -> bool {
        self.width == self.height
    }

    /// A well-formed square table of the given side.
    pub open spec fn square_of(&self, size: usize) -> bool {
        self.wf() && self.width == size && self.height == size
    }

    /// Create a new `width`x`height` Matrix filled with `elem`
    pub fn new(elem: V, width: usize, height: usize) -> (mat: Matrix<V>)
        ensures
            mat.wf(),
            mat.width == width,
            mat.height == height,
            mat@ == filled(elem, width as nat, height as nat),
    {
        let mut mat: Vec<Vec<V>> = Vec::with_capacity(width);
        let mut x: usize = 0;
        while x < width
            invariant
                x <= width,
                mat@.len() == x,
                forall|i: int| 0 <= i < x ==> (#[trigger] mat@[i])@ == Seq::new(height as nat, |y: int| elem),
            decreases width - x,
        {
            let mut line: Vec<V> = Vec::with_capacity(height);
            let mut y: usize = 0;
            while y < height
                invariant
                    y <= height,
                    line@.len() == y,
                    forall|j: int| 0 <= j < y ==> line@[j] == elem,
                decreases height - y,
            {
                line.push(elem);
                y = y + 1;
            }
            assert(line@ =~= Seq::new(height as nat, |y: int| elem));
            mat.push(line);
            x = x + 1;
        }
        let res = Matrix { matrix: mat, width: width, height: height };
        assert(res@ =~= filled(elem, width as nat, height as nat));
        res
    }

    /// Modify the matrix by setting the (`x`,`y`) element with `elem`
    pub fn set(&mut self, x: usize, y: usize, elem: V)
        requires
            old(self).wf(),
            x < old(self).width,
            y < old(self).height,
        ensures
            final(self).wf(),
            final(self).width == old(self).width,
            final(self).height == old(self).height,
            final(self)@ == old(self)@.update(x as int, old(self)@[x as int].update(y as int, elem)),
    {
        self.matrix[x][y] = elem;
        assert(self@ =~= old(self)@.update(x as int, old(self)@[x as int].update(y as int, elem)));
    }

    /// Give the (`x`,`y`) element of the matrix
    pub fn get(&self, x: usize, y: usize) -> (elem: V)
        requires
            self.wf(),
            x < self.width,
            y < self.height,
        ensures
            elem == self@[x as int][y as int],
    {
        self.matrix[x][y]
    }

    /// Write `item` on the diagonal, as far as it goes.
    pub fn diag(&mut self, item: V)
        requires
            old(self).wf(),
        ensures
            final(self).wf(),
            final(self).width == old(self).width,
            final(self).height == old(self).height,
            forall|x: int, y: int|
                0 <= x < old(self).width && 0 <= y < old(self).height ==> #[trigger] final(self)@[x][y] == (if x
                    == y {
                    item
                } else {
                    old(self)@[x][y]
                }),
    {
        let size: usize = if self.width < self.height {
            self.width
        } else {
            self.height
        };
        let mut x: usize = 0;
        while x < size
            invariant
                x <= size,
                size <= self.width,
                size <= self.height,
                self.wf(),
                self.width == old(self).width,
                self.height == old(self).height,
                forall|a: int, b: int|
                    0 <= a < self.width && 0 <= b < self.height ==> #[trigger] self@[a][b] == (if a == b && a
                        < x {
                        item
                    } else {
                        old(self)@[a][b]
                    }),
            decreases size - x,
        {
            self.set(x, x, item);
            x = x + 1;
        }
    }

    /// Overwrite this table with the cells of `other`, which has the same
    /// dimensions.
    pub fn copy(&mut self, other: &Self)
        requires
            old(self).wf(),
            other.wf(),
            old(self).width == other.width,
            old(self).height == other.height,
        ensures
            final(self).wf(),
            final(self).width == old(self).width,
            final(self).height == old(self).height,
            final(self)@ == other@,
    {
        let mut x: usize = 0;
        while x < self.width
            invariant
                x <= self.width,
                self.wf(),
                other.wf(),
                self.width == other.width,
                self.height == other.height,
                self.width == old(self).width,
                self.height == old(self).height,
                forall|a: int| 0 <= a < x ==> #[trigger] self@[a] == other@[a],
            decreases self.width - x,
        {
            let mut y: usize = 0;
            while y < self.height
                invariant
                    x < self.width,
                    y <= self.height,
                    self.wf(),
                    other.wf(),
                    self.width == other.width,
                    self.height == other.height,
                    self.width == old(self).width,
                    self.height == old(self).height,
                    forall|a: int| 0 <= a < x ==> #[trigger] self@[a] == other@[a],
                    forall|b: int| 0 <= b < y ==> #[trigger] self@[x as int][b] == other@[x as int][b],
                decreases self.height - y,
            {
                self.set(x, y, other.get(x, y));
                y = y + 1;
            }
            assert(self@[x as int] =~= other@[x as int]);
            x = x + 1;
        }
        assert(self@ =~= other@);
    }

    /// Whether the table has as many rows as columns.
    pub fn is_square(&self) -> (res: bool)
        ensures
            res == self.square(),
    {
        self.width == self.height
    }

    /// The table turned over its diagonal. The table must hold a cell.
    pub fn transpose(&self) -> (res: Matrix<V>)
        requires
            self.wf(),
            self.width > 0,
            self.height > 0,
        ensures
            res.wf(),
            res.width == self.height,
            res.height == self.width,
            forall|i: int, j: int|
                0 <= i < self.width && 0 <= j < self.height ==> #[trigger] res@[j][i] == self@[i][j],
    {
        let mut transpose: Matrix<V> = Matrix::new(self.get(0, 0), self.height, self.width);
        let mut i: usize = 0;
        while i < self.width
            invariant
                i <= self.width,
                self.wf(),
                transpose.wf(),
                transpose.width == self.height,
                transpose.height == self.width,
                forall|a: int, b: int|
                    0 <= a < i && 0 <= b < self.height ==> #[trigger] transpose@[b][a] == self@[a][b],
            decreases self.width - i,
        {
            let mut j: usize = 0;
            while j < self.height
                invariant
                    i < self.width,
                    j <= self.height,
                    self.wf(),
                    transpose.wf(),
                    transpose.width == self.height,
                    transpose.height == self.width,
                    forall|a: int, b: int|
                        0 <= a < i && 0 <= b < self.height ==> #[trigger] transpose@[b][a] == self@[a][b],
                    forall|b: int| 0 <= b < j ==> #[trigger] transpose@[b][i as int] == self@[i as int][b],
                decreases self.height - j,
            {
                transpose.set(j, i, self.get(i, j));
                j = j + 1;
            }
            i = i + 1;
        }
        transpose
    }
}

impl Matrix<Time> {
    /// Transform a table of numbers into a matrix. The height is the length of
    /// the longest row.
    pub fn parse(table: Vec<Vec<usize>>) -> (mat: Matrix<Time>)
        ensures
            mat.width == table@.len(),
            mat@.len() == table@.len(),
            forall|i: int| 0 <= i < table@.len() ==> (#[trigger] mat@[i]).len() == table@[i]@.len(),
            forall|i: int, j: int|
                0 <= i < table@.len() && 0 <= j < table@[i]@.len() ==> #[trigger] mat@[i][j] == table@[i]@[j],
            forall|i: int| 0 <= i < table@.len() ==> (#[trigger] table@[i])@.len() <= mat.height,
            table@.len() == 0 ==> mat.height == 0,
            table@.len() > 0 ==> exists|i: int| 0 <= i < table@.len() && (#[trigger] table@[i])@.len() == mat.height,
            mat.wf() <==> forall|i: int| 0 <= i < table@.len() ==> (#[trigger] table@[i])@.len() == mat.height,
    {
        let mut mat: Vec<Vec<Time>> = Vec::new();
        let width = table.len();
        let mut height: usize = 0;
        let mut i: usize = 0;
        while i < width
            invariant
                i <= width,
                width == table@.len(),
                mat@.len() == i,
                forall|a: int| 0 <= a < i ==> (#[trigger] mat@[a])@.len() == table@[a]@.len(),
                forall|a: int, b: int|
                    0 <= a < i && 0 <= b < table@[a]@.len() ==> (#[trigger] mat@[a]@[b]) == table@[a]@[b],
                forall|a: int| 0 <= a < i ==> (#[trigger] table@[a])@.len() <= height,
                i == 0 ==> height == 0,
                i > 0 ==> exists|a: int| 0 <= a < i && (#[trigger] table@[a])@.len() == height,
            decreases width - i,
        {
            let tab_line = &table[i];
            let mut line: Vec<Time> = Vec::new();
            if tab_line.len() > height {
                height = tab_line.len();
            }
            let mut j: usize = 0;
            while j < tab_line.len()
                invariant
                    j <= tab_line@.len(),
                    line@.len() == j,
                    forall|b: int| 0 <= b < j ==> (#[trigger] line@[b]) == tab_line@[b],
                decreases tab_line.len() - j,
            {
                line.push(tab_line[j] as Time);
                j = j + 1;
            }
            proof {
                if tab_line@.len() == height {
                    assert(table@[i as int]@.len() == height);
                } else {
                    let a = choose|a: int| 0 <= a < i && (#[trigger] table@[a])@.len() == height;
                    assert(table@[a]@.len() == height);
                }
            }
            mat.push(line);
            i = i + 1;
        }
        let res = Matrix { matrix: mat, width: width, height: height };
        proof {
            if res.wf() {
                assert forall|a: int| 0 <= a < table@.len() implies (#[trigger] table@[a])@.len() == res.height by {
                    assert(res.matrix@[a]@.len() == res.height);
                }
            }
        }
        res
    }

    /// Tells if the matrix induced by the subset is a clique or not
    pub fn is_subset_clique(&self, nfilter: &NodeFilter) -> (res: bool)
        requires
            self.wf(),
        ensures
            res == subset_clique(self@, nfilter.accepted()),
    {
        let mut x: usize = 0;
        while x < self.width
            invariant
                x <= self.width,
                self.wf(),
                forall|a: int, b: int|
                    0 <= a < x && 0 <= b < self.height && nfilter.accepts(a as usize) && nfilter.accepts(
                        b as usize,
                    ) ==> is_edge(#[trigger] self@[a][b]),
            decreases self.width - x,
        {
            if nfilter.evaluate(x) {
                let mut y: usize = 0;
                while y < self.height
                    invariant
                        x < self.width,
                        y <= self.height,
                        self.wf(),
                        nfilter.accepts(x),
                        forall|b: int|
                            0 <= b < y && nfilter.accepts(b as usize) ==> is_edge(#[trigger] self@[x as int][b]),
                    decreases self.height - y,
                {
                    if nfilter.evaluate(y) && (self.get(x, y) == 0 || self.get(x, y) == Time::MAX) {
                        assert(!is_edge(self@[x as int][y as int]));
                        return false;
                    }
                    y = y + 1;
                }
            }
            x = x + 1;
        }
        true
    }

    /// Tells if the matrix is a clique or not
    pub fn is_clique(&self) -> (res: bool)
        requires
            self.wf(),
        ensures
            res == subset_clique(self@, Set::full()),
    {
        self.is_subset_clique(&NodeFilter::All)
    }

    /// Tells if the induced matrix is a delta-clique at `time` or not
    pub fn is_subset_delta_clique(&self, time: Time, delta: Time, nfilter: &NodeFilter) -> (res: bool)
        requires
            self.wf(),
        ensures
            res == subset_delta_clique(self@, time, delta, nfilter.accepted()),
    {
        let mut x: usize = 0;
        while x < self.width
            invariant
                x <= self.width,
                self.wf(),
                forall|a: int, b: int|
                    0 <= a < x && 0 <= b < self.height && nfilter.accepts(a as usize) && nfilter.accepts(
                        b as usize,
                    ) ==> gap(#[trigger] self@[a][b], time) <= delta,
            decreases self.width - x,
        {
            if nfilter.evaluate(x) {
                let mut y: usize = 0;
                while y < self.height
                    invariant
                        x < self.width,
                        y <= self.height,
                        self.wf(),
                        nfilter.accepts(x),
                        forall|b: int|
                            0 <= b < y && nfilter.accepts(b as usize) ==> gap(
                                #[trigger] self@[x as int][b],
                                time,
                            ) <= delta,
                    decreases self.height - y,
                {
                    if nfilter.evaluate(y) && self.get(x, y).saturating_sub(time) > delta {
                        assert(gap(self@[x as int][y as int], time) > delta);
                        return false;
                    }
                    y = y + 1;
                }
            }
            x = x + 1;
        }
        true
    }

    /// Tells if the matrix is a `delta`-clique at time `time` or not
    pub fn is_delta_clique(&self, time: Time, delta: Time) -> (res: bool)
        requires
            self.wf(),
        ensures
            res == subset_delta_clique(self@, time, delta, Set::full()),
    {
        self.is_subset_delta_clique(time, delta, &NodeFilter::All)
    }

    /// The accepted node of largest degree among the accepted nodes, the
    /// smallest such node where several have it; zero where no node is
    /// accepted.
    pub fn get_max_deg_node(&self, nfilter: &NodeFilter) -> (node: Node)
        requires
            self.wf(),
            self.square(),
        ensures
            (forall|x: Node| x < self.width ==> !#[trigger] nfilter.accepts(x)) ==> node == 0,
            (exists|x: Node| x < self.width && #[trigger] nfilter.accepts(x)) ==> is_pivot(
                self@,
                nfilter.accepted(),
                node,
            ),
    {
        let mut max_node: usize = 0;
        let mut max_deg: u128 = 0;
        let mut found: bool = false;
        let mut x: usize = 0;
        while x < self.width
            invariant
                x <= self.width,
                self.wf(),
                self.square(),
                !found ==> max_node == 0 && forall|a: Node| a < x ==> !#[trigger] nfilter.accepts(a),
                found ==> {
                    &&& max_node < x
                    &&& nfilter.accepts(max_node)
                    &&& max_deg == degree(self@, nfilter.accepted(), max_node)
                    &&& forall|a: Node| a < x && #[trigger] nfilter.accepts(a) ==> degree(self@, nfilter.accepted(), a) <= max_deg
                    &&& forall|a: Node|
                        a < max_node && #[trigger] nfilter.accepts(a) ==> degree(self@, nfilter.accepted(), a) < max_deg
                },
            decreases self.width - x,
        {
            if nfilter.evaluate(x) {
                let mut deg: u128 = 0;
                let mut y: usize = 0;
                while y < self.height
                    invariant
                        x < self.width,
                        y <= self.height,
                        self.wf(),
                        self.square(),
                        deg == degree_below(self@, nfilter.accepted(), x as int, y as int),
                        deg <= 2 * y,
                    decreases self.height - y,
                {
                    let kept = nfilter.evaluate(y);
                    if kept && self.get(x, y) > 0 && self.get(x, y) < Time::MAX {
                        deg = deg + 1;
                    }
                    if kept && self.get(y, x) > 0 && self.get(y, x) < Time::MAX {
                        deg = deg + 1;
                    }
                    y = y + 1;
                }
                if !found || deg > max_deg {
                    max_deg = deg;
                    max_node = x;
                    found = true;
                }
            }
            x = x + 1;
        }
        max_node
    }

    /// Return the predecessors of `node` in the graph represented by this
    /// matrix, in increasing order.
    pub fn predecessors(&self, node: Node) -> (preds: Vec<Node>)
        requires
            self.wf(),
            node < self.height,
        ensures
            preds@ == column_edges(self@, node as int, self.width as int),
    {
        let mut preds: Vec<Node> = Vec::new();
        let mut i: usize = 0;
        while i < self.width
            invariant
                i <= self.width,
                self.wf(),
                node < self.height,
                preds@ == column_edges(self@, node as int, i as int),
            decreases self.width - i,
        {
            if self.get(i, node) != 0 && self.get(i, node) < Time::MAX {
                preds.push(i);
            }
            i = i + 1;
        }
        preds
    }

    /// Return the successors of `node` in the graph represented by the
    /// matrix, in increasing order.
    pub fn successors(&self, node: Node) -> (succs: Vec<Node>)
        requires
            self.wf(),
            node < self.width,
        ensures
            succs@ == row_edges(self@, node as int, self.height as int),
    {
        let mut succs: Vec<Node> = Vec::new();
        let mut j: usize = 0;
        while j < self.height
            invariant
                j <= self.height,
                self.wf(),
                node < self.width,
                succs@ == row_edges(self@, node as int, j as int),
            decreases self.height - j,
        {
            if self.get(node, j) != 0 && self.get(node, j) < Time::MAX {
                succs.push(j);
            }
            j = j + 1;
        }
        succs
    }
}

} // verus!
