use vstd::prelude::*;
use crate::data::link::Node;

verus! {

/// The shorter of two lengths.
pub open spec fn shorter(a: nat, b: nat) -> nat {
    if a <= b {
        a
    } else {
        b
    }
}

/// The conjunction of two vectors, index by index, as far as both go.
pub open spec fn both(a: Seq<bool>, b: Seq<bool>) -> Seq<bool> {
    Seq::new(shorter(a.len(), b.len()), |i: int| a[i] && b[i])
}

/// The disjunction of two vectors, index by index, as far as both go.
pub open spec fn either(a: Seq<bool>, b: Seq<bool>) -> Seq<bool> {
    Seq::new(shorter(a.len(), b.len()), |i: int| a[i] || b[i])
}

/// Some vector of `rows` holds `true` at the index `i`.
pub open spec fn some_row_at(rows: Seq<Seq<bool>>, i: int) -> bool {
    exists|k: int| 0 <= k < rows.len() && (#[trigger] rows[k])[i]
}

/// The disjunction of all the vectors, index by index, over the length of
/// the first.
pub open spec fn any_of(rows: Seq<Seq<bool>>) -> Seq<bool> {
    Seq::new(rows[0].len(), |i: int| some_row_at(rows, i))
}

/// The indices below `n` at which the vector holds `true`, in increasing
/// order.
pub open spec fn truths_below(mask: Seq<bool>, n: int) -> Seq<Node>
    decreases n,
{
    if n <= 0 {
        Seq::empty()
    } else if mask[n - 1] {
        truths_below(mask, n - 1).push((n - 1) as usize)
    } else {
        truths_below(mask, n - 1)
    }
}

/// The indices at which the vector holds `true`, in increasing order.
pub open spec fn truths(mask: Seq<bool>) -> Seq<Node> {
    truths_below(mask, mask.len() as int)
}

/// `truths_below` lists exactly the indices that hold `true`, each once, in
/// increasing order.
pub proof fn lemma_truths_below(mask: Seq<bool>, n: int)
    requires
        0 <= n <= mask.len(),
        n <= usize::MAX,
    ensures
        truths_below(mask, n).len() <= n,
        forall|k: int| 0 <= k < truths_below(mask, n).len() ==> (#[trigger] truths_below(mask, n)[k]) < n,
        forall|k: int| 0 <= k < truths_below(mask, n).len() ==> mask[(#[trigger] truths_below(mask, n)[k]) as int],
        forall|k: int, l: int|
            0 <= k < l < truths_below(mask, n).len() ==> truths_below(mask, n)[k] < truths_below(mask, n)[l],
        forall|j: int| 0 <= j < n && mask[j] ==> truths_below(mask, n).contains(j as usize),
    decreases n,
{
    if n > 0 {
        lemma_truths_below(mask, n - 1);
        let before = truths_below(mask, n - 1);
        let all = truths_below(mask, n);
        if mask[n - 1] {
            assert(all[all.len() - 1] == (n - 1) as usize);
            assert forall|j: int| 0 <= j < n && mask[j] implies all.contains(j as usize) by {
                if j < n - 1 {
                    let k = choose|k: int| 0 <= k < before.len() && before[k] == j as usize;
                    assert(all[k] == j as usize);
                } else {
                    assert(all[all.len() - 1] == j as usize);
                }
            }
        }
    }
}

/// A copy of a boolean vector.
pub fn copy_bools(row: &Vec<bool>) -> (copy: Vec<bool>)
    ensures
        copy@ == row@,
{
    let mut copy: Vec<bool> = Vec::with_capacity(row.len());
    let mut i: usize = 0;
    while i < row.len()
        invariant
            i <= row@.len(),
            copy@ == row@.take(i as int),
        decreases row.len() - i,
    {
        copy.push(row[i]);
        assert(copy@ =~= row@.take(i + 1));
        i = i + 1;
    }
    assert(row@.take(row@.len() as int) =~= row@);
    copy
}

/// The classic and boolean operator for boolean vectors
pub fn and(v1: &Vec<bool>, v2: &Vec<bool>) -> (res: Vec<bool>)
    ensures
        res@ == both(v1@, v2@),
{
    let mut res: Vec<bool> = Vec::new();
    let mut i: usize = 0;
    while i < v1.len() && i < v2.len()
        invariant
            i <= v1@.len(),
            i <= v2@.len(),
            res@.len() == i,
            forall|k: int| 0 <= k < i ==> res@[k] == (v1@[k] && v2@[k]),
        decreases v1.len() - i,
    {
        res.push(v1[i] && v2[i]);
        i = i + 1;
    }
    assert(res@ =~= both(v1@, v2@));
    res
}

/// The classic or boolean operator for boolean vectors
pub fn or(v1: &Vec<bool>, v2: &Vec<bool>) -> (res: Vec<bool>)
    ensures
        res@ == either(v1@, v2@),
{
    let mut res: Vec<bool> = Vec::new();
    let mut i: usize = 0;
    while i < v1.len() && i < v2.len()
        invariant
            i <= v1@.len(),
            i <= v2@.len(),
            res@.len() == i,
            forall|k: int| 0 <= k < i ==> res@[k] == (v1@[k] || v2@[k]),
        decreases v1.len() - i,
    {
        res.push(v1[i] || v2[i]);
        i = i + 1;
    }
    assert(res@ =~= either(v1@, v2@));
    res
}

/// The vectors that the rows hold.
pub open spec fn rows_of(v: Seq<Vec<bool>>) -> Seq<Seq<bool>> {
    Seq::new(v.len(), |k: int| v[k]@)
}

/// The or operator over any number of boolean vectors: there must be one,
/// and none may be shorter than the first.
pub fn or_v(v: &Vec<Vec<bool>>) -> (res: Vec<bool>)
    requires
        v@.len() > 0,
        forall|k: int| 0 <= k < v@.len() ==> (#[trigger] v@[k])@.len() >= v@[0]@.len(),
    ensures
        res@ == any_of(rows_of(v@)),
{
    let mut res: Vec<bool> = Vec::new();
    let width = v[0].len();
    let mut i: usize = 0;
    while i < width
        invariant
            i <= width,
            v@.len() > 0,
            width == v@[0]@.len(),
            forall|k: int| 0 <= k < v@.len() ==> (#[trigger] v@[k])@.len() >= v@[0]@.len(),
            res@.len() == i,
            forall|c: int| 0 <= c < i ==> res@[c] == some_row_at(rows_of(v@), c),
        decreases width - i,
    {
        let mut or: bool = false;
        let mut k: usize = 0;
        while k < v.len()
            invariant
                k <= v@.len(),
                i < width,
                width == v@[0]@.len(),
                forall|r: int| 0 <= r < v@.len() ==> (#[trigger] v@[r])@.len() >= v@[0]@.len(),
                or == (exists|r: int| 0 <= r < k && (#[trigger] rows_of(v@)[r])[i as int]),
            decreases v.len() - k,
        {
            let b = &v[k];
            assert(rows_of(v@)[k as int] == b@);
            or = or || b[i];
            k = k + 1;
        }
        res.push(or);
        i = i + 1;
    }
    assert(res@ =~= any_of(rows_of(v@)));
    res
}

/// Whether two boolean vectors differ, in length or at some index.
pub fn diff(v1: &Vec<bool>, v2: &Vec<bool>) -> (res: bool)
    ensures
        res == (v1@ != v2@),
{
    if v1.len() != v2.len() {
        return true;
    }
    let mut i: usize = 0;
    while i < v1.len()
        invariant
            i <= v1@.len(),
            v1@.len() == v2@.len(),
            forall|k: int| 0 <= k < i ==> v1@[k] == v2@[k],
        decreases v1.len() - i,
    {
        if v1[i] != v2[i] {
            return true;
        }
        i = i + 1;
    }
    assert(v1@ =~= v2@);
    false
}

/// The sorted list of the indices at which the vector holds `true`.
pub fn boolvec_to_set(v1: &Vec<bool>) -> (res: Vec<usize>)
    ensures
        res@ == truths(v1@),
{
    let mut res: Vec<usize> = Vec::new();
    let mut count: usize = 0;
    while count < v1.len()
        invariant
            count <= v1@.len(),
            res@ == truths_below(v1@, count as int),
        decreases v1.len() - count,
    {
        if v1[count] {
            res.push(count);
        }
        count = count + 1;
    }
    res
}

} // verus!
