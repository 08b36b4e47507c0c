use vstd::prelude::*;
use vstd::seq_lib::{commutative_foldl, lemma_fold_left_permutation};
use crate::counter::clamp;
use crate::grid::{GridModel, MyGrid};

verus! {

/// Cell-by-cell saturating sum of two counter runs (the shape of `a` is kept).
pub open spec fn merge_two(a: Seq<u8>, b: Seq<u8>) -> Seq<u8> {
    Seq::new(a.len(), |i: int| clamp(a[i] + b[i]))
}

/// The counters after merging each partial, in order, into `start`.
pub open spec fn merge_all(start: Seq<u8>, parts: Seq<Seq<u8>>) -> Seq<u8> {
    parts.fold_left(start, |acc: Seq<u8>, p: Seq<u8>| merge_two(acc, p))
}

/// `n` zero counters.
pub open spec fn zeros(n: nat) -> Seq<u8> {
    Seq::new(n, |i: int| 0u8)
}

/// The counters of each grid.
pub open spec fn cells_of(grids: Seq<MyGrid>) -> Seq<Seq<u8>> {
    grids.map_values(|g: MyGrid| g@.cells)
}

/// Merges thread-private partial grids into one grid of `rows` by `cols`: each
/// cell is the sum of that cell over all partials, held at the counter's maximum.
/// `None` when a partial has another shape.
pub fn merge(rows: usize, cols: usize, partials: &Vec<MyGrid>) -> (r: Option<MyGrid>)
    requires
        rows * cols <= usize::MAX,
        forall|k: int| 0 <= k < partials@.len() ==> (#[trigger] partials@[k]).inv(),
    ensures
        r.is_some() <==> forall|k: int|
            0 <= k < partials@.len() ==> (#[trigger] partials@[k])@.rows == rows && partials@[k]@.cols == cols,
        r.is_some() ==> r.unwrap().inv() && r.unwrap()@ == (GridModel {
            rows: rows as nat,
            cols: cols as nat,
            cells: merge_all(zeros((rows * cols) as nat), cells_of(partials@)),
        }),
{
    let mut acc = MyGrid::new(rows, cols);
    proof {
        assert(acc@.cells =~= zeros((rows * cols) as nat));
    }
    let mut k: usize = 0;
    while k < partials.len()
        invariant
            0 <= k <= partials@.len(),
            forall|j: int| 0 <= j < partials@.len() ==> (#[trigger] partials@[j]).inv(),
            forall|j: int| 0 <= j < k ==> (#[trigger] partials@[j])@.rows == rows && partials@[j]@.cols == cols,
            acc.inv(),
            acc@.rows == rows,
            acc@.cols == cols,
            acc@.cells == merge_all(zeros((rows * cols) as nat), cells_of(partials@.take(k as int))),
        decreases partials@.len() - k,
    {
        let p = &partials[k];
        if p.rows() != rows || p.cols() != cols {
            return None;
        }
        acc.merge_from(p);
        proof {
            assert(cells_of(partials@.take(k + 1)).drop_last() =~= cells_of(partials@.take(k as int)));
        }
        k = k + 1;
    }
    proof {
        assert(partials@.take(k as int) =~= partials@);
    }
    Some(acc)
}

/// Merging two counter runs does not depend on which comes first.
pub proof fn lemma_merge_two_commutative(a: Seq<u8>, b: Seq<u8>)
    requires
        a.len() == b.len(),
    ensures
        merge_two(a, b) == merge_two(b, a),
{
    assert(merge_two(a, b) =~= merge_two(b, a));
}

/// Merging three counter runs does not depend on how the merges are grouped.
pub proof fn lemma_merge_two_associative(a: Seq<u8>, b: Seq<u8>, c: Seq<u8>)
    requires
        a.len() == b.len(),
        b.len() == c.len(),
    ensures
        merge_two(merge_two(a, b), c) == merge_two(a, merge_two(b, c)),
{
    assert(merge_two(merge_two(a, b), c) =~= merge_two(a, merge_two(b, c)));
}

/// Merging the same partials in any order gives the same grid.
pub proof fn lemma_merge_order_free(start: Seq<u8>, parts1: Seq<Seq<u8>>, parts2: Seq<Seq<u8>>)
    requires
        parts1.to_multiset() == parts2.to_multiset(),
    ensures
        merge_all(start, parts1) == merge_all(start, parts2),
{
    let f = |acc: Seq<u8>, p: Seq<u8>| merge_two(acc, p);
    assert(commutative_foldl(f)) by {
        assert forall|x: Seq<u8>, y: Seq<u8>, v: Seq<u8>| #[trigger] f(f(v, x), y) == f(f(v, y), x) by {
            assert(f(f(v, x), y) =~= f(f(v, y), x));
        }
    }
    lemma_fold_left_permutation(parts1, parts2, f, start);
}

} // verus!
