//! The sparse (Tanner graph) view of a parity-check matrix: for each check
//! row the columns where it holds a 1, and for each column the rows.
use vstd::prelude::*;
use crate::encoder::rows_of;

verus! {

/// The increasing list of indices `j < n` with `row[j] == 1`.
pub open spec fn support_prefix(row: Seq<u8>, n: int) -> Seq<usize>
    decreases n,
{
    if n <= 0 {
        seq![]
    } else {
        support_prefix(row, n - 1) + if row[n - 1] == 1 {
            seq![(n - 1) as usize]
        } else {
            seq![]
        }
    }
}

/// The increasing list of positions where `row` holds a 1.
pub open spec fn support(row: Seq<u8>) -> Seq<usize> {
    support_prefix(row, row.len() as int)
}

/// Column `j` of matrix `h`.
pub open spec fn column(h: Seq<Seq<u8>>, j: int) -> Seq<u8> {
    Seq::new(h.len(), |i: int| h[i][j])
}

/// The entries of `s` are strictly increasing and below `n`.
pub open spec fn increasing_below(s: Seq<usize>, n: int) -> bool {
    &&& forall|k: int| 0 <= k < s.len() ==> #[trigger] s[k] < n
    &&& forall|k1: int, k2: int| 0 <= k1 < k2 < s.len() ==> #[trigger] s[k1] < #[trigger] s[k2]
}

/// The support lists its positions in increasing order, each exactly when
/// the row holds a 1 there.
pub proof fn lemma_support_prefix(row: Seq<u8>, n: int)
    requires
        0 <= n <= row.len(),
        n <= usize::MAX + 1,
    ensures
        increasing_below(support_prefix(row, n), n),
        support_prefix(row, n).len() <= n,
        forall|j: int| 0 <= j < n ==> (row[j] == 1 <==> #[trigger] support_prefix(row, n).contains(j as usize)),
    decreases n,
{
    if n > 0 {
        lemma_support_prefix(row, n - 1);
        let s = support_prefix(row, n - 1);
        let t = support_prefix(row, n);
        assert forall|j: int| 0 <= j < n implies (row[j] == 1 <==> #[trigger] t.contains(j as usize)) by {
            if row[j] == 1 {
                if j < n - 1 {
                    assert(s.contains(j as usize));
                    let k = choose|k: int| 0 <= k < s.len() && s[k] == j as usize;
                    assert(t[k] == j as usize);
                } else {
                    assert(t[t.len() - 1] == j as usize);
                }
            }
            if t.contains(j as usize) {
                let k = choose|k: int| 0 <= k < t.len() && t[k] == j as usize;
                if k < s.len() {
                    assert(s[k] == j as usize);
                    assert(s.contains(j as usize));
                } else {
                    assert(row[n - 1] == 1);
                }
            }
        }
    }
}

/// Builds, for every row of `h`, its support, and for every column, its support.
pub fn build_adjacency<const M: usize, const N: usize>(h: &[[u8; N]; M]) -> (res: (
    Vec<Vec<usize>>,
    Vec<Vec<usize>>,
))
    ensures
        res.0@.len() == M,
        res.1@.len() == N,
        forall|i: int| 0 <= i < M ==> #[trigger] res.0@[i]@ == support(rows_of(*h)[i]),
        forall|j: int| 0 <= j < N ==> #[trigger] res.1@[j]@ == support(column(rows_of(*h), j)),
{
    let ghost hv = rows_of(*h);
    let mut cols: Vec<Vec<usize>> = Vec::new();
    let mut j: usize = 0;
    while j < N
        invariant
            j <= N,
            cols@.len() == j,
            forall|t: int| 0 <= t < j ==> #[trigger] cols@[t]@ == Seq::<usize>::empty(),
        decreases N - j,
    {
        cols.push(Vec::new());
        j = j + 1;
    }
    let mut rows: Vec<Vec<usize>> = Vec::new();
    let mut i: usize = 0;
    while i < M
        invariant
            hv == rows_of(*h),
            i <= M,
            rows@.len() == i,
            cols@.len() == N,
            forall|t: int| 0 <= t < i ==> #[trigger] rows@[t]@ == support(hv[t]),
            forall|t: int| 0 <= t < N ==> #[trigger] cols@[t]@ == support_prefix(column(hv, t), i as int),
        decreases M - i,
    {
        let row_bits = h[i];
        let mut row: Vec<usize> = Vec::new();
        let mut j: usize = 0;
        while j < N
            invariant
                hv == rows_of(*h),
                i < M,
                j <= N,
                row_bits@ == hv[i as int],
                cols@.len() == N,
                row@ == support_prefix(hv[i as int], j as int),
                forall|t: int| 0 <= t < j ==> #[trigger] cols@[t]@ == support_prefix(column(hv, t), i + 1),
                forall|t: int| j <= t < N ==> #[trigger] cols@[t]@ == support_prefix(column(hv, t), i as int),
            decreases N - j,
        {
            assert(column(hv, j as int)[i as int] == row_bits@[j as int]);
            if row_bits[j] == 1 {
                row.push(j);
                let mut col = cols[j].clone();
                col.push(i);
                cols.set(j, col);
            }
            assert(cols@[j as int]@ =~= support_prefix(column(hv, j as int), i + 1));
            j = j + 1;
        }
        assert(row@ == support(hv[i as int]));
        rows.push(row);
        i = i + 1;
    }
    assert forall|t: int| 0 <= t < N implies #[trigger] cols@[t]@ == support(column(hv, t)) by {
        assert(column(hv, t).len() == M);
    }
    (rows, cols)
}

} // verus!
