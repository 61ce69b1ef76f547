//! The integer side of the min-sum (SPA in the LLR domain) decoder: the
//! Tanner graph with the edge numbering its messages are stored by, the
//! syndrome check on hard decisions, and the decoding result.
use vstd::prelude::*;
use crate::encoder::rows_of;
use crate::flip_rules::{check_fails, lemma_check_sum_parity};
use crate::gf2::{is_binary, xor_sum, zeros};
use crate::ldpc_decoder::check_sum;
use crate::tanner::{
    build_adjacency, column, increasing_below, lemma_support_prefix, support, support_prefix,
};

verus! {

/// Errors of the message-passing decoder.
#[derive(Debug, Clone, Copy, PartialEq, Eq, Structural)]
pub enum DecoderError {
    /// The number of channel LLRs differs from the code length.
    InvalidInputLength,
}

/// The outcome of a message-passing decode.
#[derive(Debug, Clone)]
pub struct DecodeResult {
    /// The hard-decision word (one 0/1 entry per code bit).
    pub codeword: Vec<u8>,
    /// The number of iterations run.
    pub iterations: usize,
    /// Whether the final hard decisions satisfy every parity check.
    pub converged: bool,
}

/// The Tanner graph of an `M x N` parity-check matrix. Messages live on the
/// edges; edge `k` of check row `i` joins row `i` to column `row_to_cols[i][k]`,
/// and `col_to_row_edge_idxs[j][t]` is the number, within its row, of the
/// edge joining column `j` to row `col_to_rows[j][t]`.
pub struct TannerGraph<const M: usize, const N: usize> {
    row_to_cols: Vec<Vec<usize>>,
    col_to_rows: Vec<Vec<usize>>,
    col_to_row_edge_idxs: Vec<Vec<usize>>,
    h: Ghost<Seq<Seq<u8>>>,
}

impl<const M: usize, const N: usize> TannerGraph<M, N> {
    /// The parity-check matrix the graph was built from.
    pub closed spec fn matrix(&self) -> Seq<Seq<u8>> {
        self.h@
    }

    /// The columns where check row `i` holds a 1.
    pub open spec fn row_support(&self, i: int) -> Seq<usize> {
        support(self.matrix()[i])
    }

    /// The check rows that hold a 1 in column `j`.
    pub open spec fn col_support(&self, j: int) -> Seq<usize> {
        support(column(self.matrix(), j))
    }

    /// The stored edge numbers of column `j`.
    pub closed spec fn edge_idxs(&self, j: int) -> Seq<usize> {
        self.col_to_row_edge_idxs@[j]@
    }

    /// The graph's invariant: adjacency lists describe the matrix and every
    /// edge number of a column points back at that column in its row.
    pub closed spec fn wf(&self) -> bool {
        &&& self.h@.len() == M
        &&& forall|i: int| 0 <= i < M ==> (#[trigger] self.h@[i]).len() == N
        &&& self.row_to_cols@.len() == M
        &&& self.col_to_rows@.len() == N
        &&& self.col_to_row_edge_idxs@.len() == N
        &&& forall|i: int| 0 <= i < M ==> #[trigger] self.row_to_cols@[i]@ == self.row_support(i)
        &&& forall|j: int| 0 <= j < N ==> #[trigger] self.col_to_rows@[j]@ == self.col_support(j)
        &&& forall|j: int| 0 <= j < N ==> Self::edges_point_back(self.matrix(), j, #[trigger] self.edge_idxs(j))
    }

    /// Every entry `t` of `edges` numbers, within row `col_support(j)[t]`,
    /// the edge to column `j`.
    pub open spec fn edges_point_back(h: Seq<Seq<u8>>, j: int, edges: Seq<usize>) -> bool {
        &&& edges.len() == support(column(h, j)).len()
        &&& forall|t: int|
            0 <= t < edges.len() ==> {
                let i = support(column(h, j))[t] as int;
                &&& #[trigger] edges[t] < support(h[i]).len()
                &&& support(h[i])[edges[t] as int] == j as usize
            }
    }

    /// Builds the graph of `h`, numbering the edges of every column.
    pub fn new(h: &[[u8; N]; M]) -> (g: Self)
        ensures
            g.wf(),
            g.matrix() == rows_of(*h),
    {
        let ghost hv = rows_of(*h);
        let (row_to_cols, col_to_rows) = build_adjacency(h);
        let mut edges: Vec<Vec<usize>> = Vec::new();
        let mut j: usize = 0;
        while j < N
            invariant
                hv == rows_of(*h),
                j <= N,
                row_to_cols@.len() == M,
                col_to_rows@.len() == N,
                forall|i: int| 0 <= i < M ==> #[trigger] row_to_cols@[i]@ == support(hv[i]),
                forall|c: int| 0 <= c < N ==> #[trigger] col_to_rows@[c]@ == support(column(hv, c)),
                edges@.len() == j,
                forall|c: int| 0 <= c < j ==> Self::edges_point_back(hv, c, #[trigger] edges@[c]@),
            decreases N - j,
        {
            let col = &col_to_rows[j];
            let ghost rows = support(column(hv, j as int));
            proof {
                lemma_support_prefix(column(hv, j as int), M as int);
            }
            let mut idxs: Vec<usize> = Vec::new();
            let mut t: usize = 0;
            while t < col.len()
                invariant
                    hv == rows_of(*h),
                    j < N,
                    col@ == rows,
                    rows == support(column(hv, j as int)),
                    increasing_below(rows, M as int),
                    forall|r: int| 0 <= r < M ==> (column(hv, j as int)[r] == 1 <==> #[trigger] rows.contains(r as usize)),
                    row_to_cols@.len() == M,
                    forall|i: int| 0 <= i < M ==> #[trigger] row_to_cols@[i]@ == support(hv[i]),
                    t <= rows.len(),
                    idxs@.len() == t,
                    forall|s: int| 0 <= s < t ==> {
                        let i = rows[s] as int;
                        &&& #[trigger] idxs@[s] < support(hv[i]).len()
                        &&& support(hv[i])[idxs@[s] as int] == j as usize
                    },
                decreases rows.len() - t,
            {
                let i = col[t];
                let row = &row_to_cols[i];
                let ghost cols = support(hv[i as int]);
                proof {
                    assert(rows.contains(i as usize));
                    assert(column(hv, j as int)[i as int] == 1);
                    assert(hv[i as int].len() == N);
                    lemma_support_prefix(hv[i as int], N as int);
                    assert(hv[i as int][j as int] == 1);
                    assert(support_prefix(hv[i as int], N as int).contains((j as int) as usize));
                    assert(cols.contains(j));
                }
                let row_len = row.len();
                let mut k: usize = 0;
                while row[k] != j
                    invariant
                        row@ == cols,
                        row_len == cols.len(),
                        cols.contains(j),
                        k < cols.len(),
                        forall|s: int| 0 <= s < k ==> #[trigger] cols[s] != j,
                    decreases cols.len() - k,
                {
                    proof {
                        let w = choose|w: int| 0 <= w < cols.len() && cols[w] == j;
                        if k + 1 >= cols.len() {
                            assert(w <= k);
                        }
                    }
                    k = k + 1;
                }
                idxs.push(k);
                t = t + 1;
            }
            edges.push(idxs);
            j = j + 1;
        }
        TannerGraph { row_to_cols, col_to_rows, col_to_row_edge_idxs: edges, h: Ghost(hv) }
    }

    /// For each check row, the columns it involves.
    pub fn row_to_cols(&self) -> (r: &[Vec<usize>])
        requires
            self.wf(),
        ensures
            r@.len() == M,
            forall|i: int| 0 <= i < M ==> #[trigger] r@[i]@ == self.row_support(i),
    {
        self.row_to_cols.as_slice()
    }

    /// For each column, the check rows it takes part in.
    pub fn col_to_rows(&self) -> (r: &[Vec<usize>])
        requires
            self.wf(),
        ensures
            r@.len() == N,
            forall|j: int| 0 <= j < N ==> #[trigger] r@[j]@ == self.col_support(j),
    {
        self.col_to_rows.as_slice()
    }

    /// For each column, the numbers of its edges within their check rows.
    pub fn col_to_row_edge_idxs(&self) -> (r: &[Vec<usize>])
        requires
            self.wf(),
        ensures
            r@.len() == N,
            forall|j: int| 0 <= j < N ==> #[trigger] r@[j]@ == self.edge_idxs(j),
            forall|j: int| 0 <= j < N ==> Self::edges_point_back(self.matrix(), j, #[trigger] self.edge_idxs(j)),
    {
        self.col_to_row_edge_idxs.as_slice()
    }

    /// The parities of the unpacked word `cw` over every check row.
    pub open spec fn unpacked_syndrome(&self, cw: Seq<u8>) -> Seq<u8> {
        Seq::new(M as nat, |i: int| check_sum(self.row_support(i), cw))
    }

    /// Whether the unpacked word `cw` (one entry per bit) satisfies every
    /// parity check.
    pub fn check_syndrome(&self, cw: &[u8]) -> (ok: bool)
        requires
            self.wf(),
            forall|i: int, k: int|
                0 <= i < M && 0 <= k < self.row_support(i).len() ==> #[trigger] self.row_support(
                    i,
                )[k] < cw@.len(),
        ensures
            ok == (self.unpacked_syndrome(cw@) == zeros(M as nat)),
            cw@.len() == N && is_binary(cw@) ==> (ok <==> forall|i: int|
                0 <= i < M ==> !(#[trigger] check_fails(self.matrix(), i, cw@))),
    {
        proof {
            if cw@.len() == N && is_binary(cw@) {
                assert forall|i: int| 0 <= i < M implies #[trigger] self.unpacked_syndrome(cw@)[i]
                    == if check_fails(self.matrix(), i, cw@) {
                    1u8
                } else {
                    0u8
                } by {
                    assert(self.matrix()[i].len() == N);
                    lemma_check_sum_parity(self.matrix()[i], cw@, N as int);
                }
                if forall|i: int| 0 <= i < M ==> !(#[trigger] check_fails(self.matrix(), i, cw@)) {
                    assert(self.unpacked_syndrome(cw@) =~= zeros(M as nat));
                }
                if self.unpacked_syndrome(cw@) == zeros(M as nat) {
                    assert forall|i: int| 0 <= i < M implies !(#[trigger] check_fails(
                        self.matrix(),
                        i,
                        cw@,
                    )) by {
                        assert(self.unpacked_syndrome(cw@)[i] == zeros(M as nat)[i]);
                    }
                }
            }
        }
        let mut i: usize = 0;
        while i < M
            invariant
                self.wf(),
                forall|r: int, k: int|
                    0 <= r < M && 0 <= k < self.row_support(r).len() ==> #[trigger] self.row_support(
                        r,
                    )[k] < cw@.len(),
                i <= M,
                forall|r: int| 0 <= r < i ==> #[trigger] self.unpacked_syndrome(cw@)[r] == 0,
            decreases M - i,
        {
            let row = &self.row_to_cols[i];
            let ghost cols = self.row_support(i as int);
            let mut sum: u8 = 0;
            let mut k: usize = 0;
            while k < row.len()
                invariant
                    self.wf(),
                    i < M,
                    row@ == cols,
                    cols == self.row_support(i as int),
                    forall|t: int| 0 <= t < cols.len() ==> #[trigger] cols[t] < cw@.len(),
                    k <= cols.len(),
                    sum == xor_sum(k as int, |t: int| cw@[cols[t] as int]),
                decreases cols.len() - k,
            {
                sum = sum ^ cw[row[k]];
                k = k + 1;
            }
            if sum != 0 {
                proof {
                    assert(self.unpacked_syndrome(cw@)[i as int] != zeros(M as nat)[i as int]);
                    if cw@.len() == N && is_binary(cw@) {
                        assert(self.matrix()[i as int].len() == N);
                        lemma_check_sum_parity(self.matrix()[i as int], cw@, N as int);
                        assert(check_fails(self.matrix(), i as int, cw@));
                    }
                }
                return false;
            }
            i = i + 1;
        }
        assert(self.unpacked_syndrome(cw@) =~= zeros(M as nat));
        true
    }
}

} // verus!
