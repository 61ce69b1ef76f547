//! Hard-decision LDPC decoding over packed codewords: Gallager-A, Gallager-B,
//! WBF (weighted bit-flip), MWBF (modified WBF) and NWBF (normalized WBF).
//!
//! Every iteration computes the syndrome of the current word; if it is zero
//! the word is a codeword and nothing changes, otherwise the algorithm picks
//! a set of bits to flip from the unsatisfied checks.
use vstd::prelude::*;
use crate::bitarray::{bit_view, flip, lemma_bit_view_binary, lemma_xor_bit_view, BitArray};
use crate::encoder::{
    lemma_encoding_passes_parity_checks, rows_of, systematic_codeword, LdpcEncoder,
};
use crate::correction::count_common;
use crate::flip_rules::{
    check_fails, column_degree, lemma_check_weights_by_row_degree, lemma_gallager_a_rule,
    lemma_gallager_b_rule, lemma_mwbf_rule, lemma_nwbf_rule, lemma_syndrome_marks_failing_checks,
    lemma_votes_count_common, lemma_wbf_rule,
    normalized_unsatisfied, row_degree, unsatisfied, weighted_unsatisfied,
};
use crate::gf2::{
    is_binary, is_binary_matrix, lemma_u8_xor_facts, lemma_xor_sum_binary, lemma_xor_sum_ext,
    lemma_xor_sum_single, lemma_xor_sum_zero, mat_vec, xor_sum, zeros,
};
use crate::tanner::{build_adjacency, column, lemma_support_prefix, support, support_prefix};

verus! {

/// XOR of `bits` at the positions listed in `cols`.
pub open spec fn check_sum(cols: Seq<usize>, bits: Seq<u8>) -> u8 {
    xor_sum(cols.len() as int, |k: int| bits[cols[k] as int])
}

/// How many of the first `n` positions listed in `idxs` are flagged (`== 1`).
pub open spec fn count_flagged(idxs: Seq<usize>, flags: Seq<u8>, n: int) -> nat
    decreases n,
{
    if n <= 0 {
        0
    } else {
        count_flagged(idxs, flags, n - 1) + if flags[idxs[n - 1] as int] == 1 {
            1nat
        } else {
            0nat
        }
    }
}

/// The total weight of the flagged positions among the first `n` listed in `idxs`.
pub open spec fn weigh_flagged(idxs: Seq<usize>, flags: Seq<u8>, weights: Seq<nat>, n: int) -> nat
    decreases n,
{
    if n <= 0 {
        0
    } else {
        weigh_flagged(idxs, flags, weights, n - 1) + if flags[idxs[n - 1] as int] == 1 {
            weights[idxs[n - 1] as int]
        } else {
            0nat
        }
    }
}

/// The largest entry of `s`, or 0 when every entry is below 0 or `s` is empty.
pub open spec fn seq_max(s: Seq<int>) -> int
    decreases s.len(),
{
    if s.len() == 0 {
        0
    } else {
        let m = seq_max(s.drop_last());
        if s.last() > m {
            s.last()
        } else {
            m
        }
    }
}

/// The first position of `s` that holds its maximum.
pub open spec fn first_max_index(s: Seq<int>) -> int {
    choose|b: int|
        0 <= b < s.len() && s[b] == seq_max(s) && forall|t: int| 0 <= t < b ==> s[t] < s[b]
}

/// `bits` with the positions marked in `flips` inverted.
pub open spec fn flip_where(bits: Seq<u8>, flips: Seq<bool>) -> Seq<u8> {
    Seq::new(bits.len(), |t: int| if flips[t] { flip(bits[t]) } else { bits[t] })
}

/// The fixed-point weight of a check with `deg` ones: `65536 / max(deg, 1)`.
pub open spec fn check_weight_of(deg: nat) -> nat {
    65536nat / if deg == 0 {
        1nat
    } else {
        deg
    }
}

/// The normalized score of a bit with `votes` unsatisfied checks and
/// (stored) degree `deg`: `(votes << 16) / max(deg, 1)` in 32-bit arithmetic.
pub open spec fn normalized_score(votes: nat, deg: u32) -> u32 {
    ((votes as u32) << 16u32) / if deg == 0 {
        1u32
    } else {
        deg
    }
}

proof fn lemma_seq_max_take(s: Seq<int>, j: int)
    requires
        0 <= j < s.len(),
    ensures
        seq_max(s.take(j + 1)) == if s[j] > seq_max(s.take(j)) {
            s[j]
        } else {
            seq_max(s.take(j))
        },
{
    assert(s.take(j + 1).drop_last() =~= s.take(j));
}

proof fn lemma_count_bounded(idxs: Seq<usize>, flags: Seq<u8>, n: int)
    requires
        0 <= n,
    ensures
        count_flagged(idxs, flags, n) <= n,
    decreases n,
{
    if n > 0 {
        lemma_count_bounded(idxs, flags, n - 1);
    }
}

proof fn lemma_weigh_mono(idxs: Seq<usize>, flags: Seq<u8>, weights: Seq<nat>, n1: int, n2: int)
    requires
        0 <= n1 <= n2,
    ensures
        weigh_flagged(idxs, flags, weights, n1) <= weigh_flagged(idxs, flags, weights, n2),
    decreases n2 - n1,
{
    if n1 < n2 {
        lemma_weigh_mono(idxs, flags, weights, n1, n2 - 1);
    }
}

proof fn lemma_weigh_bounded(
    idxs: Seq<usize>,
    flags: Seq<u8>,
    weights: Seq<nat>,
    n: int,
    bound: nat,
)
    requires
        0 <= n <= idxs.len(),
        forall|k: int| 0 <= k < n ==> #[trigger] weights[idxs[k] as int] <= bound,
    ensures
        weigh_flagged(idxs, flags, weights, n) <= n * bound,
    decreases n,
{
    if n > 0 {
        lemma_weigh_bounded(idxs, flags, weights, n - 1, bound);
        assert((n - 1) * bound + bound == n * bound) by (nonlinear_arith);
    }
}

/// Inverts the bits of `cw` marked in `flips`.
fn apply_flips(cw: &mut [u8], flips: &Vec<bool>)
    requires
        flips@.len() == 8 * old(cw)@.len(),
    ensures
        final(cw)@.len() == old(cw)@.len(),
        bit_view(final(cw)@) == flip_where(bit_view(old(cw)@), flips@),
{
    let ghost bits0 = bit_view(cw@);
    let n = flips.len();
    let mut j: usize = 0;
    while j < n
        invariant
            n == flips@.len(),
            n == 8 * cw@.len(),
            cw@.len() == old(cw)@.len(),
            bits0 == bit_view(old(cw)@),
            j <= n,
            bit_view(cw@) == Seq::new(
                n as nat,
                |t: int| if t < j && flips@[t] { flip(bits0[t]) } else { bits0[t] },
            ),
        decreases n - j,
    {
        if flips[j] {
            proof {
                lemma_xor_bit_view(cw@, j as int);
            }
            BitArray::xor_bit(cw, j);
        }
        proof {
            assert(bit_view(cw@) =~= Seq::new(
                n as nat,
                |t: int| if t < j + 1 && flips@[t] { flip(bits0[t]) } else { bits0[t] },
            ));
        }
        j = j + 1;
    }
    assert(bit_view(cw@) =~= flip_where(bits0, flips@));
}

/// Unified LDPC hard-decision decoder for an `M x N` parity-check matrix.
///
/// Codewords are packed bit arrays of `N / 8` bytes.
pub struct LdpcDecoder<const M: usize, const N: usize> {
    pub max_iter: usize,
    pub gallager_b_threshold: u8,
    row_to_cols: Vec<Vec<usize>>,
    col_to_rows: Vec<Vec<usize>>,
    check_weights_fixed: Vec<u32>,
    col_degrees: Vec<u32>,
    h: Ghost<Seq<Seq<u8>>>,
}

impl<const M: usize, const N: usize> LdpcDecoder<M, N> {
    /// The parity-check matrix the decoder was built from.
    pub closed spec fn matrix(&self) -> Seq<Seq<u8>> {
        self.h@
    }

    /// The value of the public field `max_iter`.
    pub closed spec fn iteration_limit(&self) -> usize {
        self.max_iter
    }

    /// The value of the public field `gallager_b_threshold`.
    pub closed spec fn vote_threshold(&self) -> u8 {
        self.gallager_b_threshold
    }

    /// The columns where check row `i` holds a 1.
    pub open spec fn row_support(&self, i: int) -> Seq<usize> {
        support(self.matrix()[i])
    }

    /// The check rows that hold a 1 in column `j`.
    pub open spec fn col_support(&self, j: int) -> Seq<usize> {
        support(column(self.matrix(), j))
    }

    /// The WBF weight of each check row.
    pub open spec fn check_weights(&self) -> Seq<nat> {
        Seq::new(M as nat, |i: int| check_weight_of(self.row_support(i).len()))
    }

    /// The stored degree of column `j` (its number of ones, as a `u32`).
    pub open spec fn col_degree(&self, j: int) -> u32 {
        self.col_support(j).len() as u32
    }

    /// The syndrome of the unpacked word `bits`: one parity per check row.
    pub open spec fn syndrome(&self, bits: Seq<u8>) -> Seq<u8> {
        Seq::new(M as nat, |i: int| check_sum(self.row_support(i), bits))
    }

    /// `bits` satisfies every parity check.
    pub open spec fn is_codeword(&self, bits: Seq<u8>) -> bool {
        self.syndrome(bits) == zeros(M as nat)
    }

    /// The number of unsatisfied checks (`sn[i] == 1`) that involve bit `j`.
    pub open spec fn votes(&self, j: int, sn: Seq<u8>) -> nat {
        count_flagged(self.col_support(j), sn, self.col_support(j).len() as int)
    }

    /// The WBF score of bit `j`: the total weight of its unsatisfied checks.
    pub open spec fn wbf_score(&self, j: int, sn: Seq<u8>) -> nat {
        weigh_flagged(self.col_support(j), sn, self.check_weights(), self.col_support(j).len() as int)
    }

    /// Gallager-A flips a bit when more than half of its checks (by stored
    /// degree, truncated to 8 bits) are unsatisfied.
    pub open spec fn gallager_a_flips(&self, bits: Seq<u8>) -> Seq<bool> {
        Seq::new(
            N as nat,
            |j: int| self.votes(j, self.syndrome(bits)) > ((self.col_degree(j) as u8) / 2) as nat,
        )
    }

    /// Gallager-B flips a bit of nonzero (8-bit) degree when at least
    /// `threshold` of its checks are unsatisfied.
    pub open spec fn gallager_b_flips(&self, bits: Seq<u8>, threshold: u8) -> Seq<bool> {
        Seq::new(
            N as nat,
            |j: int|
                (self.col_degree(j) as u8) > 0 && self.votes(j, self.syndrome(bits)) >= threshold,
        )
    }

    /// The WBF scores of all bits.
    pub open spec fn wbf_scores(&self, bits: Seq<u8>) -> Seq<int> {
        Seq::new(N as nat, |j: int| self.wbf_score(j, self.syndrome(bits)) as int)
    }

    /// WBF flips the first bit of greatest positive score.
    pub open spec fn wbf_flips(&self, bits: Seq<u8>) -> Seq<bool> {
        let s = self.wbf_scores(bits);
        Seq::new(N as nat, |j: int| seq_max(s) > 0 && j == first_max_index(s))
    }

    /// The MWBF scores: the number of unsatisfied checks of each bit.
    pub open spec fn mwbf_scores(&self, bits: Seq<u8>) -> Seq<int> {
        Seq::new(N as nat, |j: int| self.votes(j, self.syndrome(bits)) as int)
    }

    /// The NWBF scores: unsatisfied checks normalized by the column degree.
    pub open spec fn nwbf_scores(&self, bits: Seq<u8>) -> Seq<int> {
        Seq::new(
            N as nat,
            |j: int| normalized_score(self.votes(j, self.syndrome(bits)), self.col_degree(j)) as int,
        )
    }

    /// Flip every bit whose score equals the greatest score, when that is positive.
    pub open spec fn flips_at_max(scores: Seq<int>) -> Seq<bool> {
        Seq::new(scores.len(), |j: int| seq_max(scores) > 0 && scores[j] == seq_max(scores))
    }

    /// The decoder's invariant: its adjacency lists, weights and degrees
    /// describe its parity-check matrix.
    pub closed spec fn wf(&self) -> bool {
        &&& self.h@.len() == M
        &&& forall|i: int| 0 <= i < M ==> (#[trigger] self.h@[i]).len() == N
        &&& self.row_to_cols@.len() == M
        &&& self.col_to_rows@.len() == N
        &&& self.check_weights_fixed@.len() == M
        &&& self.col_degrees@.len() == N
        &&& forall|i: int| 0 <= i < M ==> #[trigger] self.row_to_cols@[i]@ == self.row_support(i)
        &&& forall|j: int| 0 <= j < N ==> #[trigger] self.col_to_rows@[j]@ == self.col_support(j)
        &&& forall|i: int|
            0 <= i < M ==> #[trigger] self.check_weights_fixed@[i] == self.check_weights()[i]
        &&& forall|j: int| 0 <= j < N ==> #[trigger] self.col_degrees@[j] == self.col_degree(j)
    }

    /// Facts about the adjacency lists that follow from the invariant.
    pub proof fn lemma_adjacency_bounds(&self)
        requires
            self.wf(),
        ensures
            self.matrix().len() == M,
            forall|i: int| 0 <= i < M ==> (#[trigger] self.matrix()[i]).len() == N,
            forall|i: int| 0 <= i < M ==> self.row_support(i).len() <= N,
            forall|i: int, k: int|
                0 <= i < M && 0 <= k < self.row_support(i).len() ==> #[trigger] self.row_support(
                    i,
                )[k] < N,
            forall|j: int| 0 <= j < N ==> self.col_support(j).len() <= M,
            forall|j: int, k: int|
                0 <= j < N && 0 <= k < self.col_support(j).len() ==> #[trigger] self.col_support(
                    j,
                )[k] < M,
            forall|i: int| 0 <= i < M ==> #[trigger] self.check_weights()[i] <= 65536,
    {
        assert forall|i: int| 0 <= i < M implies self.row_support(i).len() <= N && (forall|k: int|
            0 <= k < self.row_support(i).len() ==> #[trigger] self.row_support(i)[k] < N) by {
            lemma_support_prefix(self.matrix()[i], N as int);
        }
        assert forall|j: int| 0 <= j < N implies self.col_support(j).len() <= M && (forall|k: int|
            0 <= k < self.col_support(j).len() ==> #[trigger] self.col_support(j)[k] < M) by {
            lemma_support_prefix(column(self.matrix(), j), M as int);
        }
        assert forall|i: int| 0 <= i < M implies #[trigger] self.check_weights()[i] <= 65536 by {
            let d = self.row_support(i).len();
            if d > 0 {
                assert(65536nat / d <= 65536) by (nonlinear_arith)
                    requires
                        d > 0,
                ;
            }
        }
    }

    /// Builds the decoder's adjacency lists, check weights and column degrees from `h`.
    pub fn new(h: &[[u8; N]; M]) -> (dec: Self)
        ensures
            dec.wf(),
            dec.matrix() == rows_of(*h),
            dec.iteration_limit() == 50,
            dec.vote_threshold() == 2,
            forall|i: int|
                0 <= i < M ==> #[trigger] dec.check_weights()[i] == 65536nat / if row_degree(
                    rows_of(*h),
                    i,
                ) == 0 {
                    1nat
                } else {
                    row_degree(rows_of(*h), i)
                },
    {
        let (row_to_cols, col_to_rows) = build_adjacency(h);
        let ghost hv = rows_of(*h);
        let mut check_weights_fixed: Vec<u32> = Vec::new();
        let mut i: usize = 0;
        while i < M
            invariant
                i <= M,
                row_to_cols@.len() == M,
                forall|t: int| 0 <= t < M ==> #[trigger] row_to_cols@[t]@ == support(hv[t]),
                check_weights_fixed@.len() == i,
                forall|t: int|
                    0 <= t < i ==> #[trigger] check_weights_fixed@[t] == check_weight_of(
                        support(hv[t]).len(),
                    ),
            decreases M - i,
        {
            let deg = row_to_cols[i].len();
            let safe_deg: usize = if deg > 1 {
                deg
            } else {
                1
            };
            assert(65536usize / safe_deg <= 65536) by (nonlinear_arith)
                requires
                    safe_deg >= 1,
            ;
            check_weights_fixed.push((65536 / safe_deg) as u32);
            i = i + 1;
        }
        let mut col_degrees: Vec<u32> = Vec::new();
        let mut j: usize = 0;
        while j < N
            invariant
                j <= N,
                col_to_rows@.len() == N,
                forall|t: int|
                    0 <= t < N ==> #[trigger] col_to_rows@[t]@ == support(column(hv, t)),
                col_degrees@.len() == j,
                forall|t: int|
                    0 <= t < j ==> #[trigger] col_degrees@[t] == support(column(hv, t)).len() as u32,
            decreases N - j,
        {
            col_degrees.push(col_to_rows[j].len() as u32);
            j = j + 1;
        }
        let dec = LdpcDecoder {
            max_iter: 50,
            gallager_b_threshold: 2,
            row_to_cols,
            col_to_rows,
            check_weights_fixed,
            col_degrees,
            h: Ghost(hv),
        };
        proof {
            lemma_check_weights_by_row_degree(dec);
        }
        dec
    }

    /// Sets the Gallager-B vote threshold (it must exceed 1 for convergence).
    pub fn set_gallager_b_threshold(&mut self, threshold: u8)
        requires
            threshold > 1,
        ensures
            final(self).vote_threshold() == threshold,
            final(self).iteration_limit() == old(self).iteration_limit(),
            final(self).matrix() == old(self).matrix(),
            final(self).wf() == old(self).wf(),
    {
        self.gallager_b_threshold = threshold;
    }

    /// Sets the iteration limit.
    pub fn set_max_iter(&mut self, it: usize)
        ensures
            final(self).iteration_limit() == it,
            final(self).vote_threshold() == old(self).vote_threshold(),
            final(self).matrix() == old(self).matrix(),
            final(self).wf() == old(self).wf(),
    {
        self.max_iter = it;
    }

    /// Computes the syndrome of the packed word `cw` into `sn`; returns
    /// whether every check is satisfied.
    pub fn get_parity(&self, cw: &[u8], sn: &mut [u8; M]) -> (valid: bool)
        requires
            self.wf(),
            cw@.len() * 8 == N,
        ensures
            final(sn)@ == self.syndrome(bit_view(cw@)),
            valid == self.is_codeword(bit_view(cw@)),
            forall|i: int|
                0 <= i < M ==> #[trigger] final(sn)@[i] == if check_fails(
                    self.matrix(),
                    i,
                    bit_view(cw@),
                ) {
                    1u8
                } else {
                    0u8
                },
            valid <==> forall|i: int|
                0 <= i < M ==> !(#[trigger] check_fails(self.matrix(), i, bit_view(cw@))),
    {
        let ghost bits = bit_view(cw@);
        proof {
            self.lemma_adjacency_bounds();
            lemma_bit_view_binary(cw@);
            lemma_syndrome_marks_failing_checks(*self, bits);
        }
        let mut valid = true;
        let mut i: usize = 0;
        while i < M
            invariant
                self.wf(),
                cw@.len() * 8 == N,
                bits == bit_view(cw@),
                i <= M,
                forall|t: int, k: int|
                    0 <= t < M && 0 <= k < self.row_support(t).len() ==> #[trigger] self.row_support(
                        t,
                    )[k] < N,
                forall|t: int| 0 <= t < i ==> #[trigger] sn@[t] == self.syndrome(bits)[t],
                valid == forall|t: int| 0 <= t < i ==> #[trigger] self.syndrome(bits)[t] == 0,
            decreases M - i,
        {
            let row = &self.row_to_cols[i];
            let ghost cols = self.row_support(i as int);
            let mut sum: u8 = 0;
            let mut k: usize = 0;
            while k < row.len()
                invariant
                    self.wf(),
                    cw@.len() * 8 == N,
                    bits == bit_view(cw@),
                    i < M,
                    row@ == cols,
                    cols == self.row_support(i as int),
                    forall|t: int| 0 <= t < cols.len() ==> #[trigger] cols[t] < N,
                    k <= cols.len(),
                    sum == xor_sum(k as int, |t: int| bits[cols[t] as int]),
                decreases cols.len() - k,
            {
                let j = row[k];
                let b = BitArray::get_bit(cw, j);
                sum = sum ^ b;
                k = k + 1;
            }
            assert(self.syndrome(bits)[i as int] == sum);
            sn[i] = sum;
            if sum != 0 {
                valid = false;
            }
            assert(valid ==> forall|t: int| 0 <= t < i + 1 ==> #[trigger] self.syndrome(bits)[t]
                == 0);
            i = i + 1;
        }
        proof {
            if valid {
                assert(self.syndrome(bits) =~= zeros(M as nat));
            } else {
                let t = choose|t: int| 0 <= t < M && #[trigger] self.syndrome(bits)[t] != 0;
                assert(self.syndrome(bits)[t] != zeros(M as nat)[t]);
            }
        }
        assert(sn@ =~= self.syndrome(bits));
        valid
    }

    /// The syndrome of `cw` as a fresh array.
    fn syndrome_of(&self, cw: &[u8]) -> (res: ([u8; M], bool))
        requires
            self.wf(),
            cw@.len() * 8 == N,
        ensures
            res.0@ == self.syndrome(bit_view(cw@)),
            res.1 == self.is_codeword(bit_view(cw@)),
    {
        let mut sn = [0u8; M];
        let valid = self.get_parity(cw, &mut sn);
        (sn, valid)
    }

    /// The number of unsatisfied checks of column `j`.
    fn column_votes(&self, j: usize, sn: &[u8; M]) -> (v: u32)
        requires
            self.wf(),
            j < N,
            self.votes(j as int, sn@) <= u32::MAX,
        ensures
            v == self.votes(j as int, sn@),
    {
        proof {
            self.lemma_adjacency_bounds();
        }
        let col = &self.col_to_rows[j];
        let ghost rows = self.col_support(j as int);
        let mut votes: u32 = 0;
        let mut k: usize = 0;
        while k < col.len()
            invariant
                self.wf(),
                j < N,
                col@ == rows,
                rows == self.col_support(j as int),
                forall|t: int| 0 <= t < rows.len() ==> #[trigger] rows[t] < M,
                k <= rows.len(),
                votes == count_flagged(rows, sn@, k as int),
                count_flagged(rows, sn@, rows.len() as int) <= u32::MAX,
            decreases rows.len() - k,
        {
            let i = col[k];
            proof {
                lemma_count_bounded(rows, sn@, k as int);
                lemma_count_mono(rows, sn@, k as int + 1, rows.len() as int);
            }
            if sn[i] == 1 {
                votes = votes + 1;
            }
            k = k + 1;
        }
        votes
    }

    /// The WBF score of column `j`.
    fn column_weight(&self, j: usize, sn: &[u8; M]) -> (s: u32)
        requires
            self.wf(),
            j < N,
            self.wbf_score(j as int, sn@) <= u32::MAX,
        ensures
            s == self.wbf_score(j as int, sn@),
    {
        proof {
            self.lemma_adjacency_bounds();
        }
        let col = &self.col_to_rows[j];
        let ghost rows = self.col_support(j as int);
        let ghost w = self.check_weights();
        let mut s: u32 = 0;
        let mut k: usize = 0;
        while k < col.len()
            invariant
                self.wf(),
                j < N,
                col@ == rows,
                rows == self.col_support(j as int),
                w == self.check_weights(),
                forall|t: int| 0 <= t < rows.len() ==> #[trigger] rows[t] < M,
                k <= rows.len(),
                s == weigh_flagged(rows, sn@, w, k as int),
                weigh_flagged(rows, sn@, w, rows.len() as int) <= u32::MAX,
            decreases rows.len() - k,
        {
            let i = col[k];
            proof {
                lemma_weigh_mono(rows, sn@, w, k as int + 1, rows.len() as int);
            }
            if sn[i] == 1 {
                s = s + self.check_weights_fixed[i];
            }
            k = k + 1;
        }
        s
    }

    /// Flips, on the packed word, every bit whose score equals the greatest
    /// positive score.
    fn flip_max_scores(cw: &mut [u8], scores: &Vec<u32>, Ghost(spec_scores): Ghost<Seq<int>>)
        requires
            scores@.len() == 8 * old(cw)@.len(),
            spec_scores.len() == scores@.len(),
            forall|t: int| 0 <= t < scores@.len() ==> #[trigger] spec_scores[t] == scores@[t] as int,
        ensures
            final(cw)@.len() == old(cw)@.len(),
            bit_view(final(cw)@) == flip_where(bit_view(old(cw)@), Self::flips_at_max(spec_scores)),
    {
        let n = scores.len();
        let mut max_score: u32 = 0;
        let mut j: usize = 0;
        while j < n
            invariant
                n == scores@.len(),
                spec_scores.len() == n,
                forall|t: int| 0 <= t < n ==> #[trigger] spec_scores[t] == scores@[t] as int,
                j <= n,
                max_score as int == seq_max(spec_scores.take(j as int)),
            decreases n - j,
        {
            proof {
                lemma_seq_max_take(spec_scores, j as int);
            }
            if scores[j] > max_score {
                max_score = scores[j];
            }
            j = j + 1;
        }
        assert(spec_scores.take(n as int) =~= spec_scores);
        let mut flips: Vec<bool> = Vec::new();
        let mut j: usize = 0;
        while j < n
            invariant
                n == scores@.len(),
                spec_scores.len() == n,
                forall|t: int| 0 <= t < n ==> #[trigger] spec_scores[t] == scores@[t] as int,
                max_score as int == seq_max(spec_scores),
                j <= n,
                flips@.len() == j,
                forall|t: int|
                    0 <= t < j ==> #[trigger] flips@[t] == Self::flips_at_max(spec_scores)[t],
            decreases n - j,
        {
            flips.push(max_score > 0 && scores[j] == max_score);
            j = j + 1;
        }
        assert(flips@ =~= Self::flips_at_max(spec_scores));
        apply_flips(cw, &flips);
    }

    /// One Gallager-A iteration on the packed word `cw`. Returns true, leaving
    /// `cw` unchanged, when `cw` is already a codeword.
    pub fn iterate_gallager_a(&self, cw: &mut [u8]) -> (converged: bool)
        requires
            self.wf(),
            old(cw)@.len() * 8 == N,
            forall|j: int|
                0 <= j < N ==> #[trigger] self.votes(j, self.syndrome(bit_view(old(cw)@))) <= u8::MAX,
        ensures
            final(cw)@.len() == old(cw)@.len(),
            converged == self.is_codeword(bit_view(old(cw)@)),
            converged ==> final(cw)@ == old(cw)@,
            !converged ==> bit_view(final(cw)@) == flip_where(
                bit_view(old(cw)@),
                self.gallager_a_flips(bit_view(old(cw)@)),
            ),
            converged <==> forall|i: int|
                0 <= i < M ==> !(#[trigger] check_fails(self.matrix(), i, bit_view(old(cw)@))),
            !converged ==> forall|j: int|
                0 <= j < N && column_degree(self.matrix(), j) <= 255 ==> (#[trigger] bit_view(
                    final(cw)@,
                )[j] != bit_view(old(cw)@)[j] <==> unsatisfied(self.matrix(), bit_view(old(cw)@), j)
                    > column_degree(self.matrix(), j) / 2),
    {
        let ghost bits = bit_view(cw@);
        proof {
            lemma_bit_view_binary(cw@);
            lemma_syndrome_marks_failing_checks(*self, bits);
        }
        let (sn, valid) = self.syndrome_of(cw);
        if valid {
            return true;
        }
        let mut flip: Vec<bool> = Vec::new();
        let mut j: usize = 0;
        while j < N
            invariant
                self.wf(),
                bits == bit_view(old(cw)@),
                sn@ == self.syndrome(bits),
                forall|t: int| 0 <= t < N ==> #[trigger] self.votes(t, sn@) <= u8::MAX,
                j <= N,
                flip@.len() == j,
                forall|t: int| 0 <= t < j ==> #[trigger] flip@[t] == self.gallager_a_flips(bits)[t],
            decreases N - j,
        {
            let votes = self.column_votes(j, &sn) as u8;
            let total = self.col_degrees[j] as u8;
            flip.push(votes > total / 2);
            j = j + 1;
        }
        assert(flip@ =~= self.gallager_a_flips(bits));
        apply_flips(cw, &flip);
        proof {
            lemma_gallager_a_rule(*self, bits);
        }
        false
    }

    /// One Gallager-B iteration on the packed word `cw`. Returns true, leaving
    /// `cw` unchanged, when `cw` is already a codeword.
    pub fn iterate_gallager_b(&self, cw: &mut [u8]) -> (converged: bool)
        requires
            self.wf(),
            old(cw)@.len() * 8 == N,
            forall|j: int|
                0 <= j < N ==> #[trigger] self.votes(j, self.syndrome(bit_view(old(cw)@))) <= u8::MAX,
        ensures
            final(cw)@.len() == old(cw)@.len(),
            converged == self.is_codeword(bit_view(old(cw)@)),
            converged ==> final(cw)@ == old(cw)@,
            !converged ==> bit_view(final(cw)@) == flip_where(
                bit_view(old(cw)@),
                self.gallager_b_flips(bit_view(old(cw)@), self.vote_threshold()),
            ),
            converged <==> forall|i: int|
                0 <= i < M ==> !(#[trigger] check_fails(self.matrix(), i, bit_view(old(cw)@))),
            !converged ==> forall|j: int|
                0 <= j < N && column_degree(self.matrix(), j) <= 255 ==> (#[trigger] bit_view(
                    final(cw)@,
                )[j] != bit_view(old(cw)@)[j] <==> column_degree(self.matrix(), j) > 0
                    && unsatisfied(self.matrix(), bit_view(old(cw)@), j) >= self.vote_threshold()),
    {
        let ghost bits = bit_view(cw@);
        proof {
            lemma_bit_view_binary(cw@);
            lemma_syndrome_marks_failing_checks(*self, bits);
        }
        let (sn, valid) = self.syndrome_of(cw);
        if valid {
            return true;
        }
        let mut flip: Vec<bool> = Vec::new();
        let mut j: usize = 0;
        while j < N
            invariant
                self.wf(),
                bits == bit_view(old(cw)@),
                sn@ == self.syndrome(bits),
                forall|t: int| 0 <= t < N ==> #[trigger] self.votes(t, sn@) <= u8::MAX,
                j <= N,
                flip@.len() == j,
                forall|t: int|
                    0 <= t < j ==> #[trigger] flip@[t] == self.gallager_b_flips(
                        bits,
                        self.gallager_b_threshold,
                    )[t],
            decreases N - j,
        {
            let votes = self.column_votes(j, &sn) as u8;
            let total = self.col_degrees[j] as u8;
            flip.push(total > 0 && votes >= self.gallager_b_threshold);
            j = j + 1;
        }
        assert(flip@ =~= self.gallager_b_flips(bits, self.gallager_b_threshold));
        apply_flips(cw, &flip);
        proof {
            lemma_gallager_b_rule(*self, bits, self.gallager_b_threshold);
        }
        false
    }

    /// One bit-flip iteration: the weighted bit-flip (WBF) step.
    pub fn iterate_bitflip(&self, cw: &mut [u8]) -> (converged: bool)
        requires
            self.wf(),
            old(cw)@.len() * 8 == N,
            forall|j: int|
                0 <= j < N ==> #[trigger] self.wbf_score(j, self.syndrome(bit_view(old(cw)@)))
                    <= u32::MAX,
        ensures
            final(cw)@.len() == old(cw)@.len(),
            converged == self.is_codeword(bit_view(old(cw)@)),
            converged ==> final(cw)@ == old(cw)@,
            !converged ==> bit_view(final(cw)@) == flip_where(
                bit_view(old(cw)@),
                self.wbf_flips(bit_view(old(cw)@)),
            ),
            converged <==> forall|i: int|
                0 <= i < M ==> !(#[trigger] check_fails(self.matrix(), i, bit_view(old(cw)@))),
            !converged ==> forall|j: int|
                0 <= j < N ==> (#[trigger] bit_view(final(cw)@)[j] != bit_view(old(cw)@)[j] <==> {
                    let h = self.matrix();
                    let b = bit_view(old(cw)@);
                    &&& weighted_unsatisfied(h, b, j) > 0
                    &&& forall|k: int|
                        0 <= k < N ==> #[trigger] weighted_unsatisfied(h, b, k)
                            <= weighted_unsatisfied(h, b, j)
                    &&& forall|k: int|
                        0 <= k < j ==> #[trigger] weighted_unsatisfied(h, b, k)
                            < weighted_unsatisfied(h, b, j)
                }),
    {
        self.iterate_wbf(cw)
    }

    /// One WBF iteration: flips the first bit of greatest positive weighted
    /// score. Returns true, leaving `cw` unchanged, when `cw` is a codeword.
    pub fn iterate_wbf(&self, cw: &mut [u8]) -> (converged: bool)
        requires
            self.wf(),
            old(cw)@.len() * 8 == N,
            forall|j: int|
                0 <= j < N ==> #[trigger] self.wbf_score(j, self.syndrome(bit_view(old(cw)@)))
                    <= u32::MAX,
        ensures
            final(cw)@.len() == old(cw)@.len(),
            converged == self.is_codeword(bit_view(old(cw)@)),
            converged ==> final(cw)@ == old(cw)@,
            !converged ==> bit_view(final(cw)@) == flip_where(
                bit_view(old(cw)@),
                self.wbf_flips(bit_view(old(cw)@)),
            ),
            converged <==> forall|i: int|
                0 <= i < M ==> !(#[trigger] check_fails(self.matrix(), i, bit_view(old(cw)@))),
            !converged ==> forall|j: int|
                0 <= j < N ==> (#[trigger] bit_view(final(cw)@)[j] != bit_view(old(cw)@)[j] <==> {
                    let h = self.matrix();
                    let b = bit_view(old(cw)@);
                    &&& weighted_unsatisfied(h, b, j) > 0
                    &&& forall|k: int|
                        0 <= k < N ==> #[trigger] weighted_unsatisfied(h, b, k)
                            <= weighted_unsatisfied(h, b, j)
                    &&& forall|k: int|
                        0 <= k < j ==> #[trigger] weighted_unsatisfied(h, b, k)
                            < weighted_unsatisfied(h, b, j)
                }),
    {
        let ghost bits = bit_view(cw@);
        proof {
            lemma_bit_view_binary(cw@);
            lemma_syndrome_marks_failing_checks(*self, bits);
        }
        let (sn, valid) = self.syndrome_of(cw);
        if valid {
            return true;
        }
        let ghost s = self.wbf_scores(bits);
        let mut max_score: u32 = 0;
        let mut best_j: usize = 0;
        let mut j: usize = 0;
        while j < N
            invariant
                self.wf(),
                bits == bit_view(old(cw)@),
                sn@ == self.syndrome(bits),
                s == self.wbf_scores(bits),
                forall|t: int| 0 <= t < N ==> #[trigger] self.wbf_score(t, sn@) <= u32::MAX,
                j <= N,
                max_score as int == seq_max(s.take(j as int)),
                max_score > 0 ==> best_j < j && s[best_j as int] == max_score as int,
                max_score > 0 ==> forall|t: int| 0 <= t < best_j ==> #[trigger] s[t] < max_score,
                forall|t: int| 0 <= t < j ==> #[trigger] s[t] <= max_score,
            decreases N - j,
        {
            let score = self.column_weight(j, &sn);
            proof {
                lemma_seq_max_take(s, j as int);
            }
            if score > max_score {
                max_score = score;
                best_j = j;
            }
            j = j + 1;
        }
        assert(s.take(N as int) =~= s);
        let mut flip: Vec<bool> = Vec::new();
        let mut j: usize = 0;
        while j < N
            invariant
                j <= N,
                flip@.len() == j,
                forall|t: int|
                    0 <= t < j ==> #[trigger] flip@[t] == (max_score > 0 && t == best_j),
            decreases N - j,
        {
            flip.push(max_score > 0 && j == best_j);
            j = j + 1;
        }
        proof {
            if max_score > 0 {
                let b = first_max_index(s);
                assert(0 <= best_j < s.len() && s[best_j as int] == seq_max(s) && forall|t: int|
                    0 <= t < best_j ==> s[t] < s[best_j as int]);
                assert(0 <= b < s.len() && s[b] == seq_max(s) && forall|t: int|
                    0 <= t < b ==> s[t] < s[b]);
                if b < best_j {
                    assert(s[b] < s[best_j as int]);
                } else if b > best_j {
                    assert(s[best_j as int] < s[b]);
                }
            }
        }
        assert(flip@ =~= self.wbf_flips(bits));
        apply_flips(cw, &flip);
        proof {
            lemma_wbf_rule(*self, bits);
        }
        false
    }

    /// One MWBF iteration: flips every bit with the greatest positive number
    /// of unsatisfied checks. Returns true, leaving `cw` unchanged, when `cw`
    /// is a codeword.
    pub fn iterate_mwbf(&self, cw: &mut [u8]) -> (converged: bool)
        requires
            self.wf(),
            old(cw)@.len() * 8 == N,
            forall|j: int|
                0 <= j < N ==> #[trigger] self.votes(j, self.syndrome(bit_view(old(cw)@)))
                    <= u32::MAX,
        ensures
            final(cw)@.len() == old(cw)@.len(),
            converged == self.is_codeword(bit_view(old(cw)@)),
            converged ==> final(cw)@ == old(cw)@,
            !converged ==> bit_view(final(cw)@) == flip_where(
                bit_view(old(cw)@),
                Self::flips_at_max(self.mwbf_scores(bit_view(old(cw)@))),
            ),
            converged <==> forall|i: int|
                0 <= i < M ==> !(#[trigger] check_fails(self.matrix(), i, bit_view(old(cw)@))),
            !converged ==> forall|j: int|
                0 <= j < N ==> (#[trigger] bit_view(final(cw)@)[j] != bit_view(old(cw)@)[j] <==> {
                    let h = self.matrix();
                    let b = bit_view(old(cw)@);
                    &&& unsatisfied(h, b, j) > 0
                    &&& forall|k: int|
                        0 <= k < N ==> #[trigger] unsatisfied(h, b, k) <= unsatisfied(h, b, j)
                }),
    {
        let ghost bits = bit_view(cw@);
        proof {
            lemma_bit_view_binary(cw@);
            lemma_syndrome_marks_failing_checks(*self, bits);
        }
        let (sn, valid) = self.syndrome_of(cw);
        if valid {
            return true;
        }
        let mut scores: Vec<u32> = Vec::new();
        let mut j: usize = 0;
        while j < N
            invariant
                self.wf(),
                bits == bit_view(old(cw)@),
                sn@ == self.syndrome(bits),
                forall|t: int| 0 <= t < N ==> #[trigger] self.votes(t, sn@) <= u32::MAX,
                j <= N,
                scores@.len() == j,
                forall|t: int|
                    0 <= t < j ==> #[trigger] scores@[t] as int == self.mwbf_scores(bits)[t],
            decreases N - j,
        {
            scores.push(self.column_votes(j, &sn));
            j = j + 1;
        }
        Self::flip_max_scores(cw, &scores, Ghost(self.mwbf_scores(bits)));
        proof {
            lemma_mwbf_rule(*self, bits);
        }
        false
    }

    /// One NWBF iteration: flips every bit with the greatest positive
    /// normalized score. Returns true, leaving `cw` unchanged, when `cw` is a
    /// codeword.
    pub fn iterate_nwbf(&self, cw: &mut [u8]) -> (converged: bool)
        requires
            self.wf(),
            old(cw)@.len() * 8 == N,
            forall|j: int|
                0 <= j < N ==> #[trigger] self.votes(j, self.syndrome(bit_view(old(cw)@)))
                    <= u32::MAX,
        ensures
            final(cw)@.len() == old(cw)@.len(),
            converged == self.is_codeword(bit_view(old(cw)@)),
            converged ==> final(cw)@ == old(cw)@,
            !converged ==> bit_view(final(cw)@) == flip_where(
                bit_view(old(cw)@),
                Self::flips_at_max(self.nwbf_scores(bit_view(old(cw)@))),
            ),
            converged <==> forall|i: int|
                0 <= i < M ==> !(#[trigger] check_fails(self.matrix(), i, bit_view(old(cw)@))),
            (forall|j: int| 0 <= j < N ==> #[trigger] column_degree(self.matrix(), j) <= 65535)
                ==> {
                let h = self.matrix();
                let b = bit_view(old(cw)@);
                &&& !converged ==> forall|j: int|
                    0 <= j < N ==> (#[trigger] bit_view(final(cw)@)[j] != b[j] <==> {
                        &&& normalized_unsatisfied(h, b, j) > 0
                        &&& forall|k: int|
                            0 <= k < N ==> #[trigger] normalized_unsatisfied(h, b, k)
                                <= normalized_unsatisfied(h, b, j)
                    })
                &&& !converged ==> exists|j: int|
                    0 <= j < N && #[trigger] bit_view(final(cw)@)[j] != b[j]
            },
    {
        let ghost bits = bit_view(cw@);
        proof {
            lemma_bit_view_binary(cw@);
            lemma_syndrome_marks_failing_checks(*self, bits);
        }
        let (sn, valid) = self.syndrome_of(cw);
        if valid {
            return true;
        }
        let mut scores: Vec<u32> = Vec::new();
        let mut j: usize = 0;
        while j < N
            invariant
                self.wf(),
                bits == bit_view(old(cw)@),
                sn@ == self.syndrome(bits),
                forall|t: int| 0 <= t < N ==> #[trigger] self.votes(t, sn@) <= u32::MAX,
                j <= N,
                scores@.len() == j,
                forall|t: int|
                    0 <= t < j ==> #[trigger] scores@[t] as int == self.nwbf_scores(bits)[t],
            decreases N - j,
        {
            let votes = self.column_votes(j, &sn);
            let d = self.col_degrees[j];
            let deg = if d > 1 {
                d
            } else {
                1
            };
            scores.push((votes << 16u32) / deg);
            j = j + 1;
        }
        Self::flip_max_scores(cw, &scores, Ghost(self.nwbf_scores(bits)));
        proof {
            if forall|j: int| 0 <= j < N ==> #[trigger] column_degree(self.matrix(), j) <= 65535 {
                lemma_nwbf_rule(*self, bits);
            };
        }
        false
    }

    /// Computes, for every bit, the number of unsatisfied checks in `sn`
    /// that involve it.
    pub fn get_score(&self, sn: &[u8; M], en: &mut [u8; N])
        requires
            self.wf(),
            forall|j: int| 0 <= j < N ==> #[trigger] self.votes(j, sn@) <= u8::MAX,
        ensures
            final(en)@ == Seq::new(N as nat, |j: int| self.votes(j, sn@) as u8),
            forall|j: int|
                0 <= j < N ==> #[trigger] final(en)@[j] == count_common(
                    column(self.matrix(), j),
                    sn@,
                    M as int,
                ),
    {
        let mut j: usize = 0;
        while j < N
            invariant
                self.wf(),
                forall|t: int| 0 <= t < N ==> #[trigger] self.votes(t, sn@) <= u8::MAX,
                j <= N,
                forall|t: int| 0 <= t < j ==> #[trigger] en@[t] == self.votes(t, sn@) as u8,
            decreases N - j,
        {
            let score = self.column_votes(j, sn) as u8;
            en[j] = score;
            j = j + 1;
        }
        assert(en@ =~= Seq::new(N as nat, |j: int| self.votes(j, sn@) as u8));
        assert forall|j: int| 0 <= j < N implies #[trigger] en@[j] == count_common(
            column(self.matrix(), j),
            sn@,
            M as int,
        ) by {
            lemma_votes_count_common(*self, j, sn@);
        }
    }
}

proof fn lemma_count_mono(idxs: Seq<usize>, flags: Seq<u8>, n1: int, n2: int)
    requires
        0 <= n1 <= n2,
    ensures
        count_flagged(idxs, flags, n1) <= count_flagged(idxs, flags, n2),
    decreases n2 - n1,
{
    if n1 < n2 {
        lemma_count_mono(idxs, flags, n1, n2 - 1);
    }
}

/// For a binary row and a binary word, the XOR over the row's support is the
/// GF(2) inner product.
proof fn lemma_check_sum_is_dot_prefix(row: Seq<u8>, bits: Seq<u8>, n: int)
    requires
        0 <= n <= row.len(),
        row.len() <= bits.len(),
        row.len() <= usize::MAX,
        is_binary(row),
        is_binary(bits),
    ensures
        check_sum(support_prefix(row, n), bits) == xor_sum(n, |k: int| row[k] & bits[k]),
    decreases n,
{
    if n > 0 {
        lemma_check_sum_is_dot_prefix(row, bits, n - 1);
        let s = support_prefix(row, n - 1);
        let t = support_prefix(row, n);
        let gs = |k: int| bits[s[k] as int];
        let gt = |k: int| bits[t[k] as int];
        let f = |k: int| row[k] & bits[k];
        let prev = xor_sum(n - 1, f);
        assert(xor_sum(n, f) == prev ^ f(n - 1));
        assert(check_sum(s, bits) == xor_sum(s.len() as int, gs));
        assert(check_sum(t, bits) == xor_sum(t.len() as int, gt));
        assert(bits[n - 1] <= 1);
        lemma_u8_xor_facts(bits[n - 1], 0, 0, 0);
        lemma_u8_xor_facts(prev, 0, 0, 0);
        if row[n - 1] == 1 {
            assert forall|k: int| 0 <= k < s.len() implies #[trigger] gt(k) == gs(k) by {
                assert(t[k] == s[k]);
            }
            lemma_xor_sum_ext(s.len() as int, gt, gs);
            assert(t.len() == s.len() + 1);
            assert(t[s.len() as int] == (n - 1) as usize);
            assert(xor_sum(t.len() as int, gt) == xor_sum(s.len() as int, gt) ^ gt(s.len() as int));
        } else {
            assert(t =~= s);
            assert(row[n - 1] == 0);
        }
    }
}

/// For a binary matrix and a binary word, the decoder's syndrome is the
/// matrix-vector product over GF(2).
pub proof fn lemma_syndrome_is_mat_vec<const M: usize, const N: usize>(
    dec: LdpcDecoder<M, N>,
    bits: Seq<u8>,
)
    requires
        dec.wf(),
        is_binary_matrix(dec.matrix(), M as nat, N as nat),
        bits.len() == N,
        is_binary(bits),
    ensures
        dec.syndrome(bits) == mat_vec(dec.matrix(), bits),
{
    assert forall|i: int| 0 <= i < M implies #[trigger] dec.syndrome(bits)[i] == mat_vec(
        dec.matrix(),
        bits,
    )[i] by {
        let row = dec.matrix()[i];
        lemma_check_sum_is_dot_prefix(row, bits, N as int);
    }
    assert(dec.syndrome(bits) =~= mat_vec(dec.matrix(), bits));
}

/// Every word produced by the systematic encoder of a matrix passes every
/// parity check of a decoder built from the same matrix.
pub proof fn lemma_encoded_words_are_codewords<const M: usize, const N: usize>(
    enc: LdpcEncoder<M, N>,
    dec: LdpcDecoder<M, N>,
    u: Seq<u8>,
)
    requires
        enc.wf(),
        dec.wf(),
        enc.matrix() == dec.matrix(),
        u.len() == M,
        is_binary(u),
    ensures
        dec.is_codeword(systematic_codeword(enc.generator(), u)),
{
    lemma_encoding_passes_parity_checks(enc, u);
    lemma_syndrome_is_mat_vec(dec, systematic_codeword(enc.generator(), u));
}

/// The all-zero word satisfies every parity check.
pub proof fn lemma_zero_word_is_codeword<const M: usize, const N: usize>(dec: LdpcDecoder<M, N>)
    requires
        dec.wf(),
    ensures
        dec.is_codeword(zeros(N as nat)),
{
    dec.lemma_adjacency_bounds();
    assert forall|i: int| 0 <= i < M implies #[trigger] dec.syndrome(zeros(N as nat))[i] == 0u8 by {
        let cols = dec.row_support(i);
        lemma_xor_sum_zero(cols.len() as int, |k: int| zeros(N as nat)[cols[k] as int]);
    }
    assert(dec.syndrome(zeros(N as nat)) =~= zeros(M as nat));
}

/// A zero syndrome gives every bit zero votes.
pub proof fn lemma_zero_syndrome_no_votes<const M: usize, const N: usize>(
    dec: LdpcDecoder<M, N>,
    j: int,
)
    requires
        dec.wf(),
        0 <= j < N,
    ensures
        dec.votes(j, zeros(M as nat)) == 0,
{
    dec.lemma_adjacency_bounds();
    lemma_count_zero(dec.col_support(j), M as nat, dec.col_support(j).len() as int);
}

/// With at most 65535 check rows no WBF score overflows 32 bits, so every
/// word meets the score bound of `iterate_wbf` and `iterate_bitflip`.
pub proof fn lemma_wbf_scores_fit<const M: usize, const N: usize>(
    dec: LdpcDecoder<M, N>,
    bits: Seq<u8>,
)
    requires
        dec.wf(),
        M <= 65535,
    ensures
        forall|j: int| 0 <= j < N ==> #[trigger] dec.wbf_score(j, dec.syndrome(bits)) <= u32::MAX,
{
    assert forall|j: int| 0 <= j < N implies #[trigger] dec.wbf_score(j, dec.syndrome(bits))
        <= u32::MAX by {
        lemma_wbf_score_bounded(dec, j, dec.syndrome(bits));
        assert(65536 * M <= 65536 * 65535) by (nonlinear_arith)
            requires
                M <= 65535,
        ;
    }
}

/// A bit never has more unsatisfied checks than checks; so when no column
/// has more than 255 ones, the vote bounds of the Gallager steps and of
/// `get_score` hold for every syndrome.
pub proof fn lemma_votes_at_most_degree<const M: usize, const N: usize>(
    dec: LdpcDecoder<M, N>,
    j: int,
    sn: Seq<u8>,
)
    requires
        dec.wf(),
        0 <= j < N,
    ensures
        dec.votes(j, sn) <= dec.col_support(j).len(),
{
    lemma_count_bounded(dec.col_support(j), sn, dec.col_support(j).len() as int);
}

/// A bit never has more unsatisfied checks than there are check rows; so
/// with at most 255 rows the vote bounds of the Gallager steps and of
/// `get_score` always hold.
pub proof fn lemma_votes_bounded<const M: usize, const N: usize>(
    dec: LdpcDecoder<M, N>,
    j: int,
    sn: Seq<u8>,
)
    requires
        dec.wf(),
        0 <= j < N,
    ensures
        dec.votes(j, sn) <= M,
{
    dec.lemma_adjacency_bounds();
    lemma_count_bounded(dec.col_support(j), sn, dec.col_support(j).len() as int);
}

/// A WBF score never exceeds `65536` times the number of check rows.
pub proof fn lemma_wbf_score_bounded<const M: usize, const N: usize>(
    dec: LdpcDecoder<M, N>,
    j: int,
    sn: Seq<u8>,
)
    requires
        dec.wf(),
        0 <= j < N,
    ensures
        dec.wbf_score(j, sn) <= 65536 * M,
{
    dec.lemma_adjacency_bounds();
    let col = dec.col_support(j);
    let n = col.len() as int;
    assert forall|k: int| 0 <= k < n implies #[trigger] dec.check_weights()[col[k] as int] <= 65536 by {
        assert(col[k] < M);
    }
    lemma_weigh_bounded(col, sn, dec.check_weights(), n, 65536);
    assert(n * 65536 <= M * 65536) by (nonlinear_arith)
        requires
            n <= M,
    ;
}

/// The syndrome of a binary word is binary.
pub proof fn lemma_syndrome_binary<const M: usize, const N: usize>(
    dec: LdpcDecoder<M, N>,
    bits: Seq<u8>,
)
    requires
        dec.wf(),
        bits.len() == N,
        is_binary(bits),
    ensures
        is_binary(dec.syndrome(bits)),
        dec.syndrome(bits).len() == M,
{
    dec.lemma_adjacency_bounds();
    assert forall|i: int| 0 <= i < M implies #[trigger] dec.syndrome(bits)[i] <= 1 by {
        let cols = dec.row_support(i);
        assert forall|k: int| 0 <= k < cols.len() implies #[trigger] bits[cols[k] as int] <= 1 by {
            assert(cols[k] < N);
        }
        lemma_xor_sum_binary(cols.len() as int, |k: int| bits[cols[k] as int]);
    }
}

proof fn lemma_count_zero(idxs: Seq<usize>, m: nat, n: int)
    requires
        0 <= n <= idxs.len(),
        forall|k: int| 0 <= k < idxs.len() ==> #[trigger] idxs[k] < m,
    ensures
        count_flagged(idxs, zeros(m), n) == 0,
    decreases n,
{
    if n > 0 {
        lemma_count_zero(idxs, m, n - 1);
    }
}

/// A single bit error on the all-zero codeword is detected whenever the bit
/// takes part in at least one check: exactly the checks of its column fail.
pub proof fn lemma_single_error_detected<const M: usize, const N: usize>(
    dec: LdpcDecoder<M, N>,
    j: int,
)
    requires
        dec.wf(),
        0 <= j < N,
    ensures
        dec.syndrome(zeros(N as nat).update(j, 1u8)) == Seq::new(
            M as nat,
            |i: int| if dec.matrix()[i][j] == 1 { 1u8 } else { 0u8 },
        ),
        dec.col_support(j).len() > 0 ==> !dec.is_codeword(zeros(N as nat).update(j, 1u8)),
{
    dec.lemma_adjacency_bounds();
    let bits = zeros(N as nat).update(j, 1u8);
    let expect = Seq::new(M as nat, |i: int| if dec.matrix()[i][j] == 1 { 1u8 } else { 0u8 });
    assert forall|i: int| 0 <= i < M implies #[trigger] dec.syndrome(bits)[i] == expect[i] by {
        let row = dec.matrix()[i];
        let cols = dec.row_support(i);
        let g = |k: int| bits[cols[k] as int];
        assert(row.len() == N);
        lemma_support_prefix(row, N as int);
        if row[j] == 1 {
            assert(cols.contains(j as usize));
            let p = choose|p: int| 0 <= p < cols.len() && cols[p] == j as usize;
            assert forall|k: int| 0 <= k < cols.len() && k != p implies #[trigger] g(k) == 0 by {
                assert(cols[k] != cols[p]) by {
                    if k < p {
                        assert(cols[k] < cols[p]);
                    } else {
                        assert(cols[p] < cols[k]);
                    }
                }
            }
            lemma_xor_sum_single(cols.len() as int, g, p);
        } else {
            assert forall|k: int| 0 <= k < cols.len() implies #[trigger] g(k) == 0 by {
                if cols[k] == j as usize {
                    assert(cols.contains(j as usize));
                }
            }
            lemma_xor_sum_zero(cols.len() as int, g);
        }
    }
    assert(dec.syndrome(bits) =~= expect);
    if dec.col_support(j).len() > 0 {
        let col = column(dec.matrix(), j);
        lemma_support_prefix(col, M as int);
        let i = dec.col_support(j)[0] as int;
        assert(dec.col_support(j).contains(i as usize));
        assert(col[i] == 1);
        assert(dec.syndrome(bits)[i] != zeros(M as nat)[i]);
    }
}

} // verus!
