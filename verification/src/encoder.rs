//! Systematic encoding for an `M x N` parity-check matrix `H = [A | B]`
//! (with `N == 2 * M`): a message `u` of `M` bits becomes the codeword
//! `[u | P u]`, where `P = B^-1 A` over GF(2).
use vstd::prelude::*;
use crate::gf2::{
    column_block, dot, identity, is_binary, is_binary_matrix, lemma_dot_xor_rows,
    lemma_dot_xor_vectors, lemma_dot_zeros, lemma_identity_mat_vec, lemma_mat_mul_vec,
    lemma_mat_vec_binary, lemma_u8_xor_facts, lemma_xor_sum_add, lemma_xor_sum_binary,
    lemma_xor_sum_ext, lemma_xor_sum_single, lemma_xor_sum_split, lemma_xor_sum_zero, mat_mul,
    mat_vec, xor_rows, xor_sum, zeros,
};

verus! {

/// The rows of a two-dimensional array, as sequences.
pub open spec fn rows_of<const R: usize, const C: usize>(a: [[u8; C]; R]) -> Seq<Seq<u8>> {
    Seq::new(R as nat, |i: int| a@[i]@)
}

/// `b` is invertible over GF(2): only the zero vector maps to zero.
pub open spec fn is_invertible(b: Seq<Seq<u8>>, n: nat) -> bool {
    forall|x: Seq<u8>|
        x.len() == n && is_binary(x) && #[trigger] mat_vec(b, x) == zeros(n) ==> x == zeros(n)
}

/// `inv` is a right inverse of `b` on binary vectors: `b (inv y) == y`.
pub open spec fn is_right_inverse(b: Seq<Seq<u8>>, inv: Seq<Seq<u8>>, n: nat) -> bool {
    forall|y: Seq<u8>|
        y.len() == n && is_binary(y) ==> #[trigger] mat_vec(b, mat_vec(inv, y)) == y
}

/// The systems `b x == y` and `a x == inv y` agree on `(x, y)`.
pub open spec fn systems_agree(
    b: Seq<Seq<u8>>,
    a: Seq<Seq<u8>>,
    inv: Seq<Seq<u8>>,
    x: Seq<u8>,
    y: Seq<u8>,
) -> bool {
    (mat_vec(b, x) == y) == (mat_vec(a, x) == mat_vec(inv, y))
}

/// The systems `b x == y` and `a x == inv y` have the same binary solutions.
pub open spec fn same_solutions(
    b: Seq<Seq<u8>>,
    a: Seq<Seq<u8>>,
    inv: Seq<Seq<u8>>,
    n: nat,
) -> bool {
    forall|x: Seq<u8>, y: Seq<u8>|
        x.len() == n && y.len() == n && is_binary(x) && is_binary(y) ==> #[trigger] systems_agree(
            b,
            a,
            inv,
            x,
            y,
        )
}

/// Columns `0 .. col` of `a` are the corresponding columns of the identity.
pub open spec fn unit_columns(a: Seq<Seq<u8>>, col: int, n: nat) -> bool {
    forall|r: int, c: int| 0 <= r < n && 0 <= c < col ==> #[trigger] a[r][c] == if r == c {
        1u8
    } else {
        0u8
    }
}

/// The message block `A` of a parity-check matrix with `m` rows.
pub open spec fn message_block(h: Seq<Seq<u8>>, m: nat) -> Seq<Seq<u8>> {
    column_block(h, 0, m as int)
}

/// The parity block `B` of a parity-check matrix with `m` rows.
pub open spec fn parity_block(h: Seq<Seq<u8>>, m: nat) -> Seq<Seq<u8>> {
    column_block(h, m as int, 2 * m as int)
}

/// `p` generates the parity bits of `h`: `B (p u) == A u` for every binary `u`.
pub open spec fn generates_parity(h: Seq<Seq<u8>>, p: Seq<Seq<u8>>, m: nat) -> bool {
    forall|u: Seq<u8>|
        u.len() == m && is_binary(u) ==> #[trigger] mat_vec(parity_block(h, m), mat_vec(p, u))
            == mat_vec(message_block(h, m), u)
}

/// The systematic codeword of message `u` under parity generator `p`.
pub open spec fn systematic_codeword(p: Seq<Seq<u8>>, u: Seq<u8>) -> Seq<u8> {
    u + mat_vec(p, u)
}

proof fn lemma_xor_cancel(ur: u8, uc: u8, wr: u8, wc: u8)
    by (bit_vector)
    requires
        uc == wc,
    ensures
        ((ur ^ uc) == (wr ^ wc)) == (ur == wr),
{
}

/// Adding row `c` to row `r` of both `a` and `inv` keeps the solutions.
proof fn lemma_add_row_keeps_solutions(
    b: Seq<Seq<u8>>,
    a: Seq<Seq<u8>>,
    inv: Seq<Seq<u8>>,
    n: nat,
    r: int,
    c: int,
)
    requires
        same_solutions(b, a, inv, n),
        a.len() == n,
        inv.len() == n,
        forall|i: int| 0 <= i < n ==> (#[trigger] a[i]).len() == n && inv[i].len() == n,
        0 <= r < n,
        0 <= c < n,
        r != c,
    ensures
        same_solutions(
            b,
            a.update(r, xor_rows(a[r], a[c])),
            inv.update(r, xor_rows(inv[r], inv[c])),
            n,
        ),
{
    let a2 = a.update(r, xor_rows(a[r], a[c]));
    let inv2 = inv.update(r, xor_rows(inv[r], inv[c]));
    assert forall|x: Seq<u8>, y: Seq<u8>|
        x.len() == n && y.len() == n && is_binary(x) && is_binary(y) implies #[trigger] systems_agree(
        b,
        a2,
        inv2,
        x,
        y,
    ) by {
        assert(systems_agree(b, a, inv, x, y));
        let u = mat_vec(a, x);
        let w = mat_vec(inv, y);
        lemma_dot_xor_rows(a[r], a[c], x);
        lemma_dot_xor_rows(inv[r], inv[c], y);
        assert(mat_vec(a2, x) =~= u.update(r, u[r] ^ u[c]));
        assert(mat_vec(inv2, y) =~= w.update(r, w[r] ^ w[c]));
        if u == w {
            assert(mat_vec(a2, x) =~= mat_vec(inv2, y));
        }
        if mat_vec(a2, x) == mat_vec(inv2, y) {
            assert(mat_vec(a2, x)[c] == mat_vec(inv2, y)[c]);
            assert(mat_vec(a2, x)[r] == mat_vec(inv2, y)[r]);
            lemma_xor_cancel(u[r], u[c], w[r], w[c]);
            assert forall|i: int| 0 <= i < n implies u[i] == w[i] by {
                assert(mat_vec(a2, x)[i] == mat_vec(inv2, y)[i]);
            }
            assert(u =~= w);
        }
    }
}

/// Swapping rows `c` and `p` of both `a` and `inv` keeps the solutions.
proof fn lemma_swap_rows_keeps_solutions(
    b: Seq<Seq<u8>>,
    a: Seq<Seq<u8>>,
    inv: Seq<Seq<u8>>,
    n: nat,
    c: int,
    p: int,
)
    requires
        same_solutions(b, a, inv, n),
        a.len() == n,
        inv.len() == n,
        0 <= c < n,
        0 <= p < n,
    ensures
        same_solutions(
            b,
            a.update(c, a[p]).update(p, a[c]),
            inv.update(c, inv[p]).update(p, inv[c]),
            n,
        ),
{
    let a2 = a.update(c, a[p]).update(p, a[c]);
    let inv2 = inv.update(c, inv[p]).update(p, inv[c]);
    assert forall|x: Seq<u8>, y: Seq<u8>|
        x.len() == n && y.len() == n && is_binary(x) && is_binary(y) implies #[trigger] systems_agree(
        b,
        a2,
        inv2,
        x,
        y,
    ) by {
        assert(systems_agree(b, a, inv, x, y));
        let u = mat_vec(a, x);
        let w = mat_vec(inv, y);
        assert(mat_vec(a2, x) =~= u.update(c, u[p]).update(p, u[c]));
        assert(mat_vec(inv2, y) =~= w.update(c, w[p]).update(p, w[c]));
        if u == w {
            assert(mat_vec(a2, x) =~= mat_vec(inv2, y));
        }
        if mat_vec(a2, x) == mat_vec(inv2, y) {
            assert forall|i: int| 0 <= i < n implies u[i] == w[i] by {
                if i == c {
                    assert(mat_vec(a2, x)[p] == mat_vec(inv2, y)[p]);
                } else if i == p {
                    assert(mat_vec(a2, x)[c] == mat_vec(inv2, y)[c]);
                } else {
                    assert(mat_vec(a2, x)[i] == mat_vec(inv2, y)[i]);
                }
            }
            assert(u =~= w);
        }
    }
}

/// When no row at or below `col` has a 1 in column `col`, `b` is singular.
proof fn lemma_no_pivot_means_singular(
    b: Seq<Seq<u8>>,
    a: Seq<Seq<u8>>,
    inv: Seq<Seq<u8>>,
    n: nat,
    col: int,
)
    requires
        same_solutions(b, a, inv, n),
        is_binary_matrix(a, n, n),
        inv.len() == n,
        forall|i: int| 0 <= i < n ==> (#[trigger] inv[i]).len() == n,
        0 <= col < n,
        unit_columns(a, col, n),
        forall|r: int| col <= r < n ==> #[trigger] a[r][col] == 0,
    ensures
        !is_invertible(b, n),
{
    let x = Seq::new(n, |k: int| if k < col { a[k][col] } else if k == col { 1u8 } else { 0u8 });
    assert(is_binary(x)) by {
        assert forall|k: int| 0 <= k < n implies #[trigger] x[k] <= 1 by {
            if k < col {
                assert(is_binary(a[k]));
            }
        }
    }
    assert forall|r: int| 0 <= r < n implies #[trigger] mat_vec(a, x)[r] == 0u8 by {
        let f = |k: int| a[r][k] & x[k];
        if r < col {
            let f1 = |k: int| if k == r { f(k) } else { 0u8 };
            let f2 = |k: int| if k == r { 0u8 } else { f(k) };
            assert forall|k: int| 0 <= k < n implies #[trigger] f(k) == (f1(k) ^ f2(k)) by {
                lemma_u8_xor_facts(f(k), 0, 0, 0);
            }
            lemma_xor_sum_ext(n as int, f, |k: int| f1(k) ^ f2(k));
            lemma_xor_sum_add(n as int, f1, f2);
            assert forall|k: int| 0 <= k < n && k != r implies #[trigger] f1(k) == 0 by {}
            lemma_xor_sum_single(n as int, f1, r);
            assert forall|k: int| 0 <= k < n && k != col implies #[trigger] f2(k) == 0 by {
                if k != r && k < col {
                    assert(a[r][k] == 0);
                    lemma_u8_xor_facts(x[k], 0, 0, 0);
                } else if k > col {
                    lemma_u8_xor_facts(a[r][k], 0, 0, 0);
                }
            }
            lemma_xor_sum_single(n as int, f2, col);
            assert(is_binary(a[r]));
            assert(a[r][r] == 1u8);
            lemma_u8_xor_facts(a[r][col], a[r][col], 0, 0);
        } else {
            assert forall|k: int| 0 <= k < n implies #[trigger] f(k) == 0 by {
                if k < col {
                    assert(a[r][k] == 0);
                    lemma_u8_xor_facts(x[k], 0, 0, 0);
                } else if k == col {
                    lemma_u8_xor_facts(1u8, 0, 0, 0);
                } else {
                    lemma_u8_xor_facts(a[r][k], 0, 0, 0);
                }
            }
            lemma_xor_sum_zero(n as int, f);
        }
    }
    assert(mat_vec(a, x) =~= zeros(n));
    assert forall|i: int| 0 <= i < n implies #[trigger] mat_vec(inv, zeros(n))[i] == 0u8 by {
        lemma_dot_zeros(inv[i], n);
    }
    assert(mat_vec(inv, zeros(n)) =~= zeros(n));
    assert(is_binary(zeros(n)));
    assert(systems_agree(b, a, inv, x, zeros(n)));
    assert(mat_vec(b, x) == zeros(n));
    assert(x[col] != zeros(n)[col]);
}

/// Once `a` is the identity, `inv` is a right inverse of `b`.
proof fn lemma_identity_gives_inverse(b: Seq<Seq<u8>>, a: Seq<Seq<u8>>, inv: Seq<Seq<u8>>, n: nat)
    requires
        same_solutions(b, a, inv, n),
        is_binary_matrix(a, n, n),
        is_binary_matrix(inv, n, n),
        unit_columns(a, n as int, n),
    ensures
        is_right_inverse(b, inv, n),
        is_invertible(b, n),
{
    assert(a =~= identity(n)) by {
        assert forall|r: int| 0 <= r < n implies #[trigger] a[r] =~= identity(n)[r] by {}
    }
    assert forall|i: int| 0 <= i < n implies #[trigger] mat_vec(inv, zeros(n))[i] == 0u8 by {
        lemma_dot_zeros(inv[i], n);
    }
    assert(mat_vec(inv, zeros(n)) =~= zeros(n));
    assert(is_binary(zeros(n)));
    assert forall|x: Seq<u8>|
        x.len() == n && is_binary(x) && #[trigger] mat_vec(b, x) == zeros(n) implies x == zeros(n) by {
        assert(systems_agree(b, a, inv, x, zeros(n)));
        lemma_identity_mat_vec(x, n);
    }
    assert forall|y: Seq<u8>| y.len() == n && is_binary(y) implies #[trigger] mat_vec(
        b,
        mat_vec(inv, y),
    ) == y by {
        let x = mat_vec(inv, y);
        lemma_mat_vec_binary(inv, y, n, n);
        assert(systems_agree(b, a, inv, x, y));
        lemma_identity_mat_vec(x, n);
    }
}

/// Every systematic codeword of a binary message passes all parity checks of
/// the matrix the encoder was built from, and is itself binary.
pub proof fn lemma_encoding_passes_parity_checks<const M: usize, const N: usize>(
    enc: LdpcEncoder<M, N>,
    u: Seq<u8>,
)
    requires
        enc.wf(),
        u.len() == M,
        is_binary(u),
    ensures
        mat_vec(enc.matrix(), systematic_codeword(enc.generator(), u)) == zeros(M as nat),
        systematic_codeword(enc.generator(), u).len() == N,
        is_binary(systematic_codeword(enc.generator(), u)),
        is_binary_matrix(enc.matrix(), M as nat, N as nat),
{
    let h = enc.matrix();
    let pm = enc.generator();
    let m = M as int;
    let p = mat_vec(pm, u);
    let cw = systematic_codeword(pm, u);
    let a = message_block(h, M as nat);
    let b = parity_block(h, M as nat);
    lemma_mat_vec_binary(pm, u, M as nat, M as nat);
    assert(mat_vec(b, p) == mat_vec(a, u));
    assert forall|i: int| 0 <= i < M implies #[trigger] mat_vec(h, cw)[i] == 0u8 by {
        let f = |k: int| h[i][k] & cw[k];
        lemma_xor_sum_split(m, m, f);
        assert(h[i].len() == N);
        lemma_xor_sum_ext(m, f, |k: int| a[i][k] & u[k]);
        lemma_xor_sum_ext(m, |k: int| f(k + m), |k: int| b[i][k] & p[k]);
        assert(mat_vec(b, p)[i] == mat_vec(a, u)[i]);
        lemma_u8_xor_facts(dot(a[i], u), 0, 0, 0);
    }
    assert(mat_vec(h, cw) =~= zeros(M as nat));
    assert(is_binary(cw)) by {
        assert forall|k: int| 0 <= k < cw.len() implies #[trigger] cw[k] <= 1 by {
            if k >= m {
                assert(cw[k] == p[k - m]);
            }
        }
    }
}

/// Encoding is linear over GF(2): the codeword of `u ^ v` is the XOR of
/// the codewords of `u` and `v`.
pub proof fn lemma_encoding_is_linear<const M: usize, const N: usize>(
    enc: LdpcEncoder<M, N>,
    u: Seq<u8>,
    v: Seq<u8>,
)
    requires
        enc.wf(),
        u.len() == M,
        v.len() == M,
    ensures
        systematic_codeword(enc.generator(), xor_rows(u, v)) == xor_rows(
            systematic_codeword(enc.generator(), u),
            systematic_codeword(enc.generator(), v),
        ),
{
    let p = enc.generator();
    let lhs = systematic_codeword(p, xor_rows(u, v));
    let rhs = xor_rows(systematic_codeword(p, u), systematic_codeword(p, v));
    assert forall|k: int| 0 <= k < 2 * M implies #[trigger] lhs[k] == rhs[k] by {
        if k >= M {
            lemma_dot_xor_vectors(p[k - M], u, v);
        }
    }
    assert(lhs =~= rhs);
}

/// The all-zero message encodes to the all-zero codeword.
pub proof fn lemma_zero_message_encodes_to_zero<const M: usize, const N: usize>(
    enc: LdpcEncoder<M, N>,
)
    requires
        enc.wf(),
    ensures
        systematic_codeword(enc.generator(), zeros(M as nat)) == zeros(N as nat),
{
    let p = enc.generator();
    assert forall|i: int| 0 <= i < M implies #[trigger] mat_vec(p, zeros(M as nat))[i] == 0u8 by {
        lemma_dot_zeros(p[i], M as nat);
    }
    assert(systematic_codeword(p, zeros(M as nat)) =~= zeros(N as nat));
}

/// The sum of row `r` with row `s`, entry by entry.
fn xor_row<const M: usize>(r: &[u8; M], s: &[u8; M]) -> (out: [u8; M])
    ensures
        out@ == xor_rows(r@, s@),
{
    let mut out = *r;
    let mut k: usize = 0;
    while k < M
        invariant
            k <= M,
            out@.len() == M,
            forall|t: int| 0 <= t < k ==> #[trigger] out@[t] == r@[t] ^ s@[t],
            forall|t: int| k <= t < M ==> #[trigger] out@[t] == r@[t],
        decreases M - k,
    {
        out[k] = out[k] ^ s[k];
        k = k + 1;
    }
    assert(out@ =~= xor_rows(r@, s@));
    out
}

/// The GF(2) inner product of `r` and `x`.
fn dot_row<const M: usize>(r: &[u8; M], x: &[u8; M]) -> (d: u8)
    ensures
        d == dot(r@, x@),
{
    let mut sum: u8 = 0;
    let mut k: usize = 0;
    while k < M
        invariant
            k <= M,
            sum == xor_sum(k as int, |t: int| r@[t] & x@[t]),
        decreases M - k,
    {
        sum = sum ^ (r[k] & x[k]);
        k = k + 1;
    }
    sum
}

/// A CCSDS-style systematic LDPC encoder for an `M x N` parity-check matrix.
pub struct LdpcEncoder<const M: usize, const N: usize> {
    /// Parity generator matrix `P` (`M x M`).
    parity_generator: [[u8; M]; M],
    h: Ghost<Seq<Seq<u8>>>,
}

impl<const M: usize, const N: usize> LdpcEncoder<M, N> {
    /// The parity-check matrix the encoder was built from.
    pub closed spec fn matrix(&self) -> Seq<Seq<u8>> {
        self.h@
    }

    /// The parity generator `P`.
    pub closed spec fn generator(&self) -> Seq<Seq<u8>> {
        rows_of(self.parity_generator)
    }

    /// The encoder's invariant: `P` is binary and generates the parity of `H`.
    pub closed spec fn wf(&self) -> bool {
        &&& N == 2 * M
        &&& is_binary_matrix(self.h@, M as nat, N as nat)
        &&& is_binary_matrix(self.generator(), M as nat, M as nat)
        &&& generates_parity(self.h@, self.generator(), M as nat)
    }

    /// Builds the encoder of `h = [A | B]`, computing `P = B^-1 A`.
    pub fn new(h: &[[u8; N]; M]) -> (enc: Self)
        requires
            N == 2 * M,
            is_binary_matrix(rows_of(*h), M as nat, N as nat),
            is_invertible(parity_block(rows_of(*h), M as nat), M as nat),
        ensures
            enc.wf(),
            enc.matrix() == rows_of(*h),
    {
        let parity_generator = Self::compute_generator_matrix(h).unwrap();
        LdpcEncoder { parity_generator, h: Ghost(rows_of(*h)) }
    }

    /// Builds the encoder of `h` when `N == 2 * M`, every entry of `h` is 0
    /// or 1 and the parity block `B` is invertible; otherwise returns `None`.
    pub fn try_new(h: &[[u8; N]; M]) -> (res: Option<Self>)
        ensures
            (res is Some) == (N == 2 * M && is_binary_matrix(rows_of(*h), M as nat, N as nat)
                && is_invertible(parity_block(rows_of(*h), M as nat), M as nat)),
            res matches Some(enc) ==> enc.wf() && enc.matrix() == rows_of(*h),
    {
        if N % 2 != 0 || N / 2 != M {
            return None;
        }
        let ghost hv = rows_of(*h);
        let mut i: usize = 0;
        while i < M
            invariant
                hv == rows_of(*h),
                i <= M,
                forall|r: int| 0 <= r < i ==> is_binary(#[trigger] hv[r]),
            decreases M - i,
        {
            let row = h[i];
            let mut j: usize = 0;
            while j < N
                invariant
                    hv == rows_of(*h),
                    i < M,
                    row@ == hv[i as int],
                    j <= N,
                    forall|t: int| 0 <= t < j ==> #[trigger] row@[t] <= 1,
                decreases N - j,
            {
                if row[j] > 1 {
                    assert(hv[i as int][j as int] > 1);
                    assert(!is_binary(hv[i as int]));
                    return None;
                }
                j = j + 1;
            }
            i = i + 1;
        }
        match Self::compute_generator_matrix(h) {
            Some(parity_generator) => Some(LdpcEncoder { parity_generator, h: Ghost(hv) }),
            None => None,
        }
    }

    /// Facts of the invariant that callers may use: the shape and binarity
    /// of the matrix and of the generator.
    pub proof fn lemma_shapes(&self)
        requires
            self.wf(),
        ensures
            N == 2 * M,
            is_binary_matrix(self.matrix(), M as nat, N as nat),
            is_binary_matrix(self.generator(), M as nat, M as nat),
            generates_parity(self.matrix(), self.generator(), M as nat),
    {
    }

    /// Encodes an `M`-bit message into the `N`-bit systematic codeword `[u | P u]`.
    pub fn encode(&self, message: &[u8; M]) -> (cw: [u8; N])
        requires
            self.wf(),
        ensures
            cw@ == systematic_codeword(self.generator(), message@),
    {
        let mut cw = [0u8; N];
        let mut j: usize = 0;
        while j < M
            invariant
                N == 2 * M,
                j <= M,
                cw@.len() == N,
                forall|t: int| 0 <= t < j ==> #[trigger] cw@[t] == message@[t],
            decreases M - j,
        {
            cw[j] = message[j];
            j = j + 1;
        }
        let mut i: usize = 0;
        while i < M
            invariant
                self.wf(),
                N == 2 * M,
                i <= M,
                cw@.len() == N,
                forall|t: int| 0 <= t < M ==> #[trigger] cw@[t] == message@[t],
                forall|t: int| 0 <= t < i ==> #[trigger] cw@[M + t] == dot(
                    self.generator()[t],
                    message@,
                ),
            decreases M - i,
        {
            let row = self.parity_generator[i];
            let bit = dot_row(&row, message);
            cw[M + i] = bit;
            i = i + 1;
        }
        assert forall|k: int| M <= k < N implies #[trigger] cw@[k] == systematic_codeword(
            self.generator(),
            message@,
        )[k] by {
            assert(cw@[M + (k - M)] == dot(self.generator()[k - M], message@));
        }
        assert(cw@ =~= systematic_codeword(self.generator(), message@));
        cw
    }

    /// Computes `P = B^-1 A` over GF(2), where `h = [A | B]`.
    /// Returns `None` exactly when `B` is singular.
    fn compute_generator_matrix(h: &[[u8; N]; M]) -> (res: Option<[[u8; M]; M]>)
        requires
            N == 2 * M,
            is_binary_matrix(rows_of(*h), M as nat, N as nat),
        ensures
            (res is Some) == is_invertible(parity_block(rows_of(*h), M as nat), M as nat),
            res matches Some(p) ==> is_binary_matrix(rows_of(p), M as nat, M as nat)
                && generates_parity(rows_of(*h), rows_of(p), M as nat),
    {
        let ghost hv = rows_of(*h);
        let mut a = [[0u8; M]; M];
        let mut b = [[0u8; M]; M];
        let mut i: usize = 0;
        while i < M
            invariant
                N == 2 * M,
                hv == rows_of(*h),
                i <= M,
                forall|r: int| 0 <= r < i ==> #[trigger] a@[r]@ == message_block(hv, M as nat)[r],
                forall|r: int| 0 <= r < i ==> #[trigger] b@[r]@ == parity_block(hv, M as nat)[r],
            decreases M - i,
        {
            let row = h[i];
            let mut ra = [0u8; M];
            let mut rb = [0u8; M];
            let mut k: usize = 0;
            while k < M
                invariant
                    N == 2 * M,
                    k <= M,
                    row@.len() == N,
                    forall|t: int| 0 <= t < k ==> #[trigger] ra@[t] == row@[t],
                    forall|t: int| 0 <= t < k ==> #[trigger] rb@[t] == row@[M + t],
                decreases M - k,
            {
                ra[k] = row[k];
                rb[k] = row[M + k];
                k = k + 1;
            }
            assert(ra@ =~= message_block(hv, M as nat)[i as int]);
            assert(rb@ =~= parity_block(hv, M as nat)[i as int]);
            a[i] = ra;
            b[i] = rb;
            i = i + 1;
        }
        assert(rows_of(a) =~= message_block(hv, M as nat));
        assert(rows_of(b) =~= parity_block(hv, M as nat));
        assert(is_binary_matrix(rows_of(b), M as nat, M as nat)) by {
            assert forall|r: int| 0 <= r < M implies is_binary(#[trigger] rows_of(b)[r]) by {
                assert(is_binary(hv[r]));
                assert forall|t: int| 0 <= t < M implies #[trigger] rows_of(b)[r][t] <= 1 by {
                    assert(rows_of(b)[r][t] == hv[r][M + t]);
                }
            }
        }
        let b_inv = match Self::invert_gf2(&b) {
            Some(b_inv) => b_inv,
            None => {
                return None;
            },
        };
        let mut p = [[0u8; M]; M];
        let mut i: usize = 0;
        while i < M
            invariant
                i <= M,
                forall|r: int| 0 <= r < i ==> #[trigger] p@[r]@ == mat_mul(
                    rows_of(b_inv),
                    rows_of(a),
                    M as nat,
                )[r],
            decreases M - i,
        {
            let mut prow = [0u8; M];
            let mut j: usize = 0;
            while j < M
                invariant
                    i < M,
                    j <= M,
                    forall|t: int| 0 <= t < j ==> #[trigger] prow@[t] == mat_mul(
                        rows_of(b_inv),
                        rows_of(a),
                        M as nat,
                    )[i as int][t],
                decreases M - j,
            {
                let mut sum: u8 = 0;
                let mut k: usize = 0;
                while k < M
                    invariant
                        i < M,
                        j < M,
                        k <= M,
                        sum == xor_sum(
                            k as int,
                            |t: int| rows_of(b_inv)[i as int][t] & rows_of(a)[t][j as int],
                        ),
                    decreases M - k,
                {
                    sum = sum ^ (b_inv[i][k] & a[k][j]);
                    k = k + 1;
                }
                prow[j] = sum;
                j = j + 1;
            }
            assert(prow@ =~= mat_mul(rows_of(b_inv), rows_of(a), M as nat)[i as int]);
            p[i] = prow;
            i = i + 1;
        }
        assert(rows_of(p) =~= mat_mul(rows_of(b_inv), rows_of(a), M as nat));
        proof {
            let pv = rows_of(p);
            let av = rows_of(a);
            let ev = rows_of(b_inv);
            let bv = rows_of(b);
            assert forall|u: Seq<u8>| u.len() == M && is_binary(u) implies #[trigger] mat_vec(
                parity_block(hv, M as nat),
                mat_vec(pv, u),
            ) == mat_vec(message_block(hv, M as nat), u) by {
                lemma_mat_mul_vec(ev, av, u, M as nat);
                lemma_mat_vec_binary(av, u, M as nat, M as nat);
                assert(mat_vec(bv, mat_vec(ev, mat_vec(av, u))) == mat_vec(av, u));
            }
            assert forall|r: int| 0 <= r < M implies is_binary(#[trigger] pv[r]) by {
                assert forall|t: int| 0 <= t < M implies #[trigger] pv[r][t] <= 1 by {
                    assert forall|k: int| 0 <= k < M implies #[trigger] (ev[r][k] & av[k][t])
                        <= 1 by {
                        assert(is_binary(av[k]));
                        lemma_u8_xor_facts(av[k][t], ev[r][k], 0, 0);
                    }
                    lemma_xor_sum_binary(M as int, |k: int| ev[r][k] & av[k][t]);
                }
            }
        }
        Some(p)
    }

    /// Inverts an `M x M` matrix over GF(2) by Gauss-Jordan elimination.
    /// Returns `None` exactly when the matrix is singular.
    fn invert_gf2(mat: &[[u8; M]; M]) -> (res: Option<[[u8; M]; M]>)
        requires
            is_binary_matrix(rows_of(*mat), M as nat, M as nat),
        ensures
            (res is Some) == is_invertible(rows_of(*mat), M as nat),
            res matches Some(inv) ==> is_binary_matrix(rows_of(inv), M as nat, M as nat)
                && is_right_inverse(rows_of(*mat), rows_of(inv), M as nat),
    {
        let ghost bv = rows_of(*mat);
        let mut a = *mat;
        let mut inv = [[0u8; M]; M];
        let mut i: usize = 0;
        while i < M
            invariant
                i <= M,
                forall|r: int| 0 <= r < M ==> #[trigger] inv@[r]@ == if r < i {
                    identity(M as nat)[r]
                } else {
                    zeros(M as nat)
                },
            decreases M - i,
        {
            let mut row = inv[i];
            row[i] = 1;
            assert(row@ =~= identity(M as nat)[i as int]);
            inv[i] = row;
            i = i + 1;
        }
        proof {
            assert(rows_of(inv) =~= identity(M as nat));
            assert(rows_of(a) == bv);
            assert forall|x: Seq<u8>, y: Seq<u8>|
                x.len() == M && y.len() == M && is_binary(x) && is_binary(
                    y,
                ) implies #[trigger] systems_agree(bv, bv, identity(M as nat), x, y) by {
                lemma_identity_mat_vec(y, M as nat);
            }
        }
        let mut col: usize = 0;
        while col < M
            invariant
                col <= M,
                bv == rows_of(*mat),
                is_binary_matrix(bv, M as nat, M as nat),
                is_binary_matrix(rows_of(a), M as nat, M as nat),
                is_binary_matrix(rows_of(inv), M as nat, M as nat),
                same_solutions(bv, rows_of(a), rows_of(inv), M as nat),
                unit_columns(rows_of(a), col as int, M as nat),
            decreases M - col,
        {
            // Find a pivot.
            let mut pivot = col;
            while pivot < M && a[pivot][col] == 0
                invariant
                    col < M,
                    col <= pivot <= M,
                    forall|r: int| col <= r < pivot ==> #[trigger] a@[r]@[col as int] == 0,
                decreases M - pivot,
            {
                pivot = pivot + 1;
            }
            if pivot >= M {
                proof {
                    lemma_no_pivot_means_singular(
                        bv,
                        rows_of(a),
                        rows_of(inv),
                        M as nat,
                        col as int,
                    );
                    assert(!is_invertible(rows_of(*mat), M as nat));
                }
                return None;
            }
            // Swap rows.
            if pivot != col {
                proof {
                    lemma_swap_rows_keeps_solutions(
                        bv,
                        rows_of(a),
                        rows_of(inv),
                        M as nat,
                        col as int,
                        pivot as int,
                    );
                }
                let ghost a0 = rows_of(a);
                let ghost inv0 = rows_of(inv);
                let tmp = a[col];
                a[col] = a[pivot];
                a[pivot] = tmp;
                let tmp = inv[col];
                inv[col] = inv[pivot];
                inv[pivot] = tmp;
                assert(rows_of(a) =~= a0.update(col as int, a0[pivot as int]).update(
                    pivot as int,
                    a0[col as int],
                ));
                assert(rows_of(inv) =~= inv0.update(col as int, inv0[pivot as int]).update(
                    pivot as int,
                    inv0[col as int],
                ));
            }
            assert(a@[col as int]@[col as int] == 1) by {
                assert(is_binary(rows_of(a)[col as int]));
            }
            // Eliminate the other rows.
            let pivot_row = a[col];
            let pivot_inv = inv[col];
            let mut row: usize = 0;
            while row < M
                invariant
                    col < M,
                    row <= M,
                    is_binary_matrix(bv, M as nat, M as nat),
                    is_binary_matrix(rows_of(a), M as nat, M as nat),
                    is_binary_matrix(rows_of(inv), M as nat, M as nat),
                    same_solutions(bv, rows_of(a), rows_of(inv), M as nat),
                    unit_columns(rows_of(a), col as int, M as nat),
                    pivot_row == a@[col as int],
                    pivot_inv == inv@[col as int],
                    pivot_row@[col as int] == 1,
                    forall|r: int| 0 <= r < row && r != col ==> #[trigger] a@[r]@[col as int] == 0,
                decreases M - row,
            {
                if row != col && a[row][col] == 1 {
                    proof {
                        lemma_add_row_keeps_solutions(
                            bv,
                            rows_of(a),
                            rows_of(inv),
                            M as nat,
                            row as int,
                            col as int,
                        );
                    }
                    let ghost a0 = rows_of(a);
                    let ghost inv0 = rows_of(inv);
                    let new_a = xor_row(&a[row], &pivot_row);
                    let new_inv = xor_row(&inv[row], &pivot_inv);
                    a[row] = new_a;
                    inv[row] = new_inv;
                    assert(rows_of(a) =~= a0.update(
                        row as int,
                        xor_rows(a0[row as int], a0[col as int]),
                    ));
                    assert(rows_of(inv) =~= inv0.update(
                        row as int,
                        xor_rows(inv0[row as int], inv0[col as int]),
                    ));
                    proof {
                        let av = rows_of(a);
                        assert forall|t: int| 0 <= t < M implies #[trigger] av[row as int][t]
                            <= 1 by {
                            assert(is_binary(a0[row as int]));
                            assert(is_binary(a0[col as int]));
                            lemma_u8_xor_facts(a0[row as int][t], a0[col as int][t], 0, 0);
                        }
                        let iv = rows_of(inv);
                        assert forall|t: int| 0 <= t < M implies #[trigger] iv[row as int][t]
                            <= 1 by {
                            assert(is_binary(inv0[row as int]));
                            assert(is_binary(inv0[col as int]));
                            lemma_u8_xor_facts(inv0[row as int][t], inv0[col as int][t], 0, 0);
                        }
                        assert forall|r: int, c: int|
                            0 <= r < M && 0 <= c < col implies #[trigger] av[r][c] == if r == c {
                            1u8
                        } else {
                            0u8
                        } by {
                            if r == row {
                                assert(a0[r][c] == if r == c {
                                    1u8
                                } else {
                                    0u8
                                });
                                assert(a0[col as int][c] == 0u8);
                                lemma_u8_xor_facts(a0[r][c], 0, 0, 0);
                            }
                        }
                        lemma_u8_xor_facts(1, 1, 0, 0);
                    }
                }
                row = row + 1;
            }
            proof {
                let av = rows_of(a);
                assert forall|r: int, c: int|
                    0 <= r < M && 0 <= c < col + 1 implies #[trigger] av[r][c] == if r == c {
                    1u8
                } else {
                    0u8
                } by {}
            }
            col = col + 1;
        }
        proof {
            lemma_identity_gives_inverse(bv, rows_of(a), rows_of(inv), M as nat);
        }
        Some(inv)
    }
}

} // verus!
