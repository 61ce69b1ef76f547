//! Linear algebra over GF(2) on byte-valued entries: addition is `^`,
//! multiplication is `&`. Matrices are sequences of rows.
use vstd::prelude::*;

verus! {

/// `f(0) ^ f(1) ^ ... ^ f(n - 1)`.
pub open spec fn xor_sum(n: int, f: spec_fn(int) -> u8) -> u8
    decreases n,
{
    if n <= 0 {
        0
    } else {
        xor_sum(n - 1, f) ^ f(n - 1)
    }
}

/// The GF(2) inner product of `r` and `x` over the length of `r`.
pub open spec fn dot(r: Seq<u8>, x: Seq<u8>) -> u8 {
    xor_sum(r.len() as int, |k: int| r[k] & x[k])
}

/// The product of matrix `a` with column vector `x`.
pub open spec fn mat_vec(a: Seq<Seq<u8>>, x: Seq<u8>) -> Seq<u8> {
    Seq::new(a.len(), |i: int| dot(a[i], x))
}

/// The product `e * a`, where `a` has `cols` columns.
pub open spec fn mat_mul(e: Seq<Seq<u8>>, a: Seq<Seq<u8>>, cols: nat) -> Seq<Seq<u8>> {
    Seq::new(
        e.len(),
        |i: int| Seq::new(cols, |j: int| xor_sum(a.len() as int, |k: int| e[i][k] & a[k][j])),
    )
}

/// The entry-wise sum of two rows.
pub open spec fn xor_rows(r: Seq<u8>, s: Seq<u8>) -> Seq<u8> {
    Seq::new(r.len(), |k: int| r[k] ^ s[k])
}

/// The all-zero vector of length `n`.
pub open spec fn zeros(n: nat) -> Seq<u8> {
    Seq::new(n, |k: int| 0u8)
}

/// The `n x n` identity matrix.
pub open spec fn identity(n: nat) -> Seq<Seq<u8>> {
    Seq::new(n, |i: int| Seq::new(n, |j: int| if i == j { 1u8 } else { 0u8 }))
}

/// A vector whose entries are all 0 or 1.
pub open spec fn is_binary(x: Seq<u8>) -> bool {
    forall|k: int| 0 <= k < x.len() ==> #[trigger] x[k] <= 1
}

/// An `rows x cols` matrix whose entries are all 0 or 1.
pub open spec fn is_binary_matrix(a: Seq<Seq<u8>>, rows: nat, cols: nat) -> bool {
    &&& a.len() == rows
    &&& forall|i: int| 0 <= i < rows ==> (#[trigger] a[i]).len() == cols && is_binary(a[i])
}

/// Columns `lo .. hi` of every row of `h`.
pub open spec fn column_block(h: Seq<Seq<u8>>, lo: int, hi: int) -> Seq<Seq<u8>> {
    Seq::new(h.len(), |i: int| h[i].subrange(lo, hi))
}

pub proof fn lemma_u8_xor_facts(a: u8, b: u8, c: u8, d: u8)
    by (bit_vector)
    ensures
        (a ^ b) ^ (c ^ d) == (a ^ c) ^ (b ^ d),
        a ^ 0u8 == a,
        0u8 ^ a == a,
        a ^ a == 0u8,
        (a ^ b) ^ b == a,
        a ^ b == b ^ a,
        (a ^ b) & c == (a & c) ^ (b & c),
        c & (a ^ b) == (c & a) ^ (c & b),
        (a & b) & c == a & (b & c),
        a & b == b & a,
        a & 0u8 == 0u8,
        0u8 & a == 0u8,
        a <= 1u8 && b <= 1u8 ==> a ^ b <= 1u8,
        a <= 1u8 ==> a & 1u8 == a && 1u8 & a == a,
        a <= 1u8 ==> b & a <= 1u8,
        a <= 1u8 && b <= 1u8 ==> a & b <= 1u8,
{
}

/// Sums of functions that agree on the range are equal.
pub proof fn lemma_xor_sum_ext(n: int, f: spec_fn(int) -> u8, g: spec_fn(int) -> u8)
    requires
        forall|k: int| 0 <= k < n ==> #[trigger] f(k) == g(k),
    ensures
        xor_sum(n, f) == xor_sum(n, g),
    decreases n,
{
    if n > 0 {
        lemma_xor_sum_ext(n - 1, f, g);
    }
}

/// The sum of a pointwise sum is the sum of the sums.
pub proof fn lemma_xor_sum_add(n: int, f: spec_fn(int) -> u8, g: spec_fn(int) -> u8)
    ensures
        xor_sum(n, |k: int| f(k) ^ g(k)) == xor_sum(n, f) ^ xor_sum(n, g),
    decreases n,
{
    if n > 0 {
        let h = |k: int| f(k) ^ g(k);
        lemma_xor_sum_add(n - 1, f, g);
        assert(xor_sum(n, h) == xor_sum(n - 1, h) ^ h(n - 1));
        lemma_u8_xor_facts(xor_sum(n - 1, f), xor_sum(n - 1, g), f(n - 1), g(n - 1));
    } else {
        lemma_u8_xor_facts(0, 0, 0, 0);
    }
}

/// Multiplying a sum by `c` multiplies each term.
pub proof fn lemma_xor_sum_scale(n: int, f: spec_fn(int) -> u8, c: u8)
    ensures
        xor_sum(n, f) & c == xor_sum(n, |k: int| f(k) & c),
        c & xor_sum(n, f) == xor_sum(n, |k: int| c & f(k)),
    decreases n,
{
    if n > 0 {
        lemma_xor_sum_scale(n - 1, f, c);
        lemma_u8_xor_facts(xor_sum(n - 1, f), f(n - 1), c, 0);
    } else {
        lemma_u8_xor_facts(c, 0, 0, 0);
    }
}

/// A sum over `0 .. n1 + n2` splits at `n1`.
pub proof fn lemma_xor_sum_split(n1: int, n2: int, f: spec_fn(int) -> u8)
    requires
        0 <= n1,
        0 <= n2,
    ensures
        xor_sum(n1 + n2, f) == xor_sum(n1, f) ^ xor_sum(n2, |k: int| f(k + n1)),
    decreases n2,
{
    if n2 == 0 {
        lemma_u8_xor_facts(xor_sum(n1, f), 0, 0, 0);
    } else {
        lemma_xor_sum_split(n1, n2 - 1, f);
        let g = |k: int| f(k + n1);
        assert(xor_sum(n2, g) == xor_sum(n2 - 1, g) ^ g(n2 - 1));
        lemma_u8_xor_assoc(xor_sum(n1, f), xor_sum(n2 - 1, g), f(n1 + n2 - 1));
    }
}

pub proof fn lemma_u8_xor_assoc(a: u8, b: u8, c: u8)
    by (bit_vector)
    ensures
        (a ^ b) ^ c == a ^ (b ^ c),
{
}

/// A sum whose terms are all zero is zero.
pub proof fn lemma_xor_sum_zero(n: int, f: spec_fn(int) -> u8)
    requires
        forall|k: int| 0 <= k < n ==> #[trigger] f(k) == 0,
    ensures
        xor_sum(n, f) == 0,
    decreases n,
{
    if n > 0 {
        lemma_xor_sum_zero(n - 1, f);
        lemma_u8_xor_facts(0, 0, 0, 0);
    }
}

/// A sum with at most one nonzero term, at `p`, equals that term.
pub proof fn lemma_xor_sum_single(n: int, f: spec_fn(int) -> u8, p: int)
    requires
        0 <= p < n,
        forall|k: int| 0 <= k < n && k != p ==> #[trigger] f(k) == 0,
    ensures
        xor_sum(n, f) == f(p),
    decreases n,
{
    if n - 1 == p {
        lemma_xor_sum_zero(n - 1, f);
        lemma_u8_xor_facts(f(p), 0, 0, 0);
    } else {
        lemma_xor_sum_single(n - 1, f, p);
        lemma_u8_xor_facts(f(p), 0, 0, 0);
    }
}

/// The order of summation in a double sum does not matter.
pub proof fn lemma_xor_sum_swap(n: int, m: int, g: spec_fn(int, int) -> u8)
    ensures
        xor_sum(n, |j: int| xor_sum(m, |k: int| g(j, k))) == xor_sum(
            m,
            |k: int| xor_sum(n, |j: int| g(j, k)),
        ),
    decreases n,
{
    if n <= 0 {
        lemma_xor_sum_zero(m, |k: int| xor_sum(n, |j: int| g(j, k)));
    } else {
        lemma_xor_sum_swap(n - 1, m, g);
        let prev = |k: int| xor_sum(n - 1, |j: int| g(j, k));
        let last = |k: int| g(n - 1, k);
        lemma_xor_sum_ext(
            m,
            |k: int| xor_sum(n, |j: int| g(j, k)),
            |k: int| prev(k) ^ last(k),
        );
        lemma_xor_sum_add(m, prev, last);
    }
}

/// A dot product is linear in its first argument.
pub proof fn lemma_dot_xor_rows(r: Seq<u8>, s: Seq<u8>, x: Seq<u8>)
    requires
        r.len() == s.len(),
    ensures
        dot(xor_rows(r, s), x) == dot(r, x) ^ dot(s, x),
{
    let n = r.len() as int;
    assert forall|k: int| 0 <= k < n implies (xor_rows(r, s)[k] & x[k]) == ((r[k] & x[k]) ^ (s[k]
        & x[k])) by {
        lemma_u8_xor_facts(r[k], s[k], x[k], 0);
    }
    lemma_xor_sum_ext(
        n,
        |k: int| xor_rows(r, s)[k] & x[k],
        |k: int| (|k: int| r[k] & x[k])(k) ^ (|k: int| s[k] & x[k])(k),
    );
    lemma_xor_sum_add(n, |k: int| r[k] & x[k], |k: int| s[k] & x[k]);
}

/// A dot product is linear in its second argument.
pub proof fn lemma_dot_xor_vectors(r: Seq<u8>, x: Seq<u8>, y: Seq<u8>)
    requires
        r.len() <= x.len(),
        x.len() == y.len(),
    ensures
        dot(r, xor_rows(x, y)) == dot(r, x) ^ dot(r, y),
{
    let n = r.len() as int;
    assert forall|k: int| 0 <= k < n implies (r[k] & xor_rows(x, y)[k]) == ((r[k] & x[k]) ^ (r[k]
        & y[k])) by {
        lemma_u8_xor_facts(x[k], y[k], r[k], 0);
    }
    lemma_xor_sum_ext(
        n,
        |k: int| r[k] & xor_rows(x, y)[k],
        |k: int| (|k: int| r[k] & x[k])(k) ^ (|k: int| r[k] & y[k])(k),
    );
    lemma_xor_sum_add(n, |k: int| r[k] & x[k], |k: int| r[k] & y[k]);
}

/// Dotting with the zero vector gives zero.
pub proof fn lemma_dot_zeros(r: Seq<u8>, n: nat)
    requires
        r.len() <= n,
    ensures
        dot(r, zeros(n)) == 0,
{
    assert forall|k: int| 0 <= k < r.len() implies (r[k] & zeros(n)[k]) == 0 by {
        lemma_u8_xor_facts(r[k], 0, 0, 0);
    }
    lemma_xor_sum_zero(r.len() as int, |k: int| r[k] & zeros(n)[k]);
}

/// A binary matrix times a binary vector is binary.
pub proof fn lemma_mat_vec_binary(a: Seq<Seq<u8>>, x: Seq<u8>, rows: nat, cols: nat)
    requires
        is_binary_matrix(a, rows, cols),
    ensures
        is_binary(mat_vec(a, x)),
        mat_vec(a, x).len() == rows,
{
    assert forall|i: int| 0 <= i < rows implies #[trigger] mat_vec(a, x)[i] <= 1 by {
        assert forall|k: int| 0 <= k < cols implies (a[i][k] & x[k]) <= 1 by {
            lemma_u8_xor_facts(a[i][k], x[k], 0, 0);
        }
        lemma_xor_sum_binary(cols as int, |k: int| a[i][k] & x[k]);
    }
}

/// A sum of binary terms is binary.
pub proof fn lemma_xor_sum_binary(n: int, f: spec_fn(int) -> u8)
    requires
        forall|k: int| 0 <= k < n ==> #[trigger] f(k) <= 1,
    ensures
        xor_sum(n, f) <= 1,
    decreases n,
{
    if n > 0 {
        lemma_xor_sum_binary(n - 1, f);
        lemma_u8_xor_facts(xor_sum(n - 1, f), f(n - 1), 0, 0);
    }
}

/// Multiplying by the identity keeps a binary vector.
pub proof fn lemma_identity_mat_vec(x: Seq<u8>, n: nat)
    requires
        x.len() == n,
        is_binary(x),
    ensures
        mat_vec(identity(n), x) == x,
{
    assert forall|i: int| 0 <= i < n implies #[trigger] mat_vec(identity(n), x)[i] == x[i] by {
        let f = |k: int| identity(n)[i][k] & x[k];
        assert forall|k: int| 0 <= k < n && k != i implies #[trigger] f(k) == 0 by {
            lemma_u8_xor_facts(x[k], 0, 0, 0);
        }
        lemma_xor_sum_single(n as int, f, i);
        lemma_u8_xor_facts(x[i], 0, 0, 0);
    }
    assert(mat_vec(identity(n), x) =~= x);
}

/// `(e * a) * x == e * (a * x)`.
pub proof fn lemma_mat_mul_vec(e: Seq<Seq<u8>>, a: Seq<Seq<u8>>, x: Seq<u8>, cols: nat)
    requires
        forall|i: int| 0 <= i < e.len() ==> (#[trigger] e[i]).len() == a.len(),
        forall|k: int| 0 <= k < a.len() ==> (#[trigger] a[k]).len() == cols,
    ensures
        mat_vec(mat_mul(e, a, cols), x) == mat_vec(e, mat_vec(a, x)),
{
    let p = mat_mul(e, a, cols);
    let m = a.len() as int;
    let n = cols as int;
    assert forall|i: int| 0 <= i < e.len() implies #[trigger] mat_vec(p, x)[i] == mat_vec(
        e,
        mat_vec(a, x),
    )[i] by {
        let g = |j: int, k: int| (e[i][k] & a[k][j]) & x[j];
        // Expand each entry of row i of `p` and push `x[j]` inside the inner sum.
        assert forall|j: int| 0 <= j < n implies #[trigger] (p[i][j] & x[j]) == xor_sum(
            m,
            |k: int| g(j, k),
        ) by {
            let f = |k: int| e[i][k] & a[k][j];
            lemma_xor_sum_scale(m, f, x[j]);
            lemma_xor_sum_ext(m, |k: int| f(k) & x[j], |k: int| g(j, k));
        }
        lemma_xor_sum_ext(n, |j: int| p[i][j] & x[j], |j: int| xor_sum(m, |k: int| g(j, k)));
        lemma_xor_sum_swap(n, m, g);
        // Pull `e[i][k]` out of each inner sum.
        assert forall|k: int| 0 <= k < m implies xor_sum(n, |j: int| g(j, k)) == (e[i][k]
            & #[trigger] mat_vec(a, x)[k]) by {
            assert forall|j: int| 0 <= j < n implies #[trigger] g(j, k) == (e[i][k] & (a[k][j]
                & x[j])) by {
                lemma_u8_xor_facts(e[i][k], a[k][j], x[j], 0);
            }
            let f = |j: int| a[k][j] & x[j];
            lemma_xor_sum_ext(n, |j: int| g(j, k), |j: int| e[i][k] & f(j));
            lemma_xor_sum_scale(n, f, e[i][k]);
            assert(mat_vec(a, x)[k] == xor_sum(n, f));
        }
        lemma_xor_sum_ext(
            m,
            |k: int| xor_sum(n, |j: int| g(j, k)),
            |k: int| e[i][k] & mat_vec(a, x)[k],
        );
        assert(mat_vec(p, x)[i] == xor_sum(n, |j: int| p[i][j] & x[j]));
    }
    assert(mat_vec(p, x) =~= mat_vec(e, mat_vec(a, x)));
}

} // verus!
