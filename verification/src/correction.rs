//! Single-error correction: when one bit of a codeword is flipped, the
//! failing checks are exactly those of that bit, so each bit's vote count is
//! the number of checks it shares with the flipped bit. From this, one
//! Gallager-B or MWBF step restores the codeword whenever the flipped bit
//! shares few enough checks with every other bit.
use vstd::prelude::*;
use crate::bitarray::flip;
use crate::gf2::{
    is_binary, lemma_u8_xor_facts, lemma_xor_sum_add, lemma_xor_sum_ext, lemma_xor_sum_single,
    xor_sum, zeros,
};
use crate::ldpc_decoder::{count_flagged, flip_where, normalized_score, seq_max, LdpcDecoder};
use crate::tanner::{column, lemma_support_prefix, support_prefix};

verus! {

/// The number of rows `i < n` where both `a` and `b` hold a 1.
pub open spec fn count_common(a: Seq<u8>, b: Seq<u8>, n: int) -> nat
    decreases n,
{
    if n <= 0 {
        0
    } else {
        count_common(a, b, n - 1) + if a[n - 1] == 1 && b[n - 1] == 1 {
            1nat
        } else {
            0nat
        }
    }
}

/// The number of checks that bits `j` and `k` of `h` both take part in.
pub open spec fn shared_checks(h: Seq<Seq<u8>>, j: int, k: int) -> nat {
    count_common(column(h, j), column(h, k), h.len() as int)
}

/// The syndrome pattern of a single error at bit `j`: the checks of column `j`.
pub open spec fn single_error_syndrome(h: Seq<Seq<u8>>, j: int) -> Seq<u8> {
    Seq::new(h.len(), |i: int| if h[i][j] == 1 { 1u8 } else { 0u8 })
}

pub proof fn lemma_flip_is_xor_one(b: u8)
    by (bit_vector)
    requires
        b <= 1,
    ensures
        (if b == 0u8 { 1u8 } else { 0u8 }) == b ^ 1u8,
{
}

pub proof fn lemma_count_flagged_prefix(a: Seq<usize>, b: Seq<usize>, flags: Seq<u8>, n: int)
    requires
        0 <= n,
        forall|t: int| 0 <= t < n ==> #[trigger] a[t] == b[t],
    ensures
        count_flagged(a, flags, n) == count_flagged(b, flags, n),
    decreases n,
{
    if n > 0 {
        lemma_count_flagged_prefix(a, b, flags, n - 1);
    }
}

proof fn lemma_votes_prefix(h: Seq<Seq<u8>>, j: int, k: int, n: int)
    requires
        0 <= n <= h.len(),
        h.len() <= usize::MAX,
    ensures
        count_flagged(
            support_prefix(column(h, k), n),
            single_error_syndrome(h, j),
            support_prefix(column(h, k), n).len() as int,
        ) == count_common(column(h, j), column(h, k), n),
    decreases n,
{
    if n > 0 {
        lemma_votes_prefix(h, j, k, n - 1);
        let col = column(h, k);
        let s = support_prefix(col, n - 1);
        let t = support_prefix(col, n);
        let sn = single_error_syndrome(h, j);
        if col[n - 1] == 1 {
            lemma_count_flagged_prefix(t, s, sn, s.len() as int);
            assert(t[s.len() as int] == (n - 1) as usize);
        } else {
            assert(t =~= s);
        }
    }
}

pub proof fn lemma_common_self(a: Seq<u8>, n: int)
    requires
        0 <= n <= a.len(),
        n <= usize::MAX + 1,
    ensures
        count_common(a, a, n) == support_prefix(a, n).len(),
    decreases n,
{
    if n > 0 {
        lemma_common_self(a, n - 1);
    }
}

pub proof fn lemma_common_bounded(a: Seq<u8>, b: Seq<u8>, n: int)
    requires
        0 <= n,
    ensures
        count_common(a, b, n) <= count_common(a, a, n),
    decreases n,
{
    if n > 0 {
        lemma_common_bounded(a, b, n - 1);
    }
}

/// The greatest entry of a sequence is at least every entry and at least 0,
/// and it is 0 or one of the entries.
pub proof fn lemma_seq_max_props(s: Seq<int>)
    ensures
        seq_max(s) >= 0,
        forall|k: int| 0 <= k < s.len() ==> #[trigger] s[k] <= seq_max(s),
        seq_max(s) == 0 || exists|k: int| 0 <= k < s.len() && s[k] == seq_max(s),
    decreases s.len(),
{
    if s.len() > 0 {
        lemma_seq_max_props(s.drop_last());
        assert forall|k: int| 0 <= k < s.len() implies #[trigger] s[k] <= seq_max(s) by {
            if k < s.len() - 1 {
                assert(s.drop_last()[k] == s[k]);
            }
        }
        if seq_max(s) != 0 && seq_max(s) != s.last() {
            let k = choose|k: int|
                0 <= k < s.drop_last().len() && s.drop_last()[k] == seq_max(s.drop_last());
            assert(s[k] == seq_max(s));
        }
    }
}

/// Flipping bit `j` of a codeword makes exactly the checks of column `j` fail.
pub proof fn lemma_flip_syndrome<const M: usize, const N: usize>(
    dec: LdpcDecoder<M, N>,
    c: Seq<u8>,
    j: int,
)
    requires
        dec.wf(),
        c.len() == N,
        is_binary(c),
        dec.is_codeword(c),
        0 <= j < N,
    ensures
        dec.syndrome(c.update(j, flip(c[j]))) == single_error_syndrome(dec.matrix(), j),
{
    dec.lemma_adjacency_bounds();
    let bits = c.update(j, flip(c[j]));
    let h = dec.matrix();
    let expect = single_error_syndrome(h, j);
    assert forall|i: int| 0 <= i < M implies #[trigger] dec.syndrome(bits)[i] == expect[i] by {
        let row = h[i];
        let cols = dec.row_support(i);
        let f = |k: int| c[cols[k] as int];
        let g = |k: int| bits[cols[k] as int];
        let n = cols.len() as int;
        assert(row.len() == N);
        lemma_support_prefix(row, N as int);
        assert(dec.syndrome(c)[i] == zeros(M as nat)[i]);
        assert(xor_sum(n, f) == 0u8);
        if row[j] == 1 {
            assert(cols.contains(j as usize));
            let p = choose|p: int| 0 <= p < n && cols[p] == j as usize;
            let e = |k: int| if k == p { 1u8 } else { 0u8 };
            assert forall|k: int| 0 <= k < n implies #[trigger] g(k) == (f(k) ^ e(k)) by {
                if k == p {
                    lemma_flip_is_xor_one(c[j]);
                } else {
                    assert(cols[k] != cols[p]) by {
                        if k < p {
                            assert(cols[k] < cols[p]);
                        } else {
                            assert(cols[p] < cols[k]);
                        }
                    }
                    lemma_u8_xor_facts(f(k), 0, 0, 0);
                }
            }
            lemma_xor_sum_ext(n, g, |k: int| f(k) ^ e(k));
            lemma_xor_sum_add(n, f, e);
            assert forall|k: int| 0 <= k < n && k != p implies #[trigger] e(k) == 0 by {}
            lemma_xor_sum_single(n, e, p);
            lemma_u8_xor_facts(1, 0, 0, 0);
        } else {
            assert forall|k: int| 0 <= k < n implies #[trigger] g(k) == f(k) by {
                if cols[k] == j as usize {
                    assert(cols.contains(j as usize));
                }
            }
            lemma_xor_sum_ext(n, g, f);
        }
    }
    assert(dec.syndrome(bits) =~= expect);
}

/// With the checks of bit `j` failing, every bit's vote count is the number
/// of checks it shares with bit `j`; bit `j` itself gets all of its checks.
pub proof fn lemma_votes_are_shared_checks<const M: usize, const N: usize>(
    dec: LdpcDecoder<M, N>,
    j: int,
    k: int,
)
    requires
        dec.wf(),
        0 <= j < N,
        0 <= k < N,
    ensures
        dec.votes(k, single_error_syndrome(dec.matrix(), j)) == shared_checks(dec.matrix(), j, k),
        shared_checks(dec.matrix(), j, k) <= dec.col_support(j).len(),
        shared_checks(dec.matrix(), j, j) == dec.col_support(j).len(),
{
    dec.lemma_adjacency_bounds();
    let h = dec.matrix();
    assert(column(h, k).len() == M);
    assert(column(h, j).len() == M);
    lemma_votes_prefix(h, j, k, M as int);
    lemma_common_self(column(h, j), M as int);
    lemma_common_bounded(column(h, j), column(h, k), M as int);
}

/// Gallager-B with threshold `t` corrects a single error at bit `j` of a
/// codeword in one step when bit `j` has between `t` and 255 checks and
/// shares fewer than `t` checks with every other bit.
pub proof fn lemma_gallager_b_corrects_single_error<const M: usize, const N: usize>(
    dec: LdpcDecoder<M, N>,
    c: Seq<u8>,
    j: int,
    t: u8,
)
    requires
        dec.wf(),
        c.len() == N,
        is_binary(c),
        dec.is_codeword(c),
        0 <= j < N,
        1 <= t,
        t <= dec.col_support(j).len() <= 255,
        forall|k: int| 0 <= k < N && k != j ==> #[trigger] shared_checks(dec.matrix(), j, k) < t,
    ensures
        !dec.is_codeword(c.update(j, flip(c[j]))),
        forall|k: int|
            0 <= k < N ==> #[trigger] dec.votes(k, dec.syndrome(c.update(j, flip(c[j]))))
                <= u8::MAX,
        flip_where(c.update(j, flip(c[j])), dec.gallager_b_flips(c.update(j, flip(c[j])), t))
            == c,
{
    let bits = c.update(j, flip(c[j]));
    dec.lemma_adjacency_bounds();
    let h = dec.matrix();
    lemma_flip_syndrome(dec, c, j);
    let sn = dec.syndrome(bits);
    assert forall|k: int| 0 <= k < N implies #[trigger] dec.votes(k, sn) <= u8::MAX by {
        lemma_votes_are_shared_checks(dec, j, k);
    }
    lemma_votes_are_shared_checks(dec, j, j);
    let flips = dec.gallager_b_flips(bits, t);
    assert forall|k: int| 0 <= k < N implies #[trigger] flips[k] == (k == j) by {
        lemma_votes_are_shared_checks(dec, j, k);
    }
    assert forall|k: int| 0 <= k < N implies #[trigger] flip_where(bits, flips)[k] == c[k] by {
        if k == j {
            assert(c[j] <= 1);
        }
    }
    assert(flip_where(bits, flips) =~= c);
    // Some check of bit j fails.
    let col = column(h, j);
    lemma_support_prefix(col, M as int);
    let i = dec.col_support(j)[0] as int;
    assert(dec.col_support(j).contains(i as usize));
    assert(col[i] == 1);
    assert(sn[i] == single_error_syndrome(h, j)[i]);
    assert(sn[i] != zeros(M as nat)[i]);
}

/// MWBF corrects a single error at bit `j` of a codeword in one step when
/// bit `j` has at least one check and shares fewer checks with every other
/// bit than it has.
pub proof fn lemma_mwbf_corrects_single_error<const M: usize, const N: usize>(
    dec: LdpcDecoder<M, N>,
    c: Seq<u8>,
    j: int,
)
    requires
        dec.wf(),
        c.len() == N,
        is_binary(c),
        dec.is_codeword(c),
        0 <= j < N,
        dec.col_support(j).len() >= 1,
        forall|k: int|
            0 <= k < N && k != j ==> #[trigger] shared_checks(dec.matrix(), j, k) < dec.col_support(
                j,
            ).len(),
    ensures
        !dec.is_codeword(c.update(j, flip(c[j]))),
        forall|k: int|
            0 <= k < N ==> #[trigger] dec.votes(k, dec.syndrome(c.update(j, flip(c[j]))))
                <= dec.col_support(j).len(),
        flip_where(
            c.update(j, flip(c[j])),
            LdpcDecoder::<M, N>::flips_at_max(dec.mwbf_scores(c.update(j, flip(c[j])))),
        ) == c,
{
    let bits = c.update(j, flip(c[j]));
    dec.lemma_adjacency_bounds();
    let h = dec.matrix();
    lemma_flip_syndrome(dec, c, j);
    let sn = dec.syndrome(bits);
    let deg = dec.col_support(j).len();
    assert forall|k: int| 0 <= k < N implies #[trigger] dec.votes(k, sn) <= deg by {
        lemma_votes_are_shared_checks(dec, j, k);
    }
    lemma_votes_are_shared_checks(dec, j, j);
    let s = dec.mwbf_scores(bits);
    assert forall|k: int| 0 <= k < N implies #[trigger] s[k] == shared_checks(h, j, k) by {
        lemma_votes_are_shared_checks(dec, j, k);
    }
    lemma_seq_max_props(s);
    assert(seq_max(s) == deg) by {
        if seq_max(s) != 0 {
            let k = choose|k: int| 0 <= k < s.len() && s[k] == seq_max(s);
            assert(s[k] <= deg);
        }
        assert(s[j] <= seq_max(s));
    }
    let flips = LdpcDecoder::<M, N>::flips_at_max(s);
    assert forall|k: int| 0 <= k < N implies #[trigger] flips[k] == (k == j) by {}
    assert forall|k: int| 0 <= k < N implies #[trigger] flip_where(bits, flips)[k] == c[k] by {
        if k == j {
            assert(c[j] <= 1);
        }
    }
    assert(flip_where(bits, flips) =~= c);
    let col = column(h, j);
    lemma_support_prefix(col, M as int);
    let i = dec.col_support(j)[0] as int;
    assert(dec.col_support(j).contains(i as usize));
    assert(col[i] == 1);
    assert(sn[i] == single_error_syndrome(h, j)[i]);
    assert(sn[i] != zeros(M as nat)[i]);
}

pub proof fn lemma_shift_is_scale(v: u32)
    by (bit_vector)
    requires
        v < 65536,
    ensures
        v << 16u32 == v * 65536,
{
}

proof fn lemma_normalized_below(v: nat, d: nat)
    by (nonlinear_arith)
    requires
        v < d,
    ensures
        (v * 65536) / d < 65536,
{
}

proof fn lemma_normalized_full(d: nat)
    by (nonlinear_arith)
    requires
        d > 0,
    ensures
        (d * 65536) / d == 65536,
{
}

/// The normalized score of `v` unsatisfied checks out of `d <= 65535` is
/// 65536 when `v == d > 0` and below 65536 when `v < d` or `v == 0`.
proof fn lemma_normalized_score(v: nat, d: nat)
    requires
        v <= d <= 65535,
    ensures
        normalized_score(v, d as u32) <= 65536,
        (v == d && d > 0) ==> normalized_score(v, d as u32) == 65536,
        v < d ==> normalized_score(v, d as u32) < 65536,
        v == 0 ==> normalized_score(v, d as u32) == 0,
{
    let vv = v as u32;
    lemma_shift_is_scale(vv);
    assert(vv == v);
    let den: u32 = if d == 0 { 1u32 } else { d as u32 };
    assert(normalized_score(v, d as u32) == (v * 65536) as u32 / den);
    if v < d {
        lemma_normalized_below(v, d);
    } else if d > 0 {
        lemma_normalized_full(d);
    }
    if v == 0 {
        assert(0nat * 65536 == 0);
    }
}

/// NWBF corrects a single error at bit `j` of a codeword in one step when
/// bit `j` has at least one check, no bit has more than 65535 checks, and
/// every other bit that shares checks with `j` shares fewer than its own
/// number of checks.
pub proof fn lemma_nwbf_corrects_single_error<const M: usize, const N: usize>(
    dec: LdpcDecoder<M, N>,
    c: Seq<u8>,
    j: int,
)
    requires
        dec.wf(),
        c.len() == N,
        is_binary(c),
        dec.is_codeword(c),
        0 <= j < N,
        dec.col_support(j).len() >= 1,
        forall|k: int| 0 <= k < N ==> #[trigger] dec.col_support(k).len() <= 65535,
        forall|k: int|
            0 <= k < N && k != j ==> #[trigger] shared_checks(dec.matrix(), j, k) == 0
                || shared_checks(dec.matrix(), j, k) < dec.col_support(k).len(),
    ensures
        !dec.is_codeword(c.update(j, flip(c[j]))),
        forall|k: int|
            0 <= k < N ==> #[trigger] dec.votes(k, dec.syndrome(c.update(j, flip(c[j]))))
                <= dec.col_support(j).len(),
        flip_where(
            c.update(j, flip(c[j])),
            LdpcDecoder::<M, N>::flips_at_max(dec.nwbf_scores(c.update(j, flip(c[j])))),
        ) == c,
{
    let bits = c.update(j, flip(c[j]));
    dec.lemma_adjacency_bounds();
    let h = dec.matrix();
    lemma_flip_syndrome(dec, c, j);
    let sn = dec.syndrome(bits);
    let deg = dec.col_support(j).len();
    assert forall|k: int| 0 <= k < N implies #[trigger] dec.votes(k, sn) <= deg by {
        lemma_votes_are_shared_checks(dec, j, k);
    }
    let s = dec.nwbf_scores(bits);
    assert forall|k: int| 0 <= k < N implies (#[trigger] s[k] <= 65536 && (s[k] == 65536 <==> k
        == j)) by {
        lemma_votes_are_shared_checks(dec, j, k);
        lemma_votes_are_shared_checks(dec, k, j);
        let dk = dec.col_support(k).len();
        let v = shared_checks(h, j, k);
        assert(dec.votes(k, sn) == v);
        assert(dec.col_degree(k) == dk as u32);
        // The checks shared by j and k are at most the checks of k.
        assert(v <= dk) by {
            lemma_shared_symmetric(column(h, j), column(h, k), M as int);
        }
        lemma_normalized_score(v, dk);
    }
    lemma_seq_max_props(s);
    assert(seq_max(s) == 65536) by {
        if seq_max(s) != 0 {
            let k = choose|k: int| 0 <= k < s.len() && s[k] == seq_max(s);
            assert(s[k] <= 65536);
        }
        assert(s[j] <= seq_max(s));
    }
    let flips = LdpcDecoder::<M, N>::flips_at_max(s);
    assert forall|k: int| 0 <= k < N implies #[trigger] flips[k] == (k == j) by {}
    assert forall|k: int| 0 <= k < N implies #[trigger] flip_where(bits, flips)[k] == c[k] by {
        if k == j {
            assert(c[j] <= 1);
        }
    }
    assert(flip_where(bits, flips) =~= c);
    let col = column(h, j);
    lemma_support_prefix(col, M as int);
    let i = dec.col_support(j)[0] as int;
    assert(dec.col_support(j).contains(i as usize));
    assert(col[i] == 1);
    assert(sn[i] == single_error_syndrome(h, j)[i]);
    assert(sn[i] != zeros(M as nat)[i]);
}

proof fn lemma_shared_symmetric(a: Seq<u8>, b: Seq<u8>, n: int)
    requires
        0 <= n,
    ensures
        count_common(a, b, n) == count_common(b, a, n),
    decreases n,
{
    if n > 0 {
        lemma_shared_symmetric(a, b, n - 1);
    }
}

} // verus!
