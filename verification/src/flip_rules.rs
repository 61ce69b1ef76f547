//! The decoding rules read directly off the parity-check matrix: which
//! checks a word fails, how many failing checks each bit takes part in, and
//! the weighted and normalized scores built from those counts. Each
//! decoder's flip decision is proved here to be its rule.
use vstd::prelude::*;
use crate::correction::{
    count_common, lemma_common_self, lemma_count_flagged_prefix, lemma_flip_is_xor_one,
    lemma_seq_max_props, lemma_shift_is_scale,
};
use crate::gf2::{is_binary, lemma_u8_xor_facts, lemma_xor_sum_ext, xor_sum, zeros};
use crate::ldpc_decoder::{
    check_sum, count_flagged, first_max_index, flip_where, normalized_score, seq_max,
    weigh_flagged, LdpcDecoder,
};
use crate::tanner::{column, support_prefix};

verus! {

/// Check row `i` of `h` fails on `bits` when an odd number of the positions
/// where the row holds a 1 also hold a 1 in `bits`.
pub open spec fn check_fails(h: Seq<Seq<u8>>, i: int, bits: Seq<u8>) -> bool {
    count_common(h[i], bits, h[i].len() as int) % 2 == 1
}

/// The number of the first `n` checks of `h` that fail on `bits`.
pub open spec fn failing_checks(h: Seq<Seq<u8>>, bits: Seq<u8>, n: int) -> nat
    decreases n,
{
    if n <= 0 {
        0
    } else {
        failing_checks(h, bits, n - 1) + if check_fails(h, n - 1, bits) {
            1nat
        } else {
            0nat
        }
    }
}

/// The number of ones in row `i` of `h`.
pub open spec fn row_degree(h: Seq<Seq<u8>>, i: int) -> nat {
    count_common(h[i], h[i], h[i].len() as int)
}

/// The number of ones in column `j` of `h`.
pub open spec fn column_degree(h: Seq<Seq<u8>>, j: int) -> nat {
    count_common(column(h, j), column(h, j), h.len() as int)
}

/// Among the first `n` checks, how many involve bit `j` and fail on `bits`.
pub open spec fn unsatisfied_prefix(h: Seq<Seq<u8>>, bits: Seq<u8>, j: int, n: int) -> nat
    decreases n,
{
    if n <= 0 {
        0
    } else {
        unsatisfied_prefix(h, bits, j, n - 1) + if h[n - 1][j] == 1 && check_fails(h, n - 1, bits) {
            1nat
        } else {
            0nat
        }
    }
}

/// The number of failing checks that bit `j` takes part in.
pub open spec fn unsatisfied(h: Seq<Seq<u8>>, bits: Seq<u8>, j: int) -> nat {
    unsatisfied_prefix(h, bits, j, h.len() as int)
}

/// Among the first `n` checks, the total weight of those that involve bit
/// `j` and fail on `bits`, a check with `d` ones weighing `65536 / max(d, 1)`.
pub open spec fn weighted_prefix(h: Seq<Seq<u8>>, bits: Seq<u8>, j: int, n: int) -> nat
    decreases n,
{
    if n <= 0 {
        0
    } else {
        weighted_prefix(h, bits, j, n - 1) + if h[n - 1][j] == 1 && check_fails(h, n - 1, bits) {
            65536nat / if row_degree(h, n - 1) == 0 {
                1nat
            } else {
                row_degree(h, n - 1)
            }
        } else {
            0nat
        }
    }
}

/// The total weight of the failing checks that bit `j` takes part in.
pub open spec fn weighted_unsatisfied(h: Seq<Seq<u8>>, bits: Seq<u8>, j: int) -> nat {
    weighted_prefix(h, bits, j, h.len() as int)
}

/// The failing checks of bit `j` as a share of all its checks, in units of
/// `1 / 65536`, rounded down: `unsatisfied * 65536 / max(degree, 1)`.
pub open spec fn normalized_unsatisfied(h: Seq<Seq<u8>>, bits: Seq<u8>, j: int) -> nat {
    (unsatisfied(h, bits, j) * 65536) / if column_degree(h, j) == 0 {
        1nat
    } else {
        column_degree(h, j)
    }
}

/// The XOR of a binary word over the first `n` positions where `row` holds
/// a 1 is 1 exactly when an odd number of those positions hold a 1.
pub proof fn lemma_check_sum_parity(row: Seq<u8>, bits: Seq<u8>, n: int)
    requires
        0 <= n <= row.len(),
        row.len() <= bits.len(),
        row.len() <= usize::MAX,
        is_binary(bits),
    ensures
        check_sum(support_prefix(row, n), bits) == if count_common(row, bits, n) % 2 == 1 {
            1u8
        } else {
            0u8
        },
    decreases n,
{
    if n > 0 {
        lemma_check_sum_parity(row, bits, n - 1);
        let s = support_prefix(row, n - 1);
        let t = support_prefix(row, n);
        let gs = |k: int| bits[s[k] as int];
        let gt = |k: int| bits[t[k] as int];
        let p = check_sum(s, bits);
        assert(p == xor_sum(s.len() as int, gs));
        assert(check_sum(t, bits) == xor_sum(t.len() as int, gt));
        if row[n - 1] == 1 {
            assert forall|k: int| 0 <= k < s.len() implies #[trigger] gt(k) == gs(k) by {
                assert(t[k] == s[k]);
            }
            lemma_xor_sum_ext(s.len() as int, gt, gs);
            assert(t.len() == s.len() + 1);
            assert(t[s.len() as int] == (n - 1) as usize);
            assert(xor_sum(t.len() as int, gt) == xor_sum(s.len() as int, gt) ^ gt(s.len() as int));
            assert(bits[n - 1] <= 1);
            if bits[n - 1] == 1 {
                lemma_flip_is_xor_one(p);
            } else {
                lemma_u8_xor_facts(p, 0, 0, 0);
            }
        } else {
            assert(t =~= s);
        }
    }
}

/// For a binary word, the decoder's syndrome marks exactly the failing
/// checks, and the word is a codeword exactly when no check fails.
pub proof fn lemma_syndrome_marks_failing_checks<const M: usize, const N: usize>(
    dec: LdpcDecoder<M, N>,
    bits: Seq<u8>,
)
    requires
        dec.wf(),
        bits.len() == N,
        is_binary(bits),
    ensures
        forall|i: int|
            0 <= i < M ==> #[trigger] dec.syndrome(bits)[i] == if check_fails(dec.matrix(), i, bits) {
                1u8
            } else {
                0u8
            },
        dec.is_codeword(bits) <==> forall|i: int|
            0 <= i < M ==> !(#[trigger] check_fails(dec.matrix(), i, bits)),
{
    dec.lemma_adjacency_bounds();
    let h = dec.matrix();
    assert forall|i: int| 0 <= i < M implies #[trigger] dec.syndrome(bits)[i] == if check_fails(
        h,
        i,
        bits,
    ) {
        1u8
    } else {
        0u8
    } by {
        lemma_check_sum_parity(h[i], bits, N as int);
    }
    if dec.is_codeword(bits) {
        assert forall|i: int| 0 <= i < M implies !(#[trigger] check_fails(h, i, bits)) by {
            assert(dec.syndrome(bits)[i] == zeros(M as nat)[i]);
        }
    }
    if forall|i: int| 0 <= i < M ==> !(#[trigger] check_fails(h, i, bits)) {
        assert(dec.syndrome(bits) =~= zeros(M as nat));
    }
}

proof fn lemma_flagged_is_common(col: Seq<u8>, flags: Seq<u8>, n: int)
    requires
        0 <= n <= col.len(),
        col.len() <= usize::MAX,
    ensures
        count_flagged(support_prefix(col, n), flags, support_prefix(col, n).len() as int)
            == count_common(col, flags, n),
    decreases n,
{
    if n > 0 {
        lemma_flagged_is_common(col, flags, n - 1);
        let s = support_prefix(col, n - 1);
        let t = support_prefix(col, n);
        if col[n - 1] == 1 {
            lemma_count_flagged_prefix(t, s, flags, s.len() as int);
            assert(t[s.len() as int] == (n - 1) as usize);
        } else {
            assert(t =~= s);
        }
    }
}

proof fn lemma_common_failing_is_unsatisfied(
    h: Seq<Seq<u8>>,
    bits: Seq<u8>,
    j: int,
    flags: Seq<u8>,
    n: int,
)
    requires
        0 <= n <= h.len(),
        forall|i: int|
            0 <= i < n ==> #[trigger] flags[i] == if check_fails(h, i, bits) {
                1u8
            } else {
                0u8
            },
    ensures
        count_common(column(h, j), flags, n) == unsatisfied_prefix(h, bits, j, n),
    decreases n,
{
    if n > 0 {
        lemma_common_failing_is_unsatisfied(h, bits, j, flags, n - 1);
        assert(flags[n - 1] == if check_fails(h, n - 1, bits) {
            1u8
        } else {
            0u8
        });
    }
}

proof fn lemma_unsatisfied_le_degree(h: Seq<Seq<u8>>, bits: Seq<u8>, j: int, n: int)
    requires
        0 <= n <= h.len(),
    ensures
        unsatisfied_prefix(h, bits, j, n) <= count_common(column(h, j), column(h, j), n),
    decreases n,
{
    if n > 0 {
        lemma_unsatisfied_le_degree(h, bits, j, n - 1);
    }
}

proof fn lemma_weigh_flagged_prefix(
    a: Seq<usize>,
    b: Seq<usize>,
    flags: Seq<u8>,
    weights: Seq<nat>,
    n: int,
)
    requires
        0 <= n,
        forall|t: int| 0 <= t < n ==> #[trigger] a[t] == b[t],
    ensures
        weigh_flagged(a, flags, weights, n) == weigh_flagged(b, flags, weights, n),
    decreases n,
{
    if n > 0 {
        lemma_weigh_flagged_prefix(a, b, flags, weights, n - 1);
    }
}

proof fn lemma_weighed_is_weighted(
    h: Seq<Seq<u8>>,
    bits: Seq<u8>,
    j: int,
    flags: Seq<u8>,
    weights: Seq<nat>,
    n: int,
)
    requires
        0 <= n <= h.len(),
        h.len() <= usize::MAX,
        forall|i: int|
            0 <= i < n ==> #[trigger] flags[i] == if check_fails(h, i, bits) {
                1u8
            } else {
                0u8
            },
        forall|i: int|
            0 <= i < n ==> #[trigger] weights[i] == 65536nat / if row_degree(h, i) == 0 {
                1nat
            } else {
                row_degree(h, i)
            },
    ensures
        weigh_flagged(
            support_prefix(column(h, j), n),
            flags,
            weights,
            support_prefix(column(h, j), n).len() as int,
        ) == weighted_prefix(h, bits, j, n),
    decreases n,
{
    if n > 0 {
        lemma_weighed_is_weighted(h, bits, j, flags, weights, n - 1);
        let col = column(h, j);
        let s = support_prefix(col, n - 1);
        let t = support_prefix(col, n);
        assert(flags[n - 1] == if check_fails(h, n - 1, bits) {
            1u8
        } else {
            0u8
        });
        assert(weights[n - 1] == 65536nat / if row_degree(h, n - 1) == 0 {
            1nat
        } else {
            row_degree(h, n - 1)
        });
        if col[n - 1] == 1 {
            lemma_weigh_flagged_prefix(t, s, flags, weights, s.len() as int);
            assert(t[s.len() as int] == (n - 1) as usize);
        } else {
            assert(t =~= s);
        }
    }
}

/// Each check row's weight in the weighted rule is `65536` divided by the
/// number of ones in that row (1 for an empty row).
pub proof fn lemma_check_weights_by_row_degree<const M: usize, const N: usize>(
    dec: LdpcDecoder<M, N>,
)
    requires
        dec.wf(),
    ensures
        forall|i: int|
            0 <= i < M ==> #[trigger] dec.check_weights()[i] == 65536nat / if row_degree(
                dec.matrix(),
                i,
            ) == 0 {
                1nat
            } else {
                row_degree(dec.matrix(), i)
            },
{
    dec.lemma_adjacency_bounds();
    let h = dec.matrix();
    assert forall|i: int| 0 <= i < M implies #[trigger] dec.check_weights()[i] == 65536nat
        / if row_degree(h, i) == 0 {
        1nat
    } else {
        row_degree(h, i)
    } by {
        lemma_common_self(h[i], N as int);
    }
}

/// For a binary word, the decoder's count of failing checks on bit `j`, its
/// degree and its weighted score are those read off the matrix.
pub proof fn lemma_scores_from_matrix<const M: usize, const N: usize>(
    dec: LdpcDecoder<M, N>,
    bits: Seq<u8>,
    j: int,
)
    requires
        dec.wf(),
        bits.len() == N,
        is_binary(bits),
        0 <= j < N,
    ensures
        dec.votes(j, dec.syndrome(bits)) == unsatisfied(dec.matrix(), bits, j),
        dec.col_support(j).len() == column_degree(dec.matrix(), j),
        unsatisfied(dec.matrix(), bits, j) <= column_degree(dec.matrix(), j),
        dec.wbf_score(j, dec.syndrome(bits)) == weighted_unsatisfied(dec.matrix(), bits, j),
{
    dec.lemma_adjacency_bounds();
    lemma_syndrome_marks_failing_checks(dec, bits);
    lemma_check_weights_by_row_degree(dec);
    let h = dec.matrix();
    let sn = dec.syndrome(bits);
    let col = column(h, j);
    assert(col.len() == M);
    lemma_flagged_is_common(col, sn, M as int);
    lemma_common_failing_is_unsatisfied(h, bits, j, sn, M as int);
    lemma_common_self(col, M as int);
    lemma_unsatisfied_le_degree(h, bits, j, M as int);
    lemma_weighed_is_weighted(h, bits, j, sn, dec.check_weights(), M as int);
}

/// Gallager-A law: on a binary word, one step flips bit `j` (of at most 255
/// checks) exactly when more than half of the checks on it fail.
pub proof fn lemma_gallager_a_rule<const M: usize, const N: usize>(
    dec: LdpcDecoder<M, N>,
    bits: Seq<u8>,
)
    requires
        dec.wf(),
        bits.len() == N,
        is_binary(bits),
    ensures
        forall|j: int|
            0 <= j < N && column_degree(dec.matrix(), j) <= 255 ==> (#[trigger] flip_where(
                bits,
                dec.gallager_a_flips(bits),
            )[j] != bits[j] <==> unsatisfied(dec.matrix(), bits, j) > column_degree(dec.matrix(), j)
                / 2),
{
    let h = dec.matrix();
    assert forall|j: int| 0 <= j < N && column_degree(h, j) <= 255 implies (#[trigger] flip_where(
        bits,
        dec.gallager_a_flips(bits),
    )[j] != bits[j] <==> unsatisfied(h, bits, j) > column_degree(h, j) / 2) by {
        lemma_scores_from_matrix(dec, bits, j);
        let d = dec.col_support(j).len();
        assert(dec.col_degree(j) == d);
        lemma_small_cast(dec.col_degree(j));
        assert((dec.col_degree(j) as u8) == d);
    }
}

/// Gallager-B law: on a binary word, one step with threshold `t` flips bit
/// `j` (of at most 255 checks) exactly when it takes part in some check and
/// at least `t` of its checks fail, whether or not all of them fail.
pub proof fn lemma_gallager_b_rule<const M: usize, const N: usize>(
    dec: LdpcDecoder<M, N>,
    bits: Seq<u8>,
    t: u8,
)
    requires
        dec.wf(),
        bits.len() == N,
        is_binary(bits),
    ensures
        forall|j: int|
            0 <= j < N && column_degree(dec.matrix(), j) <= 255 ==> (#[trigger] flip_where(
                bits,
                dec.gallager_b_flips(bits, t),
            )[j] != bits[j] <==> column_degree(dec.matrix(), j) > 0 && unsatisfied(
                dec.matrix(),
                bits,
                j,
            ) >= t),
{
    let h = dec.matrix();
    assert forall|j: int| 0 <= j < N && column_degree(h, j) <= 255 implies (#[trigger] flip_where(
        bits,
        dec.gallager_b_flips(bits, t),
    )[j] != bits[j] <==> column_degree(h, j) > 0 && unsatisfied(h, bits, j) >= t) by {
        lemma_scores_from_matrix(dec, bits, j);
        let d = dec.col_support(j).len();
        assert(dec.col_degree(j) == d);
        lemma_small_cast(dec.col_degree(j));
        assert((dec.col_degree(j) as u8) == d);
    }
}

proof fn lemma_small_cast(x: u32)
    by (bit_vector)
    requires
        x < 256,
    ensures
        x as u8 == x,
{
}

proof fn lemma_first_index(s: Seq<int>, m: int, n: int)
    requires
        0 <= n <= s.len(),
        exists|k: int| 0 <= k < n && s[k] == m,
    ensures
        exists|b: int| 0 <= b < n && s[b] == m && forall|q: int| 0 <= q < b ==> s[q] != m,
    decreases n,
{
    if exists|k: int| 0 <= k < n - 1 && s[k] == m {
        lemma_first_index(s, m, n - 1);
        let b = choose|b: int| 0 <= b < n - 1 && s[b] == m && forall|q: int| 0 <= q < b ==> s[q] != m;
        assert(0 <= b < n && s[b] == m && forall|q: int| 0 <= q < b ==> s[q] != m);
    } else {
        let k = choose|k: int| 0 <= k < n && s[k] == m;
        assert(k == n - 1);
        assert(forall|q: int| 0 <= q < n - 1 ==> s[q] != m);
    }
}

/// Position `j` holds the greatest entry of `s`, which is positive, exactly
/// when its entry is positive and no entry is larger.
proof fn lemma_max_rule(s: Seq<int>, j: int)
    requires
        0 <= j < s.len(),
    ensures
        (seq_max(s) > 0 && s[j] == seq_max(s)) <==> (s[j] > 0 && forall|k: int|
            0 <= k < s.len() ==> #[trigger] s[k] <= s[j]),
{
    lemma_seq_max_props(s);
    if s[j] > 0 && forall|k: int| 0 <= k < s.len() ==> #[trigger] s[k] <= s[j] {
        let k = choose|k: int| 0 <= k < s.len() && s[k] == seq_max(s);
        assert(s[k] <= s[j]);
    }
}

/// Position `j` is the first that holds the greatest entry of `s`, which is
/// positive, exactly when its entry is positive, no entry is larger and
/// every earlier entry is smaller.
proof fn lemma_first_max_rule(s: Seq<int>, j: int)
    requires
        0 <= j < s.len(),
    ensures
        (seq_max(s) > 0 && j == first_max_index(s)) <==> (s[j] > 0 && (forall|k: int|
            0 <= k < s.len() ==> #[trigger] s[k] <= s[j]) && (forall|k: int|
            0 <= k < j ==> #[trigger] s[k] < s[j])),
{
    lemma_seq_max_props(s);
    let m = seq_max(s);
    if m > 0 {
        lemma_first_index(s, m, s.len() as int);
        let b0 = choose|b: int| 0 <= b < s.len() && s[b] == m && forall|q: int| 0 <= q < b ==> s[q] != m;
        assert forall|q: int| 0 <= q < b0 implies s[q] < s[b0] by {
            assert(s[q] <= m);
        }
        let b = first_max_index(s);
        assert(0 <= b < s.len() && s[b] == m && forall|q: int| 0 <= q < b ==> s[q] < s[b]);
        if s[j] > 0 && (forall|k: int| 0 <= k < s.len() ==> #[trigger] s[k] <= s[j]) && (forall|k: int|
            0 <= k < j ==> #[trigger] s[k] < s[j]) {
            assert(s[b] <= s[j]);
            assert(s[j] <= m);
            if b < j {
                assert(s[b] < s[j]);
            } else if b > j {
                assert(s[j] < s[b]);
            }
        }
    } else {
        assert(s[j] <= m);
    }
}

/// WBF law: on a binary word, the weighted score of each bit is the total
/// weight of its failing checks, a check with `d` ones weighing
/// `65536 / max(d, 1)`; one step flips bit `j` exactly when its score is
/// positive, no score is larger and every earlier bit scores less.
pub proof fn lemma_wbf_rule<const M: usize, const N: usize>(
    dec: LdpcDecoder<M, N>,
    bits: Seq<u8>,
)
    requires
        dec.wf(),
        bits.len() == N,
        is_binary(bits),
    ensures
        forall|j: int|
            0 <= j < N ==> #[trigger] dec.wbf_scores(bits)[j] == weighted_unsatisfied(
                dec.matrix(),
                bits,
                j,
            ),
        forall|j: int|
            0 <= j < N ==> (#[trigger] flip_where(bits, dec.wbf_flips(bits))[j] != bits[j] <==> {
                let h = dec.matrix();
                &&& weighted_unsatisfied(h, bits, j) > 0
                &&& forall|k: int|
                    0 <= k < N ==> #[trigger] weighted_unsatisfied(h, bits, k)
                        <= weighted_unsatisfied(h, bits, j)
                &&& forall|k: int|
                    0 <= k < j ==> #[trigger] weighted_unsatisfied(h, bits, k)
                        < weighted_unsatisfied(h, bits, j)
            }),
{
    let h = dec.matrix();
    let s = dec.wbf_scores(bits);
    assert forall|j: int| 0 <= j < N implies #[trigger] s[j] == weighted_unsatisfied(h, bits, j) by {
        lemma_scores_from_matrix(dec, bits, j);
    }
    assert forall|j: int| 0 <= j < N implies (#[trigger] flip_where(bits, dec.wbf_flips(bits))[j]
        != bits[j] <==> {
        &&& weighted_unsatisfied(h, bits, j) > 0
        &&& forall|k: int|
            0 <= k < N ==> #[trigger] weighted_unsatisfied(h, bits, k) <= weighted_unsatisfied(
                h,
                bits,
                j,
            )
        &&& forall|k: int|
            0 <= k < j ==> #[trigger] weighted_unsatisfied(h, bits, k) < weighted_unsatisfied(
                h,
                bits,
                j,
            )
    }) by {
        lemma_first_max_rule(s, j);
        assert(s[j] == weighted_unsatisfied(h, bits, j));
        if forall|k: int| 0 <= k < N ==> #[trigger] s[k] <= s[j] {
            assert forall|k: int| 0 <= k < N implies #[trigger] weighted_unsatisfied(h, bits, k)
                <= weighted_unsatisfied(h, bits, j) by {
                assert(s[k] == weighted_unsatisfied(h, bits, k));
            }
        }
        if forall|k: int| 0 <= k < N ==> #[trigger] weighted_unsatisfied(h, bits, k)
            <= weighted_unsatisfied(h, bits, j) {
            assert forall|k: int| 0 <= k < N implies #[trigger] s[k] <= s[j] by {
                assert(s[k] == weighted_unsatisfied(h, bits, k));
            }
        }
        if forall|k: int| 0 <= k < j ==> #[trigger] s[k] < s[j] {
            assert forall|k: int| 0 <= k < j implies #[trigger] weighted_unsatisfied(h, bits, k)
                < weighted_unsatisfied(h, bits, j) by {
                assert(s[k] == weighted_unsatisfied(h, bits, k));
            }
        }
        if forall|k: int| 0 <= k < j ==> #[trigger] weighted_unsatisfied(h, bits, k)
            < weighted_unsatisfied(h, bits, j) {
            assert forall|k: int| 0 <= k < j implies #[trigger] s[k] < s[j] by {
                assert(s[k] == weighted_unsatisfied(h, bits, k));
            }
        }
    }
}

proof fn lemma_normalized_is_scaled(u: nat, d: nat)
    requires
        u <= d <= 65535,
    ensures
        normalized_score(u, d as u32) as int == (u * 65536) / if d == 0 {
            1nat
        } else {
            d
        },
{
    let uu = u as u32;
    assert(uu == u);
    lemma_shift_is_scale(uu);
    let den: u32 = if d == 0 {
        1u32
    } else {
        d as u32
    };
    assert(normalized_score(u, d as u32) == (uu << 16u32) / den);
}

proof fn lemma_common_positive(a: Seq<u8>, b: Seq<u8>, n: int)
    requires
        count_common(a, b, n) > 0,
    ensures
        exists|k: int| 0 <= k < n && a[k] == 1 && b[k] == 1,
    decreases n,
{
    if n > 0 {
        if !(a[n - 1] == 1 && b[n - 1] == 1) {
            lemma_common_positive(a, b, n - 1);
        }
    }
}

proof fn lemma_unsatisfied_at(h: Seq<Seq<u8>>, bits: Seq<u8>, j: int, i: int, n: int)
    requires
        0 <= i < n,
        h[i][j] == 1,
        check_fails(h, i, bits),
    ensures
        unsatisfied_prefix(h, bits, j, n) >= 1,
    decreases n,
{
    if i < n - 1 {
        lemma_unsatisfied_at(h, bits, j, i, n - 1);
    }
}

proof fn lemma_normalized_positive(u: nat, d: nat)
    by (nonlinear_arith)
    requires
        1 <= u,
        1 <= d <= 65535,
    ensures
        (u * 65536) / d >= 1,
{
}

/// NWBF law: when no bit takes part in more than 65535 checks, the
/// normalized score of every bit of a binary word is
/// `unsatisfied * 65536 / max(degree, 1)`, whether or not all of its checks
/// fail; one step flips exactly the bits of greatest positive score; and on
/// a word that fails some check, at least one bit is flipped.
pub proof fn lemma_nwbf_rule<const M: usize, const N: usize>(dec: LdpcDecoder<M, N>, bits: Seq<u8>)
    requires
        dec.wf(),
        bits.len() == N,
        is_binary(bits),
        forall|j: int| 0 <= j < N ==> #[trigger] column_degree(dec.matrix(), j) <= 65535,
    ensures
        forall|j: int|
            0 <= j < N ==> #[trigger] dec.nwbf_scores(bits)[j] == normalized_unsatisfied(
                dec.matrix(),
                bits,
                j,
            ),
        forall|j: int|
            0 <= j < N ==> (#[trigger] flip_where(
                bits,
                LdpcDecoder::<M, N>::flips_at_max(dec.nwbf_scores(bits)),
            )[j] != bits[j] <==> {
                let h = dec.matrix();
                &&& normalized_unsatisfied(h, bits, j) > 0
                &&& forall|k: int|
                    0 <= k < N ==> #[trigger] normalized_unsatisfied(h, bits, k)
                        <= normalized_unsatisfied(h, bits, j)
            }),
        (exists|i: int| 0 <= i < M && #[trigger] check_fails(dec.matrix(), i, bits)) ==> exists|
            j: int,
        |
            0 <= j < N && #[trigger] flip_where(
                bits,
                LdpcDecoder::<M, N>::flips_at_max(dec.nwbf_scores(bits)),
            )[j] != bits[j],
{
    dec.lemma_adjacency_bounds();
    let h = dec.matrix();
    let s = dec.nwbf_scores(bits);
    let flips = LdpcDecoder::<M, N>::flips_at_max(s);
    assert forall|j: int| 0 <= j < N implies #[trigger] s[j] == normalized_unsatisfied(h, bits, j) by {
        lemma_scores_from_matrix(dec, bits, j);
        let d = dec.col_support(j).len();
        assert(dec.col_degree(j) == d);
        lemma_normalized_is_scaled(unsatisfied(h, bits, j), d);
    }
    assert forall|j: int| 0 <= j < N implies (#[trigger] flip_where(bits, flips)[j] != bits[j] <==> {
        &&& normalized_unsatisfied(h, bits, j) > 0
        &&& forall|k: int|
            0 <= k < N ==> #[trigger] normalized_unsatisfied(h, bits, k) <= normalized_unsatisfied(
                h,
                bits,
                j,
            )
    }) by {
        lemma_max_rule(s, j);
        if forall|k: int| 0 <= k < N ==> #[trigger] s[k] <= s[j] {
            assert forall|k: int| 0 <= k < N implies #[trigger] normalized_unsatisfied(h, bits, k)
                <= normalized_unsatisfied(h, bits, j) by {
                assert(s[k] == normalized_unsatisfied(h, bits, k));
            }
        }
        if forall|k: int| 0 <= k < N ==> #[trigger] normalized_unsatisfied(h, bits, k)
            <= normalized_unsatisfied(h, bits, j) {
            assert forall|k: int| 0 <= k < N implies #[trigger] s[k] <= s[j] by {
                assert(s[k] == normalized_unsatisfied(h, bits, k));
            }
        }
    }
    if exists|i: int| 0 <= i < M && #[trigger] check_fails(h, i, bits) {
        let i = choose|i: int| 0 <= i < M && #[trigger] check_fails(h, i, bits);
        assert(h[i].len() == N);
        lemma_common_positive(h[i], bits, N as int);
        let c = choose|c: int| 0 <= c < N && h[i][c] == 1 && bits[c] == 1;
        lemma_unsatisfied_at(h, bits, c, i, M as int);
        lemma_scores_from_matrix(dec, bits, c);
        lemma_normalized_positive(unsatisfied(h, bits, c), column_degree(h, c));
        assert(s[c] > 0);
        lemma_seq_max_props(s);
        let k = choose|k: int| 0 <= k < s.len() && s[k] == seq_max(s);
        assert(s[c] <= seq_max(s));
        assert(flips[k]);
        assert(flip_where(bits, flips)[k] != bits[k]);
    }
}

/// MWBF law: on a binary word, one step flips exactly the bits with the
/// greatest positive number of failing checks.
pub proof fn lemma_mwbf_rule<const M: usize, const N: usize>(dec: LdpcDecoder<M, N>, bits: Seq<u8>)
    requires
        dec.wf(),
        bits.len() == N,
        is_binary(bits),
    ensures
        forall|j: int|
            0 <= j < N ==> (#[trigger] flip_where(
                bits,
                LdpcDecoder::<M, N>::flips_at_max(dec.mwbf_scores(bits)),
            )[j] != bits[j] <==> {
                let h = dec.matrix();
                &&& unsatisfied(h, bits, j) > 0
                &&& forall|k: int|
                    0 <= k < N ==> #[trigger] unsatisfied(h, bits, k) <= unsatisfied(h, bits, j)
            }),
{
    let h = dec.matrix();
    let s = dec.mwbf_scores(bits);
    let flips = LdpcDecoder::<M, N>::flips_at_max(s);
    assert forall|j: int| 0 <= j < N implies #[trigger] s[j] == unsatisfied(h, bits, j) by {
        lemma_scores_from_matrix(dec, bits, j);
    }
    assert forall|j: int| 0 <= j < N implies (#[trigger] flip_where(bits, flips)[j] != bits[j] <==> {
        &&& unsatisfied(h, bits, j) > 0
        &&& forall|k: int| 0 <= k < N ==> #[trigger] unsatisfied(h, bits, k) <= unsatisfied(h, bits, j)
    }) by {
        lemma_max_rule(s, j);
        if forall|k: int| 0 <= k < N ==> #[trigger] s[k] <= s[j] {
            assert forall|k: int| 0 <= k < N implies #[trigger] unsatisfied(h, bits, k) <= unsatisfied(
                h,
                bits,
                j,
            ) by {
                assert(s[k] == unsatisfied(h, bits, k));
            }
        }
        if forall|k: int| 0 <= k < N ==> #[trigger] unsatisfied(h, bits, k) <= unsatisfied(h, bits, j) {
            assert forall|k: int| 0 <= k < N implies #[trigger] s[k] <= s[j] by {
                assert(s[k] == unsatisfied(h, bits, k));
            }
        }
    }
}

/// The decoder's vote count of bit `j` against any check pattern `sn` is
/// the number of rows where both column `j` and `sn` hold a 1.
pub proof fn lemma_votes_count_common<const M: usize, const N: usize>(
    dec: LdpcDecoder<M, N>,
    j: int,
    sn: Seq<u8>,
)
    requires
        dec.wf(),
        0 <= j < N,
    ensures
        dec.votes(j, sn) == count_common(column(dec.matrix(), j), sn, M as int),
{
    dec.lemma_adjacency_bounds();
    assert(column(dec.matrix(), j).len() == M);
    lemma_flagged_is_common(column(dec.matrix(), j), sn, M as int);
}

} // verus!
