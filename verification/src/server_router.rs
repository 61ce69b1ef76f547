//! The request logic of the decoding microservice: validation of requests,
//! the bit-flip decoding loop, and the syndrome summary of both endpoints.
use vstd::prelude::*;
use crate::bitarray::{bit_view, lemma_bit_view_binary, lemma_set_bit_view, BitArray};
use crate::flip_rules::{check_fails, failing_checks, lemma_syndrome_marks_failing_checks};
use crate::gf2::{is_binary, zeros};
use crate::ldpc_decoder::{flip_where, lemma_syndrome_binary, lemma_wbf_score_bounded, LdpcDecoder};

verus! {

/// Upper bound on client-supplied iteration counts for both endpoints.
pub const MAX_ITERATIONS: usize = 200;

/// Iteration limit of the message-passing endpoint when the client gives none.
pub const DEFAULT_SPA_ITERATIONS: usize = 20;

/// A bit-flip decoding request: 512 unpacked bits and an iteration limit.
pub struct DecodeRequest {
    pub cw: [u8; 512],
    pub iterations: usize,
}

/// The answer to a bit-flip decoding request.
pub struct DecodeResponse {
    pub valid: bool,
    pub cw: Vec<u8>,
    pub syndrome_weight: usize,
}

/// The answer to a message-passing decoding request.
pub struct SpaDecodeResponse {
    pub valid: bool,
    /// Decoded bits.
    pub cw: Vec<u8>,
    pub syndrome_weight: usize,
    pub iterations: usize,
    pub converged: bool,
}

/// Why a request was refused.
#[derive(Debug, Clone, Copy, PartialEq, Eq, Structural)]
pub enum RequestError {
    /// `cw[index] == value`, but bits must be 0 or 1.
    InvalidBit { index: usize, value: u8 },
    /// The iteration count is 0 or above `MAX_ITERATIONS`.
    IterationsOutOfRange,
}

/// The number of entries of `s` equal to 1.
pub open spec fn count_ones(s: Seq<u8>) -> nat
    decreases s.len(),
{
    if s.len() == 0 {
        0
    } else {
        count_ones(s.drop_last()) + if s.last() == 1 {
            1nat
        } else {
            0nat
        }
    }
}

/// The word after at most `n` WBF iterations, stopping at the first codeword.
pub open spec fn wbf_run<const M: usize, const N: usize>(
    dec: LdpcDecoder<M, N>,
    bits: Seq<u8>,
    n: nat,
) -> Seq<u8>
    decreases n,
{
    if n == 0 || dec.is_codeword(bits) {
        bits
    } else {
        wbf_run(dec, flip_where(bits, dec.wbf_flips(bits)), (n - 1) as nat)
    }
}

/// One WBF iteration: a codeword is left as it is; otherwise the first bit
/// of greatest positive weighted score is flipped.
pub open spec fn wbf_step<const M: usize, const N: usize>(
    dec: LdpcDecoder<M, N>,
    bits: Seq<u8>,
) -> Seq<u8> {
    if dec.is_codeword(bits) {
        bits
    } else {
        flip_where(bits, dec.wbf_flips(bits))
    }
}

/// The word after `n` WBF iterations in a row.
pub open spec fn wbf_steps<const M: usize, const N: usize>(
    dec: LdpcDecoder<M, N>,
    bits: Seq<u8>,
    n: nat,
) -> Seq<u8>
    decreases n,
{
    if n == 0 {
        bits
    } else {
        wbf_step(dec, wbf_steps(dec, bits, (n - 1) as nat))
    }
}

proof fn lemma_wbf_steps_of_codeword<const M: usize, const N: usize>(
    dec: LdpcDecoder<M, N>,
    bits: Seq<u8>,
    n: nat,
)
    requires
        dec.is_codeword(bits),
    ensures
        wbf_steps(dec, bits, n) == bits,
    decreases n,
{
    if n > 0 {
        lemma_wbf_steps_of_codeword(dec, bits, (n - 1) as nat);
    }
}

proof fn lemma_wbf_steps_shift<const M: usize, const N: usize>(
    dec: LdpcDecoder<M, N>,
    bits: Seq<u8>,
    n: nat,
)
    requires
        n >= 1,
    ensures
        wbf_steps(dec, bits, n) == wbf_steps(dec, wbf_step(dec, bits), (n - 1) as nat),
    decreases n,
{
    if n > 1 {
        lemma_wbf_steps_shift(dec, bits, (n - 1) as nat);
        assert(wbf_steps(dec, wbf_step(dec, bits), (n - 1) as nat) == wbf_step(
            dec,
            wbf_steps(dec, wbf_step(dec, bits), (n - 2) as nat),
        ));
    } else {
        assert(wbf_steps(dec, bits, 0) == bits);
        assert(wbf_steps(dec, wbf_step(dec, bits), 0) == wbf_step(dec, bits));
    }
}

/// Running at most `n` WBF iterations and stopping at the first codeword
/// gives the word after exactly `n` iterations, for every `n`: the decoding
/// loop runs as many iterations as were asked for, and a codeword, once
/// reached, stays.
pub proof fn lemma_wbf_run_is_repeated_step<const M: usize, const N: usize>(
    dec: LdpcDecoder<M, N>,
    bits: Seq<u8>,
    n: nat,
)
    ensures
        wbf_run(dec, bits, n) == wbf_steps(dec, bits, n),
        wbf_steps(dec, bits, n + 1) == wbf_step(dec, wbf_steps(dec, bits, n)),
        dec.is_codeword(bits) ==> wbf_steps(dec, bits, n) == bits,
    decreases n,
{
    if dec.is_codeword(bits) {
        lemma_wbf_steps_of_codeword(dec, bits, n);
    } else if n > 0 {
        lemma_wbf_run_is_repeated_step(dec, wbf_step(dec, bits), (n - 1) as nat);
        lemma_wbf_steps_shift(dec, bits, n);
    }
}

/// The 0/1 word with a 1 exactly where `bits` holds 1, padded with 0 to `n` bits.
pub open spec fn ones_of(bits: Seq<u8>, n: nat) -> Seq<u8> {
    Seq::new(n, |t: int| if t < bits.len() && bits[t] == 1 { 1u8 } else { 0u8 })
}

/// The position of the first entry above 1, if any.
pub open spec fn first_non_bit(s: Seq<u8>) -> Option<int> {
    if exists|k: int| 0 <= k < s.len() && s[k] > 1 {
        Some(choose|k: int| 0 <= k < s.len() && s[k] > 1 && forall|t: int| 0 <= t < k ==> s[t] <= 1)
    } else {
        None
    }
}

proof fn lemma_count_ones_take(s: Seq<u8>, i: int)
    requires
        0 <= i < s.len(),
    ensures
        count_ones(s.take(i + 1)) == count_ones(s.take(i)) + if s[i] == 1 {
            1nat
        } else {
            0nat
        },
        count_ones(s.take(i)) <= i,
    decreases i,
{
    assert(s.take(i + 1).drop_last() =~= s.take(i));
    if i > 0 {
        lemma_count_ones_take(s, i - 1);
    }
}

proof fn lemma_count_ones_zero(s: Seq<u8>)
    ensures
        count_ones(s) == 0 <==> forall|k: int| 0 <= k < s.len() ==> #[trigger] s[k] != 1,
    decreases s.len(),
{
    if s.len() > 0 {
        lemma_count_ones_zero(s.drop_last());
        if count_ones(s) == 0 {
            assert forall|k: int| 0 <= k < s.len() implies #[trigger] s[k] != 1 by {
                if k < s.len() - 1 {
                    assert(s.drop_last()[k] == s[k]);
                }
            }
        }
        if forall|k: int| 0 <= k < s.len() ==> #[trigger] s[k] != 1 {
            assert forall|k: int| 0 <= k < s.drop_last().len() implies #[trigger] s.drop_last()[k] != 1 by {
                assert(s[k] != 1);
            }
            assert(s[s.len() - 1] != 1);
        }
    }
}

/// For a binary word, no check fails (syndrome weight 0) exactly when the
/// word is a codeword.
pub proof fn lemma_zero_weight_iff_codeword<const M: usize, const N: usize>(
    dec: LdpcDecoder<M, N>,
    bits: Seq<u8>,
)
    requires
        dec.wf(),
        bits.len() == N,
        is_binary(bits),
    ensures
        (count_ones(dec.syndrome(bits)) == 0) == dec.is_codeword(bits),
{
    let sn = dec.syndrome(bits);
    lemma_syndrome_binary(dec, bits);
    lemma_count_ones_zero(sn);
    if count_ones(sn) == 0 {
        assert forall|k: int| 0 <= k < M implies #[trigger] sn[k] == zeros(M as nat)[k] by {
            assert(sn[k] != 1);
            assert(sn[k] <= 1);
        }
        assert(sn =~= zeros(M as nat));
    }
    if dec.is_codeword(bits) {
        assert forall|k: int| 0 <= k < sn.len() implies #[trigger] sn[k] != 1 by {
            assert(sn[k] == zeros(M as nat)[k]);
        }
    }
}

proof fn lemma_weight_prefix<const M: usize, const N: usize>(
    dec: LdpcDecoder<M, N>,
    bits: Seq<u8>,
    n: int,
)
    requires
        0 <= n <= M,
        dec.syndrome(bits).len() == M,
        forall|i: int|
            0 <= i < M ==> #[trigger] dec.syndrome(bits)[i] == if check_fails(dec.matrix(), i, bits) {
                1u8
            } else {
                0u8
            },
    ensures
        count_ones(dec.syndrome(bits).take(n)) == failing_checks(dec.matrix(), bits, n),
    decreases n,
{
    if n > 0 {
        lemma_weight_prefix(dec, bits, n - 1);
        lemma_count_ones_take(dec.syndrome(bits), n - 1);
        assert(dec.syndrome(bits)[n - 1] == if check_fails(dec.matrix(), n - 1, bits) {
            1u8
        } else {
            0u8
        });
    } else {
        assert(dec.syndrome(bits).take(0) =~= Seq::<u8>::empty());
    }
}

/// For a binary word, the syndrome weight is the number of failing checks.
pub proof fn lemma_weight_is_failing_checks<const M: usize, const N: usize>(
    dec: LdpcDecoder<M, N>,
    bits: Seq<u8>,
)
    requires
        dec.wf(),
        bits.len() == N,
        is_binary(bits),
    ensures
        count_ones(dec.syndrome(bits)) == failing_checks(dec.matrix(), bits, M as int),
{
    lemma_syndrome_marks_failing_checks(dec, bits);
    lemma_weight_prefix(dec, bits, M as int);
    assert(dec.syndrome(bits).take(M as int) =~= dec.syndrome(bits));
}

/// Counts the entries of `sn` equal to 1.
fn syndrome_weight<const M: usize>(sn: &[u8; M]) -> (w: usize)
    ensures
        w == count_ones(sn@),
{
    let mut w: usize = 0;
    let mut i: usize = 0;
    while i < M
        invariant
            i <= M,
            w == count_ones(sn@.take(i as int)),
        decreases M - i,
    {
        proof {
            lemma_count_ones_take(sn@, i as int);
        }
        if sn[i] == 1 {
            w = w + 1;
        }
        i = i + 1;
    }
    assert(sn@.take(M as int) =~= sn@);
    w
}

/// Packs the entries of `bits` equal to 1 into 64 bytes (512 bits); entries
/// past the 512th are ignored.
fn pack_ones(bits: &[u8]) -> (packed: [u8; 64])
    ensures
        bit_view(packed@) == ones_of(bits@, 512),
{
    let mut packed = [0u8; 64];
    assert(bit_view(packed@) =~= ones_of(Seq::<u8>::empty(), 512)) by {
        assert forall|t: int| 0 <= t < 512 implies #[trigger] bit_view(packed@)[t] == 0u8 by {
            crate::gf2::lemma_u8_xor_facts(0, 0, 0, 0);
            lemma_zero_bits();
        }
    }
    let mut j: usize = 0;
    while j < bits.len()
        invariant
            j <= bits@.len(),
            bit_view(packed@) == ones_of(bits@.take(j as int), 512),
        decreases bits@.len() - j,
    {
        proof {
            lemma_set_bit_view(packed@, j as int, bits@[j as int] == 1);
        }
        BitArray::set_bit(&mut packed, j, bits[j] == 1);
        assert(bit_view(packed@) =~= ones_of(bits@.take(j + 1), 512));
        j = j + 1;
    }
    assert(bits@.take(bits@.len() as int) =~= bits@);
    packed
}

proof fn lemma_zero_bits()
    by (bit_vector)
    ensures
        forall|p: u8| #[trigger] ((0u8 >> p) & 1u8) == 0u8,
{
}

/// Unpacks the 512 bits of `packed`, one entry per bit.
fn unpack(packed: &[u8; 64]) -> (bits: Vec<u8>)
    ensures
        bits@ == bit_view(packed@),
{
    let mut bits: Vec<u8> = Vec::new();
    let mut j: usize = 0;
    while j < 512
        invariant
            j <= 512,
            bits@.len() == j,
            forall|t: int| 0 <= t < j ==> #[trigger] bits@[t] == bit_view(packed@)[t],
        decreases 512 - j,
    {
        bits.push(BitArray::get_bit(packed, j));
        j = j + 1;
    }
    assert(bits@ =~= bit_view(packed@));
    bits
}

/// Checks a bit-flip request and decodes it: runs WBF iterations on the
/// packed word until it is a codeword or `iterations` have run, then reports
/// the word, whether it is a codeword and how many checks fail.
pub fn decode_bitflip(
    decoder: &LdpcDecoder<256, 512>,
    req: &DecodeRequest,
) -> (res: Result<DecodeResponse, RequestError>)
    requires
        decoder.wf(),
    ensures
        match first_non_bit(req.cw@) {
            Some(k) => res == Err::<DecodeResponse, RequestError>(
                RequestError::InvalidBit { index: k as usize, value: req.cw@[k] },
            ),
            None => if req.iterations == 0 || req.iterations > MAX_ITERATIONS {
                res == Err::<DecodeResponse, RequestError>(RequestError::IterationsOutOfRange)
            } else {
                &&& res is Ok
                &&& res->Ok_0.cw@ == wbf_run(*decoder, req.cw@, req.iterations as nat)
                &&& res->Ok_0.cw@ == wbf_steps(*decoder, req.cw@, req.iterations as nat)
                &&& res->Ok_0.valid == decoder.is_codeword(res->Ok_0.cw@)
                &&& res->Ok_0.valid <==> forall|i: int|
                    0 <= i < 256 ==> !(#[trigger] check_fails(decoder.matrix(), i, res->Ok_0.cw@))
                &&& res->Ok_0.syndrome_weight == count_ones(decoder.syndrome(res->Ok_0.cw@))
                &&& res->Ok_0.syndrome_weight == failing_checks(decoder.matrix(), res->Ok_0.cw@, 256)
            },
        },
{
    let mut k: usize = 0;
    while k < 512
        invariant
            k <= 512,
            forall|t: int| 0 <= t < k ==> #[trigger] req.cw@[t] <= 1,
        decreases 512 - k,
    {
        if req.cw[k] > 1 {
            proof {
                let s = req.cw@;
                assert(exists|q: int| 0 <= q < s.len() && s[q] > 1);
                let c = first_non_bit(s).unwrap();
                assert(0 <= c < s.len() && s[c] > 1 && forall|t: int| 0 <= t < c ==> s[t] <= 1);
                if c < k {
                    assert(s[c] <= 1);
                } else if c > k {
                    assert(s[k as int] <= 1);
                }
            }
            return Err(RequestError::InvalidBit { index: k, value: req.cw[k] });
        }
        k = k + 1;
    }
    assert(first_non_bit(req.cw@) is None);
    if req.iterations == 0 || req.iterations > MAX_ITERATIONS {
        return Err(RequestError::IterationsOutOfRange);
    }
    let mut cw = pack_ones(&req.cw);
    assert(ones_of(req.cw@, 512) =~= req.cw@);
    let ghost total = req.iterations as nat;
    let mut it: usize = 0;
    while it < req.iterations
        invariant
            decoder.wf(),
            it <= req.iterations,
            total == req.iterations,
            bit_view(cw@).len() == 512,
            wbf_run(*decoder, bit_view(cw@), (total - it) as nat) == wbf_run(
                *decoder,
                req.cw@,
                total,
            ),
        ensures
            bit_view(cw@) == wbf_run(*decoder, req.cw@, total),
        decreases req.iterations - it,
    {
        proof {
            assert forall|j: int| 0 <= j < 512 implies #[trigger] decoder.wbf_score(
                j,
                decoder.syndrome(bit_view(cw@)),
            ) <= u32::MAX by {
                lemma_wbf_score_bounded(*decoder, j, decoder.syndrome(bit_view(cw@)));
            }
        }
        let ghost before = bit_view(cw@);
        let done = decoder.iterate_bitflip(&mut cw);
        if done {
            break;
        }
        proof {
            assert(bit_view(cw@) == flip_where(before, decoder.wbf_flips(before)));
        }
        it = it + 1;
    }
    proof {
        lemma_wbf_run_is_repeated_step(*decoder, req.cw@, total);
        lemma_bit_view_binary(cw@);
        lemma_weight_is_failing_checks(*decoder, bit_view(cw@));
    }
    let mut sn = [0u8; 256];
    let valid = decoder.get_parity(&cw, &mut sn);
    let syndrome_weight = syndrome_weight(&sn);
    let unpacked_cw = unpack(&cw);
    Ok(DecodeResponse { valid, cw: unpacked_cw, syndrome_weight })
}

/// The iteration limit of a message-passing request: the requested value,
/// or `DEFAULT_SPA_ITERATIONS` when none is given; refused when 0 or above
/// `MAX_ITERATIONS`.
pub fn spa_iterations(requested: Option<usize>) -> (res: Result<usize, RequestError>)
    ensures
        ({
            let n = match requested {
                Some(n) => n,
                None => DEFAULT_SPA_ITERATIONS,
            };
            if n == 0 || n > MAX_ITERATIONS {
                res == Err::<usize, RequestError>(RequestError::IterationsOutOfRange)
            } else {
                res == Ok::<usize, RequestError>(n)
            }
        }),
{
    let n = match requested {
        Some(n) => n,
        None => DEFAULT_SPA_ITERATIONS,
    };
    if n == 0 || n > MAX_ITERATIONS {
        Err(RequestError::IterationsOutOfRange)
    } else {
        Ok(n)
    }
}

/// Summarizes a message-passing decode: packs the decoded bits (an entry
/// equal to 1 is a one), checks them against the decoder's parity checks and
/// reports the result as valid only when the decode converged and no check
/// fails.
pub fn spa_decode_response(
    decoder: &LdpcDecoder<256, 512>,
    decoded: Vec<u8>,
    iterations: usize,
    converged: bool,
) -> (resp: SpaDecodeResponse)
    requires
        decoder.wf(),
    ensures
        resp.cw@ == decoded@,
        resp.iterations == iterations,
        resp.converged == converged,
        resp.syndrome_weight == count_ones(decoder.syndrome(ones_of(decoded@, 512))),
        resp.valid == (converged && decoder.is_codeword(ones_of(decoded@, 512))
            && resp.syndrome_weight == 0),
        decoded@.len() == 512 && is_binary(decoded@) ==> {
            &&& resp.syndrome_weight == count_ones(decoder.syndrome(decoded@))
            &&& resp.syndrome_weight == failing_checks(decoder.matrix(), decoded@, 256)
            &&& resp.valid == (converged && resp.syndrome_weight == 0)
        },
{
    proof {
        if decoded@.len() == 512 && is_binary(decoded@) {
            assert(ones_of(decoded@, 512) =~= decoded@);
            lemma_zero_weight_iff_codeword(*decoder, decoded@);
            lemma_weight_is_failing_checks(*decoder, decoded@);
        }
    }
    let cw_bytes = pack_ones(decoded.as_slice());
    let mut sn = [0u8; 256];
    let valid_syndrome = decoder.get_parity(&cw_bytes, &mut sn);
    let syndrome_weight = syndrome_weight(&sn);
    let valid = converged && valid_syndrome && syndrome_weight == 0;
    SpaDecodeResponse { valid, cw: decoded, syndrome_weight, iterations, converged }
}

} // verus!
