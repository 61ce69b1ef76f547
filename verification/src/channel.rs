//! The integer decisions of the hard-decision channel models, taking the
//! random draws as arguments.
use vstd::prelude::*;

verus! {

/// The bit a binary symmetric channel delivers for `bit`, given whether the
/// channel's draw flipped it.
pub fn bsc_output(bit: u8, flipped: bool) -> (out: u8)
    ensures
        out == if flipped { bit ^ 1u8 } else { bit },
{
    if flipped {
        bit ^ 1
    } else {
        bit
    }
}

/// One step of the burst-noise channel at position `i`: when the draw
/// `burst` is true, entries `i .. min(i + burst_len, len)` are XORed with 1
/// and the step moves to the end of the burst; otherwise nothing changes and
/// the step moves to `i + 1`.
pub fn burst_step(bits: &mut [u8], i: usize, burst: bool, burst_len: usize) -> (next: usize)
    requires
        i < old(bits)@.len(),
        burst ==> i + burst_len <= usize::MAX,
    ensures
        final(bits)@.len() == old(bits)@.len(),
        next == if !burst {
            i + 1
        } else if i + burst_len < old(bits)@.len() {
            i + burst_len
        } else {
            old(bits)@.len() as int
        },
        forall|k: int|
            0 <= k < old(bits)@.len() ==> #[trigger] final(bits)@[k] == if burst && i <= k < next {
                old(bits)@[k] ^ 1u8
            } else {
                old(bits)@[k]
            },
{
    let n = bits.len();
    if !burst {
        return i + 1;
    }
    let end = if i + burst_len < n {
        i + burst_len
    } else {
        n
    };
    let mut k = i;
    while k < end
        invariant
            i <= k <= end,
            end <= n,
            n == bits@.len(),
            bits@.len() == old(bits)@.len(),
            forall|t: int|
                0 <= t < n ==> #[trigger] bits@[t] == if i <= t < k {
                    old(bits)@[t] ^ 1u8
                } else {
                    old(bits)@[t]
                },
        decreases end - k,
    {
        bits[k] = bits[k] ^ 1;
        k = k + 1;
    }
    end
}

} // verus!
