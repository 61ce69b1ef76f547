//! The text form of a parity-check matrix row: one character `0` or `1` per
//! entry.
use vstd::prelude::*;

verus! {

/// The entry written by character `c`, if it is `0` (48) or `1` (49).
pub open spec fn bit_of_char(c: u8) -> Option<u8> {
    if c == 48 {
        Some(0u8)
    } else if c == 49 {
        Some(1u8)
    } else {
        None
    }
}

/// Reads one matrix row written as characters `0`/`1`. On any other
/// character, returns the position of the first one.
pub fn parse_bit_row(line: &[u8]) -> (res: Result<Vec<u8>, usize>)
    ensures
        match res {
            Ok(row) => {
                &&& row@.len() == line@.len()
                &&& forall|k: int| 0 <= k < line@.len() ==> Some(#[trigger] row@[k]) == bit_of_char(line@[k])
            },
            Err(k) => {
                &&& k < line@.len()
                &&& bit_of_char(line@[k as int]) is None
                &&& forall|t: int| 0 <= t < k ==> #[trigger] bit_of_char(line@[t]) is Some
            },
        },
{
    let mut row: Vec<u8> = Vec::new();
    let mut k: usize = 0;
    while k < line.len()
        invariant
            k <= line@.len(),
            row@.len() == k,
            forall|t: int| 0 <= t < k ==> Some(#[trigger] row@[t]) == bit_of_char(line@[t]),
        decreases line@.len() - k,
    {
        let c = line[k];
        if c == 48u8 {
            row.push(0);
        } else if c == 49u8 {
            row.push(1);
        } else {
            proof {
                assert forall|t: int| 0 <= t < k implies #[trigger] bit_of_char(line@[t]) is Some by {
                    assert(Some(row@[t]) == bit_of_char(line@[t]));
                }
            }
            return Err(k);
        }
        k = k + 1;
    }
    Ok(row)
}

} // verus!
