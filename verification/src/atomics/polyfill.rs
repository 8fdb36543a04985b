//! Portable forms of the primitives.

use vstd::prelude::*;

verus! {

/// Adds `addend` to the word, wrapping at 64 bits, and returns what the word
/// held before.
pub fn fetch_and_add(value: &mut u64, addend: u64) -> (prev_value: u64)
    ensures
        prev_value == *old(value),
        *final(value) as int == (*old(value) + addend) % 0x1_0000_0000_0000_0000,
{
    let prev_value: u64 = *value;
    *value = prev_value.wrapping_add(addend);
    prev_value
}

/// Sets every bit of the word.
pub fn test_and_set(value: &mut u64)
    ensures
        *final(value) == 0xffff_ffff_ffff_ffffu64,
{
    *value = 0xffff_ffff_ffff_ffff;
}

/// Writes `new_value` if the word holds `expected`, and says whether it did.
pub fn compare_and_swap(current: &mut u64, expected: u64, new_value: u64) -> (swapped: bool)
    ensures
        swapped == (*old(current) == expected),
        *final(current) == if swapped { new_value } else { *old(current) },
{
    if *current == expected {
        *current = new_value;
        true
    } else {
        false
    }
}

/// Writes both words of `new_value` if the pair holds `expected`, and says
/// whether it did.
pub fn compare_and_swap_2(current: &mut [u64; 2], expected: &[u64; 2], new_value: &[u64; 2]) -> (swapped: bool)
    ensures
        swapped == (old(current)@ == expected@),
        final(current)@ == if swapped { new_value@ } else { old(current)@ },
{
    if current[0] == expected[0] && current[1] == expected[1] {
        current[0] = new_value[0];
        current[1] = new_value[1];
        assert(current@ =~= new_value@);
        assert(old(current)@ =~= expected@);
        true
    } else {
        false
    }
}

} // verus!
