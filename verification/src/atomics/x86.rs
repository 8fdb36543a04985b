//! The primitives as the x86-64 instructions `LOCK CMPXCHG`,
//! `LOCK CMPXCHG16B`, `LOCK XADD` and `LOCK BTS` behave.

use vstd::prelude::*;
use crate::flag_and_u63::FLAG_VALUE;
use crate::flag_and_u63::lemma_flag_or;
use crate::flag_and_u63::pack;

verus! {

/// Writes `new_value` if the word holds `expected`, and says whether it did.
pub fn compare_and_swap(destination: &mut u64, expected: u64, new_value: u64) -> (success: bool)
    ensures
        success == (*old(destination) == expected),
        *final(destination) == if success { new_value } else { *old(destination) },
{
    let value_at_dest: u64 = *destination;
    if value_at_dest == expected {
        *destination = new_value;
        true
    } else {
        false
    }
}

/// Writes `new_value` if the double word holds `expected`, and says whether
/// it did.
pub fn compare_and_swap_u128(destination: &mut u128, expected: u128, new_value: u128) -> (success: bool)
    ensures
        success == (*old(destination) == expected),
        *final(destination) == if success { new_value } else { *old(destination) },
{
    let value_at_dest: u128 = *destination;
    if value_at_dest == expected {
        *destination = new_value;
        true
    } else {
        false
    }
}

/// Adds `addend` to the word, wrapping at 64 bits, and returns what the word
/// held before.
pub fn fetch_and_add(destination: &mut u64, addend: u64) -> (value_at_dest: u64)
    ensures
        value_at_dest == *old(destination),
        *final(destination) as int == (*old(destination) + addend) % 0x1_0000_0000_0000_0000,
{
    let value_at_dest: u64 = *destination;
    *destination = value_at_dest.wrapping_add(addend);
    value_at_dest
}

/// Sets bit 63 of the word and leaves the other bits as they are.
pub fn test_and_set(destination: &mut u64)
    ensures
        *final(destination) == pack(true, *old(destination)),
{
    proof {
        lemma_flag_or(*destination);
    }
    *destination = *destination | FLAG_VALUE;
}

} // verus!
