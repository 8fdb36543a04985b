//! One 64-bit word that packs a flag (bit 63) with a 63-bit counter.

use vstd::prelude::*;

verus! {

/// The word whose only set bit is the flag bit.
pub const FLAG_VALUE: u64 = 0x8000_0000_0000_0000;

/// The largest counter that fits beside the flag.
pub const VALUE_MAX: u64 = 0x7FFF_FFFF_FFFF_FFFF;

/// The flag a packed word carries: whether bit 63 is set.
pub open spec fn word_flag(word: u64) -> bool {
    word >= FLAG_VALUE
}

/// The counter a packed word carries: the word without bit 63.
pub open spec fn word_value(word: u64) -> u64 {
    if word >= FLAG_VALUE {
        (word - FLAG_VALUE) as u64
    } else {
        word
    }
}

/// The packed word that carries `flag` and the low 63 bits of `value`.
pub open spec fn pack(flag: bool, value: u64) -> u64 {
    if flag {
        (word_value(value) + FLAG_VALUE) as u64
    } else {
        word_value(value)
    }
}

/// Testing bit 63 with a mask agrees with comparing against `FLAG_VALUE`.
pub proof fn lemma_flag_mask(word: u64)
    ensures
        (word & FLAG_VALUE > 0) == word_flag(word),
{
    assert((word & 0x8000_0000_0000_0000u64 > 0) == (word >= 0x8000_0000_0000_0000u64))
        by (bit_vector);
}

/// Clearing bit 63 with a mask leaves the counter.
pub proof fn lemma_value_mask(word: u64)
    ensures
        word & !FLAG_VALUE == word_value(word),
{
    assert(word >= 0x8000_0000_0000_0000u64 ==> word & !0x8000_0000_0000_0000u64 == (word
        - 0x8000_0000_0000_0000u64) as u64) by (bit_vector);
    assert(word < 0x8000_0000_0000_0000u64 ==> word & !0x8000_0000_0000_0000u64 == word)
        by (bit_vector);
}

/// Setting bit 63 with a mask keeps the counter and raises the flag.
pub proof fn lemma_flag_or(word: u64)
    ensures
        word | FLAG_VALUE == pack(true, word),
{
    assert(word >= 0x8000_0000_0000_0000u64 ==> word | 0x8000_0000_0000_0000u64 == word)
        by (bit_vector);
    assert(word < 0x8000_0000_0000_0000u64 ==> word | 0x8000_0000_0000_0000u64 == (word
        + 0x8000_0000_0000_0000u64) as u64) by (bit_vector);
}

/// What a packed word stands for.
pub struct FlagAndValue {
    pub flag: bool,
    pub value: nat,
}

/// A flag and a 63-bit counter sharing one word, so that both are read and
/// written together.
#[derive(Clone, Copy, Debug)]
pub struct FlagAndU63 {
    combined: u64,
}

impl View for FlagAndU63 {
    type V = FlagAndValue;

    open spec fn view(&self) -> FlagAndValue {
        FlagAndValue { flag: word_flag(self.repr()), value: word_value(self.repr()) as nat }
    }
}

impl FlagAndU63 {
    /// The word as stored.
    pub closed spec fn repr(self) -> u64 {
        self.combined
    }

    /// Packed words with the same representation are the same value.
    pub proof fn lemma_repr_determines(self, other: FlagAndU63)
        requires
            self.repr() == other.repr(),
        ensures
            self == other,
    {
    }

    /// Packs `flag` with `value`. Bit 63 of `value` is not masked off: a
    /// `value` of `FLAG_VALUE` or more raises the flag by itself.
    pub fn new(flag: bool, value: u64) -> (packed: FlagAndU63)
        ensures
            packed.repr() == pack(flag || word_flag(value), value),
            packed@.flag == (flag || value > VALUE_MAX),
            packed@.value == value as nat % (FLAG_VALUE as nat),
            value <= VALUE_MAX ==> packed@.value == value,
    {
        proof {
            lemma_flag_or(value);
        }
        if flag {
            FlagAndU63 { combined: value | FLAG_VALUE }
        } else {
            FlagAndU63 { combined: value }
        }
    }

    /// Create a FlagAndU63 from the internal representation of one.
    pub fn from_repr(repr: u64) -> (packed: FlagAndU63)
        ensures
            packed.repr() == repr,
    {
        FlagAndU63 { combined: repr }
    }

    /// Whether bit 63 is set.
    pub fn is_flag_set(&self) -> (flag: bool)
        ensures
            flag == self@.flag,
    {
        proof {
            lemma_flag_mask(self.combined);
        }
        self.combined & FLAG_VALUE > 0
    }

    /// The counter: the word without bit 63.
    pub fn value(&self) -> (value: u64)
        ensures
            value == self@.value,
            value <= VALUE_MAX,
    {
        proof {
            lemma_value_mask(self.combined);
        }
        self.combined & !FLAG_VALUE
    }

    /// Both parts, taken from one read of the word.
    pub fn flag_and_value(&self) -> (parts: (bool, u64))
        ensures
            parts.0 == self@.flag,
            parts.1 == self@.value,
            parts.1 <= VALUE_MAX,
    {
        let current_combined: u64 = self.combined;
        proof {
            lemma_flag_mask(current_combined);
            lemma_value_mask(current_combined);
        }
        (current_combined & FLAG_VALUE > 0, current_combined & !FLAG_VALUE)
    }

    /// Sets bit 63; the counter stays.
    pub fn set_flag(&mut self)
        ensures
            final(self)@.flag,
            final(self)@.value == old(self)@.value,
            final(self).repr() == pack(true, old(self).repr()),
    {
        proof {
            lemma_flag_or(self.combined);
        }
        self.combined = self.combined | FLAG_VALUE;
    }

    /// Clears bit 63; the counter stays.
    pub fn unset_flag(&mut self)
        ensures
            !final(self)@.flag,
            final(self)@.value == old(self)@.value,
            final(self).repr() == pack(false, old(self).repr()),
    {
        proof {
            lemma_value_mask(self.combined);
        }
        self.combined = self.combined & !FLAG_VALUE;
    }

    /// Return a reference to the combined representation of flag+u63.
    pub fn ref_combined(&self) -> (word: &u64)
        ensures
            *word == self.repr(),
    {
        &self.combined
    }

    /// Return internal combined representation of flag+u63.
    pub fn combined(&self) -> (word: u64)
        ensures
            word == self.repr(),
    {
        self.combined
    }
}

} // verus!
