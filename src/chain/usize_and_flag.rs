use vstd::prelude::*;

verus! {

/// An even size and a boolean packed into one word: the flag is the lowest bit.
#[derive(Copy, Clone, Debug, PartialEq, Eq)]
pub struct UsizeAndFlag(pub usize);

/// The even number that `word` holds above its lowest bit.
pub open spec fn size_of_word(word: usize) -> usize {
    (word - word % 2) as usize
}

/// The flag that `word` holds in its lowest bit.
pub open spec fn flag_of_word(word: usize) -> bool {
    word % 2 == 1
}

proof fn lemma_mask(x: usize)
    ensures
        x & 1usize == x % 2,
        x & !1usize == x - x % 2,
        (x & !1usize) | 1usize == (x - x % 2) + 1,
        (x & !1usize) | 0usize == x - x % 2,
{
    assert(x & 1usize == x % 2) by (bit_vector);
    assert(x & !1usize == x - (x & 1usize)) by (bit_vector);
    assert((x & !1usize) | 1usize == (x & !1usize) + 1) by (bit_vector);
    assert((x & !1usize) | 0usize == (x & !1usize)) by (bit_vector);
}

impl UsizeAndFlag {
    /// Selects the flag bit.
    pub const FLAG_MASK: usize = 1;
    /// Selects the size bits.
    pub const SIZE_MASK: usize = !1usize;

    /// The size: the word with its lowest bit cleared.
    pub fn size(self) -> (r: usize)
        ensures
            r == size_of_word(self.0),
    {
        proof {
            lemma_mask(self.0);
        }
        self.0 & Self::SIZE_MASK
    }

    /// The flag: the lowest bit.
    pub fn flag(self) -> (r: bool)
        ensures
            r == flag_of_word(self.0),
    {
        proof {
            lemma_mask(self.0);
        }
        (self.0 & Self::FLAG_MASK) != 0
    }

    /// Replaces the size, rounded down to an even number, keeping the flag.
    pub fn set_size(&mut self, size: usize)
        ensures
            size_of_word(final(self).0) == size_of_word(size),
            flag_of_word(final(self).0) == flag_of_word(old(self).0),
    {
        *self = Self::new(size, self.flag())
    }

    /// Replaces the flag, keeping the size.
    pub fn set_flag(&mut self, flag: bool)
        ensures
            size_of_word(final(self).0) == size_of_word(old(self).0),
            flag_of_word(final(self).0) == flag,
    {
        *self = Self::new(self.size(), flag)
    }

    /// Packs `size`, rounded down to an even number, with `flag`.
    pub fn new(size: usize, flag: bool) -> (r: Self)
        ensures
            size_of_word(r.0) == size_of_word(size),
            flag_of_word(r.0) == flag,
    {
        proof {
            lemma_mask(size);
        }
        let bit: usize = if flag { 1 } else { 0 };
        UsizeAndFlag((size & Self::SIZE_MASK) | bit)
    }
}

} // verus!
