//! Bit-parallel comparison of the eight tag bytes of a chunk.
//!
//! The eight tags are read as one `u64`, slot `i` being byte `i` counted from
//! the least significant end, and are compared with plain integer operations.

use vstd::prelude::*;

verus! {

pub const ONES: u64 = 0x0101_0101_0101_0101;

pub const LOW_BITS: u64 = 0x7f7f_7f7f_7f7f_7f7f;

pub const HIGH_BITS: u64 = 0x8080_8080_8080_8080;

/// Byte `i` of `word`, counted from the least significant end.
pub open spec fn lane(word: u64, i: int) -> u8 {
    ((word >> (8 * i) as u64) & 0xff) as u8
}

/// Whether the top bit of byte `i` of `word` is set.
pub open spec fn top_bit(word: u64, i: int) -> bool {
    (word >> (8 * i + 7) as u64) & 1 == 1
}

/// Copies `byte` into all eight bytes of a word.
pub fn broadcast_byte(byte: u8) -> (word: u64)
    ensures
        forall|i: int| 0 <= i < 8 ==> lane(word, i) == byte,
{
    assert((byte as u64) * ONES <= u64::MAX) by (bit_vector);
    let word = (byte as u64) * ONES;
    proof {
        assert forall|i: int| 0 <= i < 8 implies lane(word, i) == byte by {
            let k = i as u64;
            assert(k < 8 && word == (byte as u64) * 0x0101_0101_0101_0101u64
                ==> ((word >> (8 * k) as u64) & 0xff) as u8 == byte) by (bit_vector);
        }
    }
    word
}

/// The slots of a chunk that a comparison selected.
///
/// Slot `i` is selected when the top bit of byte `i` is set; no other bit is
/// ever set.
#[derive(Clone, Copy, Debug)]
pub struct BitMask(u64);

impl BitMask {
    #[verifier::type_invariant]
    spec fn well_formed(self) -> bool {
        self.0 & !HIGH_BITS == 0
    }

    /// Whether slot `i` is selected.
    pub closed spec fn hit(self, i: int) -> bool {
        0 <= i < 8 && top_bit(self.0, i)
    }

    /// How many of the first `n` slots are selected.
    pub open spec fn hits_below(self, n: int) -> nat
        decreases n,
    {
        if n <= 0 {
            0
        } else {
            self.hits_below(n - 1) + (if self.hit(n - 1) { 1nat } else { 0nat })
        }
    }

    /// Selects every slot whose tag equals `target`.
    pub fn match_tag(tags_u64: u64, target: u8) -> (mask: Self)
        ensures
            forall|i: int| #[trigger]
                mask.hit(i) <==> 0 <= i < 8 && lane(tags_u64, i) == target,
    {
        let wide: u64 = broadcast_byte(target);
        let x: u64 = tags_u64 ^ wide;
        assert((x & LOW_BITS) + LOW_BITS <= u64::MAX) by (bit_vector);
        let result: u64 = !(((x & LOW_BITS) + LOW_BITS) | x) & HIGH_BITS;
        assert(result & !HIGH_BITS == 0) by (bit_vector)
            requires
                result == !(((x & LOW_BITS) + LOW_BITS) as u64 | x) & HIGH_BITS,
        ;
        proof {
            assert forall|i: int| 0 <= i < 8 implies (top_bit(result, i) <==> lane(tags_u64, i)
                == target) by {
                let k = i as u64;
                assert(lane(wide, i) == target);
                assert((result >> (8 * k + 7) as u64) & 1 == 1 <==> ((tags_u64 >> (8 * k) as u64)
                    & 0xff) as u8 == ((wide >> (8 * k) as u64) & 0xff) as u8) by (bit_vector)
                    requires
                        k < 8,
                        x == tags_u64 ^ wide,
                        result == !(((x & LOW_BITS) + LOW_BITS) as u64 | x) & HIGH_BITS,
                ;
            }
        }
        BitMask(result)
    }

    /// Selects every empty slot, that is every slot tagged `0x80`.
    pub fn match_empty(tags_u64: u64) -> (mask: Self)
        ensures
            forall|i: int| #[trigger] mask.hit(i) <==> 0 <= i < 8 && lane(tags_u64, i) == 0x80,
    {
        Self::match_tag(tags_u64, 0x80)
    }

    /// The mask that selects nothing.
    pub fn empty() -> (mask: Self)
        ensures
            forall|i: int| !mask.hit(i),
    {
        proof {
            lemma_zero_has_no_bit();
            assert(0u64 & !HIGH_BITS == 0) by (bit_vector);
        }
        BitMask(0)
    }

    /// Whether any slot is selected.
    pub fn any(self) -> (found: bool)
        ensures
            found <==> exists|i: int| self.hit(i),
    {
        proof {
            use_type_invariant(&self);
            if self.0 == 0 {
                lemma_zero_has_no_bit();
            } else {
                let i = lemma_lowest_bit(self.0);
                assert(self.hit(i));
            }
        }
        self.0 != 0
    }

    /// The number of selected slots.
    pub fn count(self) -> (n: u32)
        ensures
            n == self.hits_below(8),
    {
        let mut n: u32 = 0;
        let mut i: u32 = 0;
        while i < 8
            invariant
                i <= 8,
                n == self.hits_below(i as int),
                n <= i,
            decreases 8 - i,
        {
            assert(self.hit(i as int) <==> top_bit(self.0, i as int));
            if (self.0 >> ((8 * i + 7) as u64)) & 1 == 1 {
                n = n + 1;
            }
            i = i + 1;
        }
        n
    }

    /// The lowest selected slot.
    pub fn lowest(self) -> (slot: u8)
        requires
            exists|i: int| self.hit(i),
        ensures
            slot < 8,
            self.hit(slot as int),
            forall|j: int| 0 <= j < slot ==> !self.hit(j),
    {
        proof {
            use_type_invariant(&self);
            if self.0 == 0 {
                lemma_zero_has_no_bit();
            }
            let i = lemma_lowest_bit(self.0);
        }
        (self.0.trailing_zeros() / 8) as u8
    }

    /// The mask without its lowest selected slot.
    pub fn advance(self) -> (rest: Self)
        requires
            exists|i: int| self.hit(i),
        ensures
            forall|i: int|
                rest.hit(i) <==> self.hit(i) && exists|j: int| 0 <= j < i && self.hit(j),
    {
        proof {
            use_type_invariant(&self);
            if self.0 == 0 {
                lemma_zero_has_no_bit();
            }
        }
        let word: u64 = self.0;
        let rest: u64 = word & (word - 1);
        proof {
            let low = lemma_lowest_bit(word);
            let l = low as u64;
            assert(rest & !HIGH_BITS == 0) by (bit_vector)
                requires
                    word & !HIGH_BITS == 0,
                    word != 0,
                    rest == word & (word - 1) as u64,
            ;
            assert forall|i: int| #![trigger top_bit(rest, i)] 0 <= i < 8 implies (top_bit(rest, i)
                <==> top_bit(word, i) && i != low) by {
                let k = i as u64;
                assert((rest >> (8 * k + 7) as u64) & 1 == 1 <==> (word >> (8 * k + 7) as u64) & 1
                    == 1 && k != l) by (bit_vector)
                    requires
                        k < 8,
                        l < 8,
                        word != 0,
                        word & !HIGH_BITS == 0,
                        (word >> (8 * l + 7) as u64) & 1 == 1,
                        word << (57 - 8 * l) as u64 == 0,
                        rest == word & (word - 1) as u64,
                ;
            }
            assert(self.hit(low));
        }
        BitMask(rest)
    }

    /// The word behind the mask.
    pub fn raw(self) -> (word: u64)
        ensures
            word & !HIGH_BITS == 0,
            forall|i: int| 0 <= i < 8 ==> (top_bit(word, i) <==> self.hit(i)),
    {
        proof {
            use_type_invariant(&self);
        }
        self.0
    }

    /// Takes the lowest selected slot out of the mask.
    pub fn next(&mut self) -> (slot: Option<u8>)
        ensures
            match slot {
                Some(s) => {
                    &&& s < 8
                    &&& old(self).hit(s as int)
                    &&& forall|j: int| 0 <= j < s ==> !old(self).hit(j)
                    &&& forall|j: int| #[trigger]
                        final(self).hit(j) <==> old(self).hit(j) && j != s
                },
                None => {
                    &&& forall|j: int| !old(self).hit(j)
                    &&& *final(self) == *old(self)
                },
            },
    {
        let mask: BitMask = *self;
        if mask.any() {
            let slot: u8 = mask.lowest();
            *self = mask.advance();
            Some(slot)
        } else {
            None
        }
    }

    /// The selected slots in ascending order.
    pub fn indices(self) -> (slots: Vec<u8>)
        ensures
            forall|i: int, j: int| 0 <= i < j < slots@.len() ==> slots@[i] < slots@[j],
            forall|s: int| self.hit(s) <==> slots@.contains(s as u8) && 0 <= s < 8,
            slots@.len() == self.hits_below(8),
    {
        let mut slots: Vec<u8> = Vec::new();
        let mut i: u8 = 0;
        while i < 8
            invariant
                i <= 8,
                forall|a: int, b: int| 0 <= a < b < slots@.len() ==> slots@[a] < slots@[b],
                forall|a: int| 0 <= a < slots@.len() ==> slots@[a] < i && self.hit(slots@[a] as int),
                forall|s: int| 0 <= s < i && self.hit(s) ==> slots@.contains(s as u8),
                slots@.len() == self.hits_below(i as int),
            decreases 8 - i,
        {
            assert(self.hit(i as int) <==> top_bit(self.0, i as int));
            let ghost before = slots@;
            if (self.0 >> ((8 * i + 7) as u64)) & 1 == 1 {
                slots.push(i);
                proof {
                    assert(slots@[before.len() as int] == i);
                    assert forall|s: int| 0 <= s < i + 1 && self.hit(s) implies slots@.contains(
                        s as u8,
                    ) by {
                        if s < i {
                            let a = choose|a: int| 0 <= a < before.len() && before[a] == s as u8;
                            assert(slots@[a] == s as u8);
                        }
                    }
                }
            }
            i = i + 1;
        }
        slots
    }
}

proof fn lemma_zero_has_no_bit()
    ensures
        forall|i: int| 0 <= i < 8 ==> !top_bit(0, i),
{
    assert forall|i: int| 0 <= i < 8 implies !top_bit(0, i) by {
        let k = (8 * i + 7) as u64;
        assert((0u64 >> k) & 1 == 0) by (bit_vector);
    }
}

/// The lowest set top bit of a mask word, as its trailing zeros give it.
proof fn lemma_lowest_bit(word: u64) -> (low: int)
    requires
        word != 0,
        word & !HIGH_BITS == 0,
    ensures
        0 <= low < 8,
        low == word.trailing_zeros() / 8,
        top_bit(word, low),
        forall|j: int| 0 <= j < low ==> !top_bit(word, j),
        word << (57 - 8 * low) as u64 == 0,
{
    vstd::std_specs::bits::axiom_u64_trailing_zeros(word);
    let tz = word.trailing_zeros() as u64;
    assert(tz % 8 == 7) by (bit_vector)
        requires
            tz < 64,
            word & !HIGH_BITS == 0,
            (word >> tz) & 1 == 1,
    ;
    let low = (tz / 8) as int;
    assert(8 * low + 7 == tz);
    assert forall|j: int| 0 <= j < low implies !top_bit(word, j) by {
        let k = (8 * j + 7) as u64;
        assert((word >> k) & 1u64 == 0u64);
    }
    low
}

/// A mask is determined by the slots that it selects.
pub proof fn law_mask_words_are_unique(a: u64, b: u64)
    requires
        a & !HIGH_BITS == 0,
        b & !HIGH_BITS == 0,
        forall|i: int| 0 <= i < 8 ==> (top_bit(a, i) <==> top_bit(b, i)),
    ensures
        a == b,
{
    if a ^ b != 0 {
        assert((a ^ b) & !HIGH_BITS == 0) by (bit_vector)
            requires
                a & !HIGH_BITS == 0,
                b & !HIGH_BITS == 0,
        ;
        let low = lemma_lowest_bit(a ^ b);
        let k = low as u64;
        assert(((a ^ b) >> (8 * k + 7) as u64) & 1 == 1 ==> ((a >> (8 * k + 7) as u64) & 1 == 1)
            != ((b >> (8 * k + 7) as u64) & 1 == 1)) by (bit_vector)
            requires
                k < 8,
        ;
        assert(top_bit(a, low) <==> top_bit(b, low));
    }
    assert(a ^ b == 0 ==> a == b) by (bit_vector);
}

/// Byte `i` of a word is its digit `i` in base 256, and the top bit of a byte says
/// whether the byte is at least `0x80`.
pub proof fn law_lanes_are_digits(word: u64)
    ensures
        lane(word, 0) as int == word as int % 0x100,
        lane(word, 1) as int == word as int / 0x100 % 0x100,
        lane(word, 2) as int == word as int / 0x1_0000 % 0x100,
        lane(word, 3) as int == word as int / 0x100_0000 % 0x100,
        lane(word, 4) as int == word as int / 0x1_0000_0000 % 0x100,
        lane(word, 5) as int == word as int / 0x100_0000_0000 % 0x100,
        lane(word, 6) as int == word as int / 0x1_0000_0000_0000 % 0x100,
        lane(word, 7) as int == word as int / 0x100_0000_0000_0000 % 0x100,
        forall|i: int| 0 <= i < 8 ==> (#[trigger] top_bit(word, i) <==> lane(word, i) >= 0x80),
{
    assert((word >> 0u64) & 0xff == word % 0x100 && (word >> 8u64) & 0xff == (word / 0x100) % 0x100
        && (word >> 16u64) & 0xff == (word / 0x1_0000) % 0x100 && (word >> 24u64) & 0xff == (word
        / 0x100_0000) % 0x100 && (word >> 32u64) & 0xff == (word / 0x1_0000_0000) % 0x100 && (word
        >> 40u64) & 0xff == (word / 0x100_0000_0000) % 0x100 && (word >> 48u64) & 0xff == (word
        / 0x1_0000_0000_0000) % 0x100 && (word >> 56u64) & 0xff == (word / 0x100_0000_0000_0000)
        % 0x100) by (bit_vector);
    assert forall|i: int| 0 <= i < 8 implies (#[trigger] top_bit(word, i) <==> lane(word, i)
        >= 0x80) by {
        let k = i as u64;
        assert(k < 8 ==> ((word >> ((8 * k + 7) as u64)) & 1 == 1 <==> ((word >> ((8 * k) as u64))
            & 0xff) as u8 >= 0x80)) by (bit_vector);
    }
}

/// The number of selected slots is that of the slots that are hit.
pub proof fn law_hits_are_counted(mask: BitMask, n: int)
    requires
        0 <= n,
    ensures
        mask.hits_below(n) == Seq::new(n as nat, |i: int| mask.hit(i)).filter(
            |hit: bool| hit,
        ).len(),
    decreases n,
{
    reveal(Seq::filter);
    if n > 0 {
        law_hits_are_counted(mask, n - 1);
        let all = Seq::new(n as nat, |i: int| mask.hit(i));
        assert(all.drop_last() =~= Seq::new((n - 1) as nat, |i: int| mask.hit(i)));
    }
}

} // verus!
