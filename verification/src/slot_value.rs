//! The six-byte value of a slot: a row address packed into 48 bits.

use vstd::prelude::*;

use crate::text::write_numeral;

verus! {

/// `2^48`: the packed values are the numbers below it.
pub const VALUE_RANGE: u64 = 0x1_0000_0000_0000;

/// A packed address, least significant byte first.
#[derive(Clone, Copy, Debug)]
pub struct SlotValue {
    pub bytes: [u8; 6],
}

/// The 48-bit number that six bytes hold, least significant byte first.
pub open spec fn packed(bytes: Seq<u8>) -> int {
    bytes[0] + 0x100 * bytes[1] + 0x1_0000 * bytes[2] + 0x100_0000 * bytes[3] + 0x1_0000_0000
        * bytes[4] + 0x100_0000_0000 * bytes[5]
}

/// A 48-bit address with bit 47 copied into the sixteen bits above it.
pub open spec fn sign_extended(word: int) -> int {
    if word < 0x8000_0000_0000 {
        word
    } else {
        word + 0xffff_0000_0000_0000
    }
}

/// Whether bits 47 to 63 of an address are all equal, which is what makes the
/// address fit into a slot.
pub open spec fn canonical(addr: u64) -> bool {
    addr < 0x8000_0000_0000 || addr >= 0xffff_8000_0000_0000
}

impl SlotValue {
    /// The number that the six bytes hold.
    pub open spec fn word(self) -> int {
        packed(self.bytes@)
    }

    /// The value with all bytes zero.
    pub open spec fn zero() -> Self {
        SlotValue { bytes: [0u8, 0u8, 0u8, 0u8, 0u8, 0u8] }
    }

    /// The value with all bytes zero.
    pub fn empty() -> (value: Self)
        ensures
            value == SlotValue::zero(),
            value.word() == 0,
    {
        let value: SlotValue = SlotValue { bytes: [0u8; 6] };
        assert(value.bytes =~= SlotValue::zero().bytes);
        value
    }

    /// Stores the low 48 bits of an address.
    pub fn set_ptr(&mut self, addr: u64)
        ensures
            final(self).word() == addr % VALUE_RANGE,
    {
        self.bytes[0] = (addr & 0xff) as u8;
        self.bytes[1] = ((addr >> 8) & 0xff) as u8;
        self.bytes[2] = ((addr >> 16) & 0xff) as u8;
        self.bytes[3] = ((addr >> 24) & 0xff) as u8;
        self.bytes[4] = ((addr >> 32) & 0xff) as u8;
        self.bytes[5] = ((addr >> 40) & 0xff) as u8;
        proof {
            assert((addr & 0xff) + 0x100 * ((addr >> 8) & 0xff) + 0x1_0000 * ((addr >> 16) & 0xff)
                + 0x100_0000 * ((addr >> 24) & 0xff) + 0x1_0000_0000 * ((addr >> 32) & 0xff)
                + 0x100_0000_0000 * ((addr >> 40) & 0xff) == addr % 0x1_0000_0000_0000u64)
                by (bit_vector);
            assert(forall|x: u64| #[trigger] (x & 0xff) <= 0xff) by (bit_vector);
        }
    }

    /// The stored 48 bits as a number.
    pub fn low_bits(&self) -> (word: u64)
        ensures
            word == self.word(),
            word < VALUE_RANGE,
    {
        self.bytes[0] as u64 + 0x100 * self.bytes[1] as u64 + 0x1_0000 * self.bytes[2] as u64
            + 0x100_0000 * self.bytes[3] as u64 + 0x1_0000_0000 * self.bytes[4] as u64
            + 0x100_0000_0000 * self.bytes[5] as u64
    }

    /// The stored address, sign-extended from its low 48 bits.
    pub fn get_ptr(&self) -> (addr: u64)
        ensures
            addr == sign_extended(self.word()),
    {
        let word: u64 = self.low_bits();
        if word < 0x8000_0000_0000 {
            word
        } else {
            word + 0xffff_0000_0000_0000
        }
    }

    /// The stored address, to be written through.
    pub fn get_ptr_mut(&self) -> (addr: u64)
        ensures
            addr == sign_extended(self.word()),
    {
        self.get_ptr()
    }

    /// The value as text: its address in hexadecimal.
    pub fn describe(&self) -> (text: String)
        ensures
            text@ == "SlotValue(0x"@ + crate::text::numeral(
                sign_extended(self.word()) as nat,
                16,
            ) + ")"@,
    {
        "SlotValue(0x".to_owned().concat(write_numeral(self.get_ptr(), 16).as_str()).concat(")")
    }

    /// Whether all six bytes are zero.
    pub fn is_empty(&self) -> (empty: bool)
        ensures
            empty <==> *self == SlotValue::zero(),
            empty <==> self.word() == 0,
    {
        let empty: bool = self.bytes[0] == 0 && self.bytes[1] == 0 && self.bytes[2] == 0
            && self.bytes[3] == 0 && self.bytes[4] == 0 && self.bytes[5] == 0;
        proof {
            if empty {
                assert(self.bytes =~= SlotValue::zero().bytes);
            }
        }
        empty
    }
}

impl Default for SlotValue {
    fn default() -> (value: Self)
        ensures
            value == SlotValue::zero(),
    {
        SlotValue::empty()
    }
}

/// An address comes back from a slot unchanged exactly when it is canonical.
pub proof fn law_pointer_round_trip(addr: u64)
    ensures
        sign_extended((addr % VALUE_RANGE) as int) == addr <==> canonical(addr),
{
    let word = addr % VALUE_RANGE;
    let high = addr / VALUE_RANGE;
    assert(addr == high * VALUE_RANGE + word);
}

proof fn lemma_digits(a: Seq<u8>, b: Seq<u8>)
    requires
        packed(a) == packed(b),
    ensures
        forall|i: int| 0 <= i < 6 ==> a[i] == b[i],
{
    let (a5, b5) = (a[5] as int, b[5] as int);
    let (a4, b4) = (a[4] + 0x100 * a5, b[4] + 0x100 * b5);
    let (a3, b3) = (a[3] + 0x100 * a4, b[3] + 0x100 * b4);
    let (a2, b2) = (a[2] + 0x100 * a3, b[2] + 0x100 * b3);
    let (a1, b1) = (a[1] + 0x100 * a2, b[1] + 0x100 * b2);
    assert(packed(a) == a[0] + 0x100 * a1);
    assert(packed(b) == b[0] + 0x100 * b1);
    assert(a[0] == b[0] && a1 == b1);
    assert(a[1] == b[1] && a2 == b2);
    assert(a[2] == b[2] && a3 == b3);
    assert(a[3] == b[3] && a4 == b4);
}

/// Two values that hold the same number are the same value.
pub proof fn law_values_are_their_words(a: SlotValue, b: SlotValue)
    ensures
        a.word() == b.word() <==> a == b,
{
    if a.word() == b.word() {
        lemma_digits(a.bytes@, b.bytes@);
        assert(a.bytes =~= b.bytes);
    }
}

} // verus!
