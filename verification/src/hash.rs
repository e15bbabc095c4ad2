//! Hashes of column values.

use vstd::prelude::*;

verus! {

/// The polynomial of CRC-32C, bits reversed.
pub const CRC32C_POLYNOMIAL: u64 = 0x82f6_3b78;

/// The polynomial of CRC-32, bits reversed.
pub const CRC32_POLYNOMIAL: u64 = 0xedb8_8320;

/// The factor of the multiplicative hash.
pub const HASH_FACTOR: u64 = 0x517c_c1b7_2722_0a95;

/// The offset basis of the 64-bit FNV-1a hash.
pub const FNV_BASIS: u64 = 0xcbf2_9ce4_8422_2325;

/// The prime of the 64-bit FNV-1a hash.
pub const FNV_PRIME: u64 = 0x100_0000_01b3;

/// The fractional part of the golden ratio, in 64 bits.
pub const GOLDEN_RATIO: u64 = 0x9e37_79b9_7f4a_7c15;

/// Divides by a polynomial for `bits` bits, lowest bit first.
pub open spec fn crc_reduce(word: u64, polynomial: u64, bits: nat) -> u64
    decreases bits,
{
    if bits == 0 {
        word
    } else {
        let rest = crc_reduce(word, polynomial, (bits - 1) as nat);
        if rest & 1 == 1 {
            (rest >> 1) ^ polynomial
        } else {
            rest >> 1
        }
    }
}

/// The remainder of the eight bytes of a value by a polynomial, with all ones to
/// start from and without a final complement.
pub open spec fn crc_of(value: i64, polynomial: u64) -> u64 {
    crc_reduce(0xffff_ffffu64 ^ (value as u64), polynomial, 64)
}

/// The remainder of the eight bytes of a value by a polynomial of 32 bits.
fn crc(value: i64, polynomial: u64) -> (hash: u64)
    requires
        polynomial <= 0xffff_ffff,
    ensures
        hash == crc_of(value, polynomial),
        hash <= 0xffff_ffff,
{
    let word: u64 = 0xffff_ffffu64 ^ (value as u64);
    let mut rest: u64 = word;
    let mut i: u64 = 0;
    assert(rest <= u64::MAX >> 0) by (bit_vector);
    while i < 64
        invariant
            i <= 64,
            polynomial <= 0xffff_ffff,
            rest == crc_reduce(word, polynomial, i as nat),
            i <= 32 ==> rest <= u64::MAX >> i,
            i >= 32 ==> rest <= 0xffff_ffff,
        decreases 64 - i,
    {
        proof {
            assert((i < 32 && rest <= u64::MAX >> i ==> (rest >> 1) <= u64::MAX >> (i + 1) as u64
                && (rest >> 1) ^ polynomial <= u64::MAX >> (i + 1) as u64) && (rest <= 0xffff_ffff
                ==> (rest >> 1) <= 0xffff_ffff && (rest >> 1) ^ polynomial <= 0xffff_ffff)
                && u64::MAX >> 32u64 == 0xffff_ffff) by (bit_vector)
                requires
                    polynomial <= 0xffff_ffff,
            ;
        }
        rest = if rest & 1 == 1 {
            (rest >> 1) ^ polynomial
        } else {
            rest >> 1
        };
        i = i + 1;
    }
    rest
}

/// A kind of machine, by the CRC instruction that it has.
#[derive(Debug, Clone, Copy, PartialEq, Eq, Structural)]
pub enum Machine {
    /// With an instruction for CRC-32C.
    X86,
    /// With an instruction for CRC-32.
    Arm,
    /// Without.
    Other,
}

/// The hash of a 64-bit integer on a kind of machine: a CRC where there is an
/// instruction for it, else a product whose upper half is folded into the lower.
pub open spec fn integer_hash(machine: Machine, value: i64) -> u64 {
    match machine {
        Machine::X86 => crc_of(value, CRC32C_POLYNOMIAL),
        Machine::Arm => crc_of(value, CRC32_POLYNOMIAL),
        Machine::Other => {
            let product = (value as u64).wrapping_mul(HASH_FACTOR);
            product ^ (product >> 32)
        },
    }
}

/// Hashes a 64-bit integer as a kind of machine does.
pub fn hash_i64_on(machine: Machine, val: i64) -> (hash: u64)
    ensures
        hash == integer_hash(machine, val),
        !(machine is Other) ==> hash <= 0xffff_ffff,
{
    match machine {
        Machine::X86 => crc(val, CRC32C_POLYNOMIAL),
        Machine::Arm => crc(val, CRC32_POLYNOMIAL),
        Machine::Other => {
            let product: u64 = (val as u64).wrapping_mul(HASH_FACTOR);
            product ^ (product >> 32)
        },
    }
}

/// Hashes a 64-bit integer with CRC-32C, on every machine alike. The hash fits
/// into 32 bits.
pub fn hash_i64(val: i64) -> (hash: u64)
    ensures
        hash == integer_hash(Machine::X86, val),
        hash <= 0xffff_ffff,
{
    hash_i64_on(Machine::X86, val)
}

/// The 64-bit FNV-1a hash of a sequence of bytes.
pub open spec fn fnv1a(data: Seq<u8>) -> u64
    decreases data.len(),
{
    if data.len() == 0 {
        FNV_BASIS
    } else {
        (fnv1a(data.drop_last()) ^ (data.last() as u64)).wrapping_mul(FNV_PRIME)
    }
}

/// Hashes a byte string.
pub fn hash_bytes(data: &[u8]) -> (hash: u64)
    ensures
        hash == fnv1a(data@),
{
    let mut hash: u64 = FNV_BASIS;
    let mut i: usize = 0;
    while i < data.len()
        invariant
            i <= data@.len(),
            hash == fnv1a(data@.take(i as int)),
        decreases data@.len() - i,
    {
        assert(data@.take(i + 1).drop_last() =~= data@.take(i as int));
        hash = (hash ^ (data[i] as u64)).wrapping_mul(FNV_PRIME);
        i = i + 1;
    }
    assert(data@.take(i as int) =~= data@);
    hash
}

/// Combines the hashes of two columns.
pub fn hash_mix(a: u64, b: u64) -> (hash: u64)
    ensures
        hash == a ^ b.wrapping_add(GOLDEN_RATIO).wrapping_add(a << 6).wrapping_add(a >> 2),
{
    a ^ b.wrapping_add(GOLDEN_RATIO).wrapping_add(a << 6).wrapping_add(a >> 2)
}

/// Hashing one byte more mixes it into the hash of the bytes before: every byte of
/// a string counts, in its order.
pub proof fn law_every_byte_is_hashed(data: Seq<u8>, byte: u8)
    ensures
        fnv1a(Seq::<u8>::empty()) == 0xcbf2_9ce4_8422_2325u64,
        fnv1a(data.push(byte)) == (fnv1a(data) ^ (byte as u64)).wrapping_mul(0x100_0000_01b3),
{
    assert(data.push(byte).drop_last() =~= data);
}

/// The remainder of a sum without carries is the sum of the remainders.
pub proof fn law_crc_is_linear(a: u64, b: u64, polynomial: u64, bits: nat)
    ensures
        crc_reduce(a ^ b, polynomial, bits) == crc_reduce(a, polynomial, bits) ^ crc_reduce(
            b,
            polynomial,
            bits,
        ),
    decreases bits,
{
    if bits > 0 {
        law_crc_is_linear(a, b, polynomial, (bits - 1) as nat);
        let x = crc_reduce(a, polynomial, (bits - 1) as nat);
        let y = crc_reduce(b, polynomial, (bits - 1) as nat);
        assert(((x ^ y) & 1 == 1 <==> (x & 1 == 1) != (y & 1 == 1)) && (x ^ y) >> 1 == (x >> 1) ^ (y
            >> 1) && ((x >> 1) ^ polynomial) ^ ((y >> 1) ^ polynomial) == (x >> 1) ^ (y >> 1) && ((
        x >> 1) ^ polynomial) ^ (y >> 1) == ((x >> 1) ^ (y >> 1)) ^ polynomial && (x >> 1) ^ ((y
            >> 1) ^ polynomial) == ((x >> 1) ^ (y >> 1)) ^ polynomial) by (bit_vector);
    }
}

/// The hash of an integer is a remainder over all its bits: on a machine with a CRC
/// instruction the hashes of three integers add up, without carries, to the hash of
/// their sum. Each bit is divided out by the polynomial of the machine.
pub proof fn law_integer_hashes_add_up(a: i64, b: i64, c: i64, d: i64)
    requires
        d as u64 == (a as u64) ^ (b as u64) ^ (c as u64),
    ensures
        integer_hash(Machine::X86, d) == integer_hash(Machine::X86, a) ^ integer_hash(
            Machine::X86,
            b,
        ) ^ integer_hash(Machine::X86, c),
        integer_hash(Machine::Arm, d) == integer_hash(Machine::Arm, a) ^ integer_hash(
            Machine::Arm,
            b,
        ) ^ integer_hash(Machine::Arm, c),
        integer_hash(Machine::X86, a) == crc_reduce(
            0xffff_ffffu64 ^ (a as u64),
            0x82f6_3b78,
            64,
        ),
        integer_hash(Machine::Arm, a) == crc_reduce(
            0xffff_ffffu64 ^ (a as u64),
            0xedb8_8320,
            64,
        ),
        integer_hash(Machine::Other, a) == {
            let product = (a as u64).wrapping_mul(0x517c_c1b7_2722_0a95);
            product ^ (product >> 32)
        },
{
    let (x, y, z) = (a as u64, b as u64, c as u64);
    let ones = 0xffff_ffffu64;
    assert(ones ^ (x ^ y ^ z) == (ones ^ x) ^ (ones ^ y) ^ (ones ^ z)) by (bit_vector);
    law_crc_is_linear((ones ^ x) ^ (ones ^ y), ones ^ z, CRC32C_POLYNOMIAL, 64);
    law_crc_is_linear(ones ^ x, ones ^ y, CRC32C_POLYNOMIAL, 64);
    law_crc_is_linear((ones ^ x) ^ (ones ^ y), ones ^ z, CRC32_POLYNOMIAL, 64);
    law_crc_is_linear(ones ^ x, ones ^ y, CRC32_POLYNOMIAL, 64);
}

} // verus!
