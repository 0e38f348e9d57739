//! The 24-bit address space and the order in which the eZ80 fetches code from it.
use vstd::prelude::*;

verus! {

/// The highest address of the 24-bit space.
pub const MAX_ADDRESS: u32 = 0x00ff_ffff;

/// The number of addresses in the 24-bit space.
pub const ADDRESS_SPACE_SIZE: u64 = 0x0100_0000;

/// The number of distinct code addresses that fetching passes through before it repeats: the
/// whole space in ADL mode, one 64 KiB bank otherwise.
pub open spec fn code_span(adl: bool) -> int {
    if adl {
        0x100_0000
    } else {
        0x1_0000
    }
}

/// The address that is fetched `offset` bytes after `start`. In ADL mode the sum wraps at 24 bits;
/// otherwise its low 16 bits wrap inside the bank that `mbase` selects.
pub open spec fn fetch_address(start: int, offset: int, adl: bool, mbase: int) -> int {
    if adl {
        (start + offset) % 0x100_0000
    } else {
        mbase * 0x1_0000 + (start + offset) % 0x1_0000
    }
}

/// The bank part of a 24-bit address: the byte that `mbase` supplies in non-ADL mode.
pub open spec fn bank_of(address: int) -> int {
    (address / 0x1_0000) % 0x100
}

/// The address fetched `offset` bytes after `start`.
pub fn code_address(start: u32, offset: u32, adl: bool, mbase: u8) -> (address: u32)
    ensures
        address == fetch_address(start as int, offset as int, adl, mbase as int),
{
    if adl {
        let sum: u32 = start.wrapping_add(offset);
        assert(sum & 0x00ff_ffff == sum % 0x100_0000) by (bit_vector);
        assert((start + offset) % 0x1_0000_0000 == sum);
        assert((start + offset) % 0x1_0000_0000 % 0x100_0000 == (start + offset) % 0x100_0000);
        sum & MAX_ADDRESS
    } else {
        let low: u16 = low_word(start);
        let step: u16 = low_word(offset);
        let sum: u16 = low.wrapping_add(step);
        let bank: u32 = mbase as u32;
        let word: u32 = sum as u32;
        assert(bank << 16u32 == bank * 0x1_0000 && (bank << 16u32) | word == bank * 0x1_0000
            + word) by (bit_vector)
            requires
                bank < 0x100u32,
                word < 0x1_0000u32,
        ;
        assert(word == (start + offset) % 0x1_0000);
        (bank << 16) | word
    }
}

/// The low 16 bits of a value.
pub fn low_word(value: u32) -> (word: u16)
    ensures
        word == value % 0x1_0000,
{
    assert(value as u16 == value % 0x1_0000) by (bit_vector);
    #[verifier::truncate]
    (value as u16)
}

/// The bank byte of an address.
pub fn bank_byte(address: u32) -> (bank: u8)
    ensures
        bank == bank_of(address as int),
{
    assert((address >> 16u32) as u8 == (address / 0x1_0000) % 0x100) by (bit_vector);
    #[verifier::truncate]
    ((address >> 16) as u8)
}

/// The number of code addresses before fetching repeats.
pub fn span_of(adl: bool) -> (span: u32)
    ensures
        span == code_span(adl),
{
    if adl {
        0x100_0000
    } else {
        0x1_0000
    }
}

/// Fetching always lands inside the 24-bit space, and outside ADL mode inside the selected bank.
pub proof fn law_fetch_stays_in_space(start: u32, offset: u32, adl: bool, mbase: u8)
    ensures
        0 <= fetch_address(start as int, offset as int, adl, mbase as int) <= MAX_ADDRESS,
        !adl ==> bank_of(fetch_address(start as int, offset as int, adl, mbase as int)) == mbase,
{
}

/// Fetching repeats after one full span, and two offsets that lie less than a span apart are
/// fetched from different addresses.
pub proof fn law_fetch_repeats_after_span(start: int, offset: int, other: int, adl: bool, mbase: u8)
    requires
        offset < other <= offset + code_span(adl),
    ensures
        (fetch_address(start, offset, adl, mbase as int) == fetch_address(
            start,
            other,
            adl,
            mbase as int,
        )) <==> other == offset + code_span(adl),
{
    lemma_residue_repeats(start + offset, other - offset, code_span(adl));
}

/// Adding something to a number keeps its residue if it is the modulus, and changes the residue if
/// it is less.
proof fn lemma_residue_repeats(x: int, step: int, modulus: int)
    requires
        0 < step <= modulus,
    ensures
        x % modulus == (x + step) % modulus <==> step == modulus,
{
    if step == modulus {
        vstd::arithmetic::div_mod::lemma_mod_add_multiples_vanish(x, modulus);
    } else if x % modulus == (x + step) % modulus {
        let p: int = x / modulus;
        let q: int = (x + step) / modulus;
        vstd::arithmetic::div_mod::lemma_fundamental_div_mod(x, modulus);
        vstd::arithmetic::div_mod::lemma_fundamental_div_mod(x + step, modulus);
        assert(step == modulus * q - modulus * p);
        assert(modulus * q - modulus * p == modulus * (q - p)) by (nonlinear_arith);
        assert(false) by (nonlinear_arith)
            requires
                step == modulus * (q - p),
                0 < step < modulus,
        ;
    }
}

/// Fetching `b` bytes after the address that lies `a` bytes after `start` reaches what lies
/// `a + b` bytes after `start`.
pub proof fn law_fetch_composes(start: int, a: int, b: int, adl: bool, mbase: u8)
    ensures
        fetch_address(fetch_address(start, a, adl, mbase as int), b, adl, mbase as int)
            == fetch_address(start, a + b, adl, mbase as int),
{
}

} // verus!
