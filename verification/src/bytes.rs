//! Byte-level primitives of the pak format: the fixed-key XOR transform
//! that obfuscates a whole archive, and the little-endian integer encoding
//! used by every fixed-width field.

use vstd::prelude::*;
use vstd::arithmetic::div_mod::{lemma_fundamental_div_mod, lemma_div_denominator};

verus! {

/// The fixed single-byte key every archive byte is XOR-ed with.
pub const ENCRYPTION_KEY: u8 = 0xF7;

/// The XOR transform over a whole buffer.  Applying it to an obfuscated
/// archive yields the plaintext; applying it twice gives the input back.
pub open spec fn spec_decrypt(s: Seq<u8>) -> Seq<u8> {
    s.map_values(|b: u8| b ^ ENCRYPTION_KEY)
}

/// XOR with the fixed key is an involution, so the same transform both
/// obfuscates and deciphers an archive.
pub proof fn lemma_decrypt_involutive(s: Seq<u8>)
    ensures
        spec_decrypt(spec_decrypt(s)) == s,
{
    assert forall|i: int| 0 <= i < s.len() implies spec_decrypt(spec_decrypt(s))[i] == s[i] by {
        let b = s[i];
        assert((b ^ ENCRYPTION_KEY) ^ ENCRYPTION_KEY == b) by (bit_vector);
    }
    assert(spec_decrypt(spec_decrypt(s)) =~= s);
}

/// XOR-s every byte of `data` with the fixed key.
pub fn decrypt(data: Vec<u8>) -> (r: Vec<u8>)
    ensures
        r@ == spec_decrypt(data@),
{
    let mut out: Vec<u8> = Vec::new();
    let mut i: usize = 0;
    while i < data.len()
        invariant
            i <= data@.len(),
            out@ == spec_decrypt(data@).subrange(0, i as int),
        decreases data@.len() - i,
    {
        out.push(data[i] ^ ENCRYPTION_KEY);
        assert(out@ =~= spec_decrypt(data@).subrange(0, i + 1));
        i = i + 1;
    }
    assert(out@ =~= spec_decrypt(data@));
    out
}

/// The unsigned 32-bit value held by four bytes in little-endian order:
/// the first byte of the stream is the least significant.
pub open spec fn u32_from_le(s: Seq<u8>) -> u32
    recommends
        s.len() == 4,
{
    (s[0] + s[1] * 0x100 + s[2] * 0x1_0000 + s[3] * 0x100_0000) as u32
}

/// The unsigned 64-bit value held by eight bytes in little-endian order.
pub open spec fn u64_from_le(s: Seq<u8>) -> u64
    recommends
        s.len() == 8,
{
    (s[0] + s[1] * 0x100 + s[2] * 0x1_0000 + s[3] * 0x100_0000
        + s[4] * 0x1_0000_0000 + s[5] * 0x100_0000_0000 + s[6] * 0x1_0000_0000_0000
        + s[7] * 0x100_0000_0000_0000) as u64
}

/// The four little-endian bytes of an unsigned 32-bit value.
pub open spec fn u32_to_le(n: u32) -> Seq<u8> {
    seq![
        (n % 0x100) as u8,
        ((n / 0x100) % 0x100) as u8,
        ((n / 0x1_0000) % 0x100) as u8,
        ((n / 0x100_0000) % 0x100) as u8,
    ]
}

/// The eight little-endian bytes of an unsigned 64-bit value.
pub open spec fn u64_to_le(n: u64) -> Seq<u8> {
    seq![
        (n % 0x100) as u8,
        ((n / 0x100) % 0x100) as u8,
        ((n / 0x1_0000) % 0x100) as u8,
        ((n / 0x100_0000) % 0x100) as u8,
        ((n / 0x1_0000_0000) % 0x100) as u8,
        ((n / 0x100_0000_0000) % 0x100) as u8,
        ((n / 0x1_0000_0000_0000) % 0x100) as u8,
        ((n / 0x100_0000_0000_0000) % 0x100) as u8,
    ]
}

/// Splitting an integer into little-endian bytes and reading them back
/// yields the integer: one digit-by-digit step of the base-256 expansion.
proof fn lemma_le_digit_step(n: int, d: int)
    requires
        0 <= n,
        0 < d,
    ensures
        n == n % d + d * (n / d),
        0 <= n / d,
        0 <= n % d < d,
{
    lemma_fundamental_div_mod(n, d);
}

/// Reading back the four little-endian bytes of a 32-bit value gives the
/// value itself.
pub proof fn lemma_u32_le_round_trip(n: u32)
    ensures
        u32_from_le(u32_to_le(n)) == n,
{
    let m = n as int;
    lemma_le_digit_step(m, 0x100);
    lemma_le_digit_step(m / 0x100, 0x100);
    lemma_le_digit_step(m / 0x1_0000, 0x100);
    lemma_div_denominator(m, 0x100, 0x100);
    lemma_div_denominator(m, 0x1_0000, 0x100);
    assert(m / 0x100_0000 < 0x100) by {
        lemma_div_denominator(m, 0x100_0000, 0x100);
        lemma_le_digit_step(m / 0x100_0000, 0x100);
    }
    vstd::arithmetic::div_mod::lemma_small_mod((m / 0x100_0000) as nat, 0x100);
}

/// Reading back the eight little-endian bytes of a 64-bit value gives the
/// value itself.
pub proof fn lemma_u64_le_round_trip(n: u64)
    ensures
        u64_from_le(u64_to_le(n)) == n,
{
    let m = n as int;
    lemma_le_digit_step(m, 0x100);
    lemma_le_digit_step(m / 0x100, 0x100);
    lemma_le_digit_step(m / 0x1_0000, 0x100);
    lemma_le_digit_step(m / 0x100_0000, 0x100);
    lemma_le_digit_step(m / 0x1_0000_0000, 0x100);
    lemma_le_digit_step(m / 0x100_0000_0000, 0x100);
    lemma_le_digit_step(m / 0x1_0000_0000_0000, 0x100);
    lemma_div_denominator(m, 0x100, 0x100);
    lemma_div_denominator(m, 0x1_0000, 0x100);
    lemma_div_denominator(m, 0x100_0000, 0x100);
    lemma_div_denominator(m, 0x1_0000_0000, 0x100);
    lemma_div_denominator(m, 0x100_0000_0000, 0x100);
    lemma_div_denominator(m, 0x1_0000_0000_0000, 0x100);
    assert(m / 0x100_0000_0000_0000 < 0x100) by {
        lemma_div_denominator(m, 0x100_0000_0000_0000, 0x100);
        lemma_le_digit_step(m / 0x100_0000_0000_0000, 0x100);
    }
    vstd::arithmetic::div_mod::lemma_small_mod((m / 0x100_0000_0000_0000) as nat, 0x100);
}

} // verus!
