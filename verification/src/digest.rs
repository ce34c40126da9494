//! Content hashes.

use vstd::prelude::*;

verus! {

/// The BLAKE3 hash of a byte sequence, as `blake3::hash` computes it.
pub uninterp spec fn blake3_digest(data: Seq<u8>) -> Seq<u8>;

/// `blake3::hash` computes the 32-byte BLAKE3 hash of its input.
#[verifier::external_body]
pub(crate) fn blake3_hash(data: &[u8]) -> (digest: [u8; 32])
    ensures
        digest@ == blake3_digest(data@),
{
    *blake3::hash(data).as_bytes()
}

/// The lower-case hexadecimal digit of a number below sixteen.
pub open spec fn hex_digit(n: int) -> char {
    if n < 10 {
        (n + '0' as u32) as char
    } else {
        (n - 10 + 'a' as u32) as char
    }
}

/// Bytes in lower-case hexadecimal notation, two digits for each byte.
pub open spec fn lower_hex(bytes: Seq<u8>) -> Seq<char> {
    Seq::new(
        2 * bytes.len(),
        |i: int|
            if i % 2 == 0 {
                hex_digit(bytes[i / 2] as int / 16)
            } else {
                hex_digit(bytes[i / 2] as int % 16)
            },
    )
}

/// `blake3::Hash::to_hex` writes a hash in lower-case hexadecimal notation.
#[verifier::external_body]
pub(crate) fn hash_to_hex(digest: [u8; 32]) -> (hex: String)
    ensures
        hex@ == lower_hex(digest@),
{
    blake3::Hash::from_bytes(digest).to_hex().to_string()
}

/// The hexadecimal BLAKE3 hash of a byte sequence.
pub fn content_hash(data: &[u8]) -> (hex: String)
    ensures
        hex@ == lower_hex(blake3_digest(data@)),
{
    hash_to_hex(blake3_hash(data))
}

/// A hash is written whole: two digits for each byte, the more significant one first.
pub proof fn law_hash_written(data: &[u8], hex: String, i: int)
    requires
        call_ensures(content_hash, (data,), hex),
    ensures
        ({
            let digest = blake3_digest(data@);
            &&& hex@.len() == 2 * digest.len()
            &&& 0 <= i < digest.len() ==> {
                let high = digest[i] / 16;
                let low = digest[i] % 16;
                &&& hex@[2 * i] as u32 == if high < 10 { 48 + high } else { 87 + high }
                &&& hex@[2 * i + 1] as u32 == if low < 10 { 48 + low } else { 87 + low }
            }
        }),
{
}

} // verus!
