//! The boundary to the `uuid` crate: identifiers of lists.
//!
//! An identifier is held as a 128-bit number. The two functions of `uuid`
//! that are called are taken on trust; what is said of them here is what
//! their source shows. That an identifier made of random bytes carries the
//! marks of one is proved from that.

use vstd::prelude::*;

verus! {

/// Sixteen bytes read as one number, the first byte most significant.
pub open spec fn big_endian(b: Seq<u8>) -> u128 {
    (b[0] as u128) << 120 | (b[1] as u128) << 112 | (b[2] as u128) << 104 | (b[3] as u128) << 96 | (
    b[4] as u128) << 88 | (b[5] as u128) << 80 | (b[6] as u128) << 72 | (b[7] as u128) << 64 | (
    b[8] as u128) << 56 | (b[9] as u128) << 48 | (b[10] as u128) << 40 | (b[11] as u128) << 32 | (
    b[12] as u128) << 24 | (b[13] as u128) << 16 | (b[14] as u128) << 8 | (b[15] as u128)
}

/// The identifier made of sixteen random bytes: the bytes as they are, but
/// for the version, which is set to 4 in the upper half of the seventh
/// byte, and the variant, which is set to that of RFC 4122 in the two top
/// bits of the ninth.
pub open spec fn version4_of(bytes: Seq<u8>) -> u128 {
    big_endian(
        bytes.update(6, (bytes[6] & 0x0f) | 0x40).update(8, (bytes[8] & 0x3f) | 0x80),
    )
}

/// Whether `id` carries the marks of a random (version 4) identifier of the
/// RFC 4122 variant.
pub open spec fn is_version4(id: u128) -> bool {
    &&& (id >> 76) & 0xf == 4
    &&& (id >> 62) & 0x3 == 2
}

/// An identifier made of random bytes carries the marks of one.
pub proof fn lemma_version4_is_marked(bytes: Seq<u8>)
    requires
        bytes.len() == 16,
    ensures
        is_version4(version4_of(bytes)),
{
    let m = bytes.update(6, (bytes[6] & 0x0f) | 0x40).update(8, (bytes[8] & 0x3f) | 0x80);
    let (b0, b1, b2, b3, b4, b5, b7) = (m[0], m[1], m[2], m[3], m[4], m[5], m[7]);
    let (b9, b10, b11, b12, b13, b14, b15) = (m[9], m[10], m[11], m[12], m[13], m[14], m[15]);
    let (r6, r8) = (bytes[6], bytes[8]);
    assert(m[6] == (r6 & 0x0f) | 0x40);
    assert(m[8] == (r8 & 0x3f) | 0x80);
    assert({
        let id = (b0 as u128) << 120 | (b1 as u128) << 112 | (b2 as u128) << 104 | (b3 as u128)
            << 96 | (b4 as u128) << 88 | (b5 as u128) << 80 | (((r6 & 0x0f) | 0x40) as u128) << 72
            | (b7 as u128) << 64 | (((r8 & 0x3f) | 0x80) as u128) << 56 | (b9 as u128) << 48 | (
        b10 as u128) << 40 | (b11 as u128) << 32 | (b12 as u128) << 24 | (b13 as u128) << 16 | (
        b14 as u128) << 8 | (b15 as u128);
        (id >> 76) & 0xf == 4 && (id >> 62) & 0x3 == 2
    }) by (bit_vector);
}

/// The lowercase hexadecimal digit for a number below sixteen.
pub open spec fn hex_digit(n: u128) -> char {
    if n < 10 {
        (0x30 + n) as char
    } else {
        (0x61 + n - 10) as char
    }
}

/// The hexadecimal digit of `id` at place `k`, counted from the most
/// significant, as a number.
pub open spec fn nibble(id: u128, k: int) -> u128 {
    (id >> ((4 * (31 - k)) as u128)) & 0xf
}

/// `id` as it is written: thirty-two lowercase hexadecimal digits in groups
/// of eight, four, four, four and twelve, with hyphens between the groups.
pub open spec fn hyphenated(id: u128) -> Seq<char> {
    Seq::new(
        36,
        |i: int|
            if i == 8 || i == 13 || i == 18 || i == 23 {
                '-'
            } else if i < 8 {
                hex_digit(nibble(id, i))
            } else if i < 13 {
                hex_digit(nibble(id, i - 1))
            } else if i < 18 {
                hex_digit(nibble(id, i - 2))
            } else if i < 23 {
                hex_digit(nibble(id, i - 3))
            } else {
                hex_digit(nibble(id, i - 4))
            },
    )
}

/// `uuid::Builder::from_random_bytes`, read back as a number by
/// `uuid::Uuid::as_u128`. Claimed: the identifier holds the bytes as they
/// were given, but for the bits that mark it as version 4 and as of the
/// RFC 4122 variant.
#[verifier::external_body]
pub(crate) fn version4(bytes: [u8; 16]) -> (r: u128)
    ensures
        r == version4_of(bytes@),
{
    uuid::Builder::from_random_bytes(bytes).into_uuid().as_u128()
}

/// `uuid::Uuid::hyphenated`, written out by its `Display`. Claimed: the
/// identifier is written in lowercase hexadecimal digits, most significant
/// first, in five groups with hyphens between them.
#[verifier::external_body]
pub(crate) fn write_hyphenated(id: u128) -> (r: String)
    ensures
        r@ == hyphenated(id),
{
    uuid::Uuid::from_u128(id).hyphenated().to_string()
}

} // verus!
