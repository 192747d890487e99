//! Identifiers: random version-4 UUIDs, held as the 128-bit big-endian
//! integer `uuid::Uuid::as_u128` returns, and their two text forms.

use vstd::prelude::*;
use vstd::arithmetic::power::pow;

verus! {

/// The version nibble and the two variant bits of a UUID.
pub open spec fn version_variant_mask() -> u128 {
    0xF000_C000_0000_0000_0000u128
}

/// What those bits hold in a random (version 4, RFC 4122) UUID.
pub open spec fn random_version_variant() -> u128 {
    0x4000_8000_0000_0000_0000u128
}

/// True if `id` carries the version-4 and RFC 4122 variant bits.
pub open spec fn is_random_uuid(id: u128) -> bool {
    id & version_variant_mask() == random_version_variant()
}

/// A fresh random identifier.
///
/// Calls `uuid::Uuid::new_v4`, which masks a random 128-bit value and sets
/// the version nibble to 4 and the variant bits to `10`. The contract claims
/// only those fixed bits; the rest is random.
#[verifier::external_body]
pub(crate) fn fresh_id() -> (id: u128)
    ensures
        is_random_uuid(id),
{
    uuid::Uuid::new_v4().as_u128()
}

/// A random identifier is never the nil UUID.
pub proof fn lemma_random_uuid_is_not_nil(id: u128)
    requires
        is_random_uuid(id),
    ensures
        id != 0,
{
    assert(id & 0xF000_C000_0000_0000_0000u128 == 0x4000_8000_0000_0000_0000u128 ==> id != 0)
        by (bit_vector);
}

/// The lowercase hexadecimal digit for `n` in `0..16`.
pub open spec fn hex_digit(n: int) -> char {
    if n < 10 {
        (48 + n) as char
    } else {
        (87 + n) as char
    }
}

/// The `k`-th hexadecimal digit of `id`, counting from the least significant.
pub open spec fn nibble(id: u128, k: int) -> int {
    (id as int / pow(16, k as nat)) % 16
}

/// The 32 lowercase hexadecimal digits of `id`, most significant first —
/// `Uuid::simple` rendering.
pub open spec fn simple_hex_spec(id: u128) -> Seq<char> {
    Seq::new(32, |i: int| hex_digit(nibble(id, 31 - i)))
}

/// The hyphenated 8-4-4-4-12 rendering — `Uuid`'s `Display`.
pub open spec fn hyphenated_spec(id: u128) -> Seq<char> {
    let s = simple_hex_spec(id);
    s.subrange(0, 8) + seq!['-'] + s.subrange(8, 12) + seq!['-'] + s.subrange(12, 16) + seq!['-']
        + s.subrange(16, 20) + seq!['-'] + s.subrange(20, 32)
}

/// `id` as 32 lowercase hexadecimal digits, via `uuid::fmt::Simple`.
///
/// The contract states the documented format: every hex digit, most
/// significant first, lowercase, no separators.
#[verifier::external_body]
pub(crate) fn simple_hex(id: u128) -> (r: String)
    ensures
        r@ == simple_hex_spec(id),
{
    uuid::Uuid::from_u128(id).simple().to_string()
}

/// `id` in the hyphenated form `Uuid`'s `Display` writes.
///
/// The contract states the documented format: the 32 lowercase hex digits
/// split 8-4-4-4-12 by hyphens.
#[verifier::external_body]
pub(crate) fn hyphenated(id: u128) -> (r: String)
    ensures
        r@ == hyphenated_spec(id),
{
    uuid::Uuid::from_u128(id).to_string()
}

} // verus!
