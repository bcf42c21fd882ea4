//! Container ids: random version-4 UUIDs, held as their 128-bit value, and
//! their text form.

use vstd::prelude::*;

verus! {

/// Lower-case hex digit of a value below 16.
pub open spec fn hex_digit(n: u128) -> char {
    if n < 10 {
        (48 + n) as char
    } else {
        (87 + n) as char
    }
}

/// The `k`-th hex digit (0 is the most significant) of `v`.
pub open spec fn nibble(v: u128, k: int) -> u128 {
    (v >> ((4 * (31 - k)) as u128)) & 15
}

/// The text of a UUID: 32 lower-case hex digits in groups of 8, 4, 4, 4 and
/// 12, joined by hyphens.
pub open spec fn uuid_text(v: u128) -> Seq<char> {
    Seq::new(
        36,
        |i: int|
            if i == 8 || i == 13 || i == 18 || i == 23 {
                '-'
            } else {
                let d = i - (if i > 8 {
                    1int
                } else {
                    0
                }) - (if i > 13 {
                    1int
                } else {
                    0
                }) - (if i > 18 {
                    1int
                } else {
                    0
                }) - (if i > 23 {
                    1int
                } else {
                    0
                });
                hex_digit(nibble(v, d))
            },
    )
}

/// A fresh random container id: `uuid::Uuid::new_v4`, as its 128-bit
/// (big-endian) value. Its version field holds 4 and its variant bits
/// `10`; the rest is random.
#[verifier::external_body]
pub(crate) fn new_container_id() -> (id: u128)
    ensures
        (id >> 76u128) & 15 == 4,
        (id >> 62u128) & 3 == 2,
{
    uuid::Uuid::new_v4().as_u128()
}

/// Text of a container id: the `Display` form of `uuid::Uuid::from_u128`,
/// the lower-case hyphenated form.
#[verifier::external_body]
pub(crate) fn container_id_text(id: u128) -> (s: String)
    ensures
        s@ == uuid_text(id),
{
    uuid::Uuid::from_u128(id).to_string()
}

} // verus!
