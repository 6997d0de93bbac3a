//! How node ids read as text.

use vstd::prelude::*;
use vstd::arithmetic::power::pow;
use crate::model::NodeId;

verus! {

/// The lower-case hexadecimal digit for `n` (0 to 15).
pub open spec fn hex_digit(n: int) -> char {
    seq!['0', '1', '2', '3', '4', '5', '6', '7', '8', '9', 'a', 'b', 'c', 'd', 'e', 'f'][n]
}

/// The `d`-th of the 32 hexadecimal digits of `v`, most significant first.
pub open spec fn nibble(v: u128, d: int) -> int {
    (v as int / pow(16, (31 - d) as nat)) % 16
}

/// How many hyphens the UUID form places before character `k`.
pub open spec fn hyphens_before(k: int) -> int {
    if k < 8 {
        0
    } else if k < 13 {
        1
    } else if k < 18 {
        2
    } else if k < 23 {
        3
    } else {
        4
    }
}

/// The hyphenated lower-case UUID form of the 128-bit value `v`, as in
/// `67e55044-10b1-426f-9247-bb680e5fe0c8`: 32 hexadecimal digits, most
/// significant first, in groups of 8, 4, 4, 4 and 12.
pub open spec fn hyphenated(v: u128) -> Seq<char> {
    Seq::new(
        36,
        |k: int|
            if k == 8 || k == 13 || k == 18 || k == 23 {
                '-'
            } else {
                hex_digit(nibble(v, k - hyphens_before(k)))
            },
    )
}

/// Writes an id with uuid's `Display` for `Uuid`
/// (`Uuid::from_u128(id).to_string()`). The uuid crate builds the UUID
/// from the big-endian bytes of the value and displays it in its
/// hyphenated lower-case form, which is what `hyphenated` states.
#[verifier::external_body]
pub(crate) fn uuid_text(id: NodeId) -> (text: String)
    ensures
        text@ == hyphenated(id),
{
    uuid::Uuid::from_u128(id).to_string()
}

} // verus!
