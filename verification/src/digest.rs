//! The SHA-256 fingerprint of a buffer, written in lower-case hex.

use sha2::{Digest, Sha256};
use vstd::prelude::*;

verus! {

/// The SHA-256 digest of `data`, as computed by the `sha2` crate.
pub uninterp spec fn sha256_digest(data: Seq<u8>) -> Seq<u8>;

/// The lower-case hex digit of `d` (less than 16).
pub open spec fn hex_digit(d: u8) -> char {
    if d < 10 {
        (48 + d) as char
    } else {
        (87 + d) as char
    }
}

/// Each byte as two lower-case hex digits, high half first.
pub open spec fn lower_hex(bytes: Seq<u8>) -> Seq<char>
    decreases bytes.len(),
{
    if bytes.len() == 0 {
        Seq::empty()
    } else {
        lower_hex(bytes.drop_last()) + seq![
            hex_digit(bytes.last() / 16),
            hex_digit(bytes.last() % 16),
        ]
    }
}

/// `Sha256::default`, `Digest::input` and `Digest::result` of `sha2` 0.8,
/// formatted with `{:x}`: the contract claims that the result is the
/// 32-byte digest (the output size of `Sha256`) written two lower-case hex
/// digits per byte, as `generic_array`'s `LowerHex` does; the digest
/// itself is only named.
#[verifier::external_body]
pub(crate) fn sha256_hex(data: &[u8]) -> (res: String)
    ensures
        res@ == lower_hex(sha256_digest(data@)),
        res@.len() == 64,
{
    let mut hasher = Sha256::default();
    hasher.input(data);
    format!("{:x}", hasher.result())
}

} // verus!
