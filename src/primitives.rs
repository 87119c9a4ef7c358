//! The calls this library makes into other crates, with what it relies on of each.
use vstd::prelude::*;
use vstd::string::StringSliceAdditionalSpecFns;
use vstd::utf8::valid_utf8;

verus! {

/// The digest algorithms that CodeDirectories use.
#[derive(Clone, Copy, Debug, PartialEq, Eq, Structural)]
pub enum DigestAlgorithm {
    Sha1,
    Sha256,
}

/// Number of bytes in a digest of the algorithm.
pub open spec fn digest_len(alg: DigestAlgorithm) -> nat {
    match alg {
        DigestAlgorithm::Sha1 => 20,
        DigestAlgorithm::Sha256 => 32,
    }
}

/// Inputs must be shorter than this many bytes (2^64 bits) to be digested.
pub const MAX_DIGEST_INPUT: u64 = 0x2000_0000_0000_0000;

/// The digest of `data` under `alg`.
pub uninterp spec fn digest_of(alg: DigestAlgorithm, data: Seq<u8>) -> Seq<u8>;

/// Relies on `ring::digest::digest` with `SHA1_FOR_LEGACY_USE_ONLY` or `SHA256`: the
/// digest depends on the algorithm and the bytes alone, and has the algorithm's
/// output length (20 or 32 bytes). It panics on inputs of 2^61 bytes or more.
#[verifier::external_body]
pub(crate) fn digest(alg: DigestAlgorithm, data: &[u8]) -> (r: Vec<u8>)
    requires
        data@.len() < MAX_DIGEST_INPUT,
    ensures
        r@ == digest_of(alg, data@),
        r@.len() == digest_len(alg),
{
    let algorithm = match alg {
        DigestAlgorithm::Sha1 => &ring::digest::SHA1_FOR_LEGACY_USE_ONLY,
        DigestAlgorithm::Sha256 => &ring::digest::SHA256,
    };
    ring::digest::digest(algorithm, data).as_ref().to_vec()
}

/// The lowercase hexadecimal digit for `n < 16`.
pub open spec fn hex_digit(n: u8) -> char {
    seq!['0', '1', '2', '3', '4', '5', '6', '7', '8', '9', 'a', 'b', 'c', 'd', 'e', 'f'][n as int]
}

/// Lowercase hexadecimal text of `b`: two digits per byte, high nibble first.
pub open spec fn hex_lower(b: Seq<u8>) -> Seq<char>
    decreases b.len(),
{
    if b.len() == 0 {
        seq![]
    } else {
        seq![hex_digit(b[0] / 16), hex_digit(b[0] % 16)] + hex_lower(b.drop_first())
    }
}

/// Relies on `hex::encode`: each byte becomes two digits of `0123456789abcdef`,
/// high nibble first, in the order of the bytes.
#[verifier::external_body]
pub(crate) fn to_hex(b: &[u8]) -> (r: String)
    ensures
        r@ == hex_lower(b@),
{
    hex::encode(b)
}

/// Relies on `std::str::from_utf8`: it succeeds exactly when the bytes are
/// well-formed UTF-8, and the string it returns is made of those bytes.
#[verifier::external_body]
pub(crate) fn utf8_str<'a>(b: &'a [u8]) -> (r: Option<&'a str>)
    ensures
        r is Some <==> valid_utf8(b@),
        r matches Some(s) ==> s.spec_bytes() == b@,
{
    std::str::from_utf8(b).ok()
}

} // verus!
