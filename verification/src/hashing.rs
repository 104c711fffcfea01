//! Public-key hashing.
//!
//! The identity of an account and of a factor source is derived from a
//! public key by hashing: the key bytes are digested with SHA-256, the
//! digest's hex form is decoded back to bytes, and the first 29 bytes are
//! kept. The digest itself is outside code; everything around it is
//! verified against an exact model of hex decoding.

use vstd::prelude::*;

verus! {

/// The hex form of the SHA-256 digest of the given bytes, as the outside
/// digest routine returns it. The digest is a pure function of its input.
pub uninterp spec fn sha256_hex_of(bytes: Seq<u8>) -> Seq<char>;

/// Whether `c` is an ASCII hex digit, in either case.
pub open spec fn is_hex_digit(c: char) -> bool {
    ('0' <= c && c <= '9') || ('a' <= c && c <= 'f') || ('A' <= c && c <= 'F')
}

/// The numeric value of the hex digit `c`.
pub open spec fn hex_digit_value(c: char) -> int {
    if '0' <= c && c <= '9' {
        c as int - '0' as int
    } else if 'a' <= c && c <= 'f' {
        c as int - 'a' as int + 10
    } else {
        c as int - 'A' as int + 10
    }
}

/// The bytes spelled by the hex digit pairs of `s`.
pub open spec fn hex_decoded(s: Seq<char>) -> Seq<u8> {
    Seq::new(s.len() / 2, |i: int| (hex_digit_value(s[2 * i]) * 16 + hex_digit_value(s[2 * i + 1])) as u8)
}

/// Whether `s` is a well-formed hex string: even length, hex digits only.
pub open spec fn is_hex_string(s: Seq<char>) -> bool {
    s.len() % 2 == 0 && (forall|i: int| 0 <= i < s.len() ==> is_hex_digit(#[trigger] s[i]))
}

#[verifier::external_type_specification]
#[verifier::external_body]
pub struct ExFromHexError(hex::FromHexError);

/// Relies on sha256::digest, which hex-encodes the SHA-256 digest of the
/// input bytes: 64 lowercase hex characters, determined by the input alone.
#[verifier::external_body]
fn sha256_digest_hex(bytes: &Vec<u8>) -> (r: String)
    ensures
        r@ == sha256_hex_of(bytes@),
        r@.len() == 64,
        forall|i: int| 0 <= i < r@.len() ==> is_hex_digit(#[trigger] r@[i]),
{
    sha256::digest(bytes)
}

/// Relies on hex::decode: an even-length string of hex digits decodes to the
/// bytes its digit pairs spell; any other string is refused.
#[verifier::external_body]
fn hex_decode(s: &String) -> (r: Result<Vec<u8>, hex::FromHexError>)
    ensures
        is_hex_string(s@) ==> r is Ok && r->Ok_0@ == hex_decoded(s@),
        !is_hex_string(s@) ==> r is Err,
{
    hex::decode(s.as_str())
}

/// How many bytes of the digest a public-key hash keeps.
pub const PUBLIC_KEY_HASH_LEN: usize = 29;

/// The bytes of the public-key hash of `public_key`: the first 29 bytes of
/// its SHA-256 digest.
pub open spec fn public_key_hash_bytes(public_key: Seq<u8>) -> Seq<u8> {
    hex_decoded(sha256_hex_of(public_key)).take(PUBLIC_KEY_HASH_LEN as int)
}

/// Digest `public_key` and keep the first 29 bytes.
pub fn compute_public_key_hash(public_key: &Vec<u8>) -> (r: Vec<u8>)
    ensures
        r@ == public_key_hash_bytes(public_key@),
        r@.len() == PUBLIC_KEY_HASH_LEN,
{
    let digest_hex = sha256_digest_hex(public_key);
    let decoded = hex_decode(&digest_hex);
    match decoded {
        Ok(mut bytes) => {
            assert(bytes@.len() == 32);
            bytes.truncate(PUBLIC_KEY_HASH_LEN);
            assert(bytes@ =~= public_key_hash_bytes(public_key@));
            bytes
        },
        Err(_) => {
            // The digest is a well-formed hex string, so decoding cannot fail.
            proof {
                assert(false);
            }
            Vec::new()
        },
    }
}

} // verus!
