//! Digest computer: a short, deterministic, content-derived token.
//!
//! The token is the first 6 bytes (48 bits) of the BLAKE3 hash of the
//! content, encoded with the URL-safe unpadded base64 alphabet, giving 8
//! characters that are safe in a path or URL segment. The truncation
//! keeps public names short; 48 bits suffice for the tens to low
//! thousands of assets an artifact holds.

use vstd::prelude::*;

verus! {

/// The BLAKE3 hash of a byte sequence, a pure function of its input.
pub uninterp spec fn blake3_of(bytes: Seq<u8>) -> Seq<u8>;

/// The character the URL-safe base64 alphabet assigns to a 6-bit value.
pub open spec fn base64url_char(v: u8) -> char
    recommends
        v < 64,
{
    if v < 26 {
        (('A' as u32) + v as u32) as char
    } else if v < 52 {
        (('a' as u32) + (v - 26) as u32) as char
    } else if v < 62 {
        (('0' as u32) + (v - 52) as u32) as char
    } else if v == 62 {
        '-'
    } else {
        '_'
    }
}

/// URL-safe unpadded base64 encoding of exactly 6 bytes: two 3-byte
/// groups, each split most-significant-first into four 6-bit values.
pub open spec fn base64url_of_6(b: Seq<u8>) -> Seq<char>
    recommends
        b.len() == 6,
{
    seq![
        base64url_char(b[0] >> 2),
        base64url_char(((b[0] & 0x03) << 4) | (b[1] >> 4)),
        base64url_char(((b[1] & 0x0f) << 2) | (b[2] >> 6)),
        base64url_char(b[2] & 0x3f),
        base64url_char(b[3] >> 2),
        base64url_char(((b[3] & 0x03) << 4) | (b[4] >> 4)),
        base64url_char(((b[4] & 0x0f) << 2) | (b[5] >> 6)),
        base64url_char(b[5] & 0x3f),
    ]
}

/// The token `digest` derives from a content: the first 6 bytes of the
/// BLAKE3 hash, base64url-encoded.
pub open spec fn spec_digest(content: Seq<u8>) -> Seq<char> {
    base64url_of_6(blake3_of(content).take(6))
}

/// Relies on `blake3::hash`: a deterministic function of the input bytes
/// alone, returning a 32-byte hash.
#[verifier::external_body]
fn blake3_hash_bytes(content: &[u8]) -> (r: Vec<u8>)
    ensures
        r@ == blake3_of(content@),
        r@.len() == 32,
{
    blake3::hash(content).as_bytes().to_vec()
}

/// Relies on `base64ct::Base64UrlUnpadded::encode`: standard base64
/// with the URL-safe alphabet (`A-Z`, `a-z`, `0-9`, `-`, `_`),
/// most-significant bits first, without padding. Six input bytes encode
/// to exactly 8 characters, so the call cannot fail.
#[verifier::external_body]
fn base64url_encode_6(b: &[u8]) -> (r: String)
    requires
        b@.len() == 6,
    ensures
        r@ == base64url_of_6(b@),
{
    let mut buf = [0u8; 8];
    let encoded = <base64ct::Base64UrlUnpadded as base64ct::Encoding>::encode(b, &mut buf).unwrap();
    encoded.to_owned()
}

/// Computes the content-derived token. Total over all byte sequences,
/// including the empty one, and deterministic: equal contents always
/// yield the equal 8-character token.
pub fn digest(content: &[u8]) -> (token: String)
    ensures
        token@ == spec_digest(content@),
        token@.len() == 8,
{
    let hash = blake3_hash_bytes(content);
    let mut short: Vec<u8> = Vec::new();
    let mut i: usize = 0;
    while i < 6
        invariant
            i <= 6,
            hash@.len() == 32,
            hash@ == blake3_of(content@),
            short@ == hash@.take(i as int),
        decreases 6 - i,
    {
        let byte = hash[i];
        short.push(byte);
        proof {
            assert(short@ =~= hash@.take(i + 1));
        }
        i += 1;
    }
    proof {
        assert(short@ =~= blake3_of(content@).take(6));
    }
    base64url_encode_6(short.as_slice())
}

} // verus!
