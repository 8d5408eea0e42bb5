//! File digests: MD5, SHA-1 and SHA-256 of the scanned buffer, rendered as
//! lowercase hexadecimal. The digest computations come from their crates
//! and are named, not restated; the hexadecimal rendering is specified
//! exactly.

use vstd::prelude::*;

use md5::Digest;

verus! {

/// One lowercase hexadecimal digit for the value `d`.
pub open spec fn hex_digit(d: int) -> char {
    if d < 10 {
        (48 + d) as char
    } else {
        (87 + d) as char
    }
}

/// The lowercase hexadecimal rendering of a byte sequence: two digits per
/// byte, high digit first, in byte order.
pub open spec fn hex_of(bytes: Seq<u8>) -> Seq<char>
    decreases bytes.len(),
{
    if bytes.len() == 0 {
        Seq::empty()
    } else {
        hex_of(bytes.drop_last()) + seq![
            hex_digit(bytes.last() as int / 16),
            hex_digit(bytes.last() as int % 16),
        ]
    }
}

/// The MD5 digest of a byte sequence: 16 bytes determined by the input
/// alone.
pub uninterp spec fn md5_of(data: Seq<u8>) -> Seq<u8>;

/// The SHA-1 digest of a byte sequence: 20 bytes determined by the input
/// alone.
pub uninterp spec fn sha1_of(data: Seq<u8>) -> Seq<u8>;

/// The SHA-256 digest of a byte sequence: 32 bytes determined by the input
/// alone.
pub uninterp spec fn sha256_of(data: Seq<u8>) -> Seq<u8>;

/// Relies on md5::Md5 through the Digest trait: a 16-byte digest, a
/// function of the input bytes alone.
#[verifier::external_body]
fn md5_bytes(data: &[u8]) -> (r: Vec<u8>)
    ensures
        r@ == md5_of(data@),
        r@.len() == 16,
{
    md5::Md5::digest(data).to_vec()
}

/// Relies on sha1::Sha1 through the Digest trait: a 20-byte digest, a
/// function of the input bytes alone.
#[verifier::external_body]
fn sha1_bytes(data: &[u8]) -> (r: Vec<u8>)
    ensures
        r@ == sha1_of(data@),
        r@.len() == 20,
{
    sha1::Sha1::digest(data).to_vec()
}

/// Relies on sha2::Sha256 through the Digest trait: a 32-byte digest, a
/// function of the input bytes alone.
#[verifier::external_body]
fn sha256_bytes(data: &[u8]) -> (r: Vec<u8>)
    ensures
        r@ == sha256_of(data@),
        r@.len() == 32,
{
    sha2::Sha256::digest(data).to_vec()
}

/// Relies on hex::encode: each byte becomes exactly two lowercase
/// hexadecimal digits, in byte order.
#[verifier::external_body]
fn hex_encode(data: &[u8]) -> (r: String)
    ensures
        r@ == hex_of(data@),
{
    hex::encode(data)
}

/// The hexadecimal rendering has exactly two digits per byte.
pub proof fn lemma_hex_of_len(bytes: Seq<u8>)
    ensures
        hex_of(bytes).len() == 2 * bytes.len(),
    decreases bytes.len(),
{
    if bytes.len() > 0 {
        lemma_hex_of_len(bytes.drop_last());
    }
}

/// The three digests of the scanned buffer — MD5, SHA-1, SHA-256 — each
/// rendered as lowercase hexadecimal: 32, 40 and 64 digits respectively.
pub fn hashes(data: &[u8]) -> (r: (String, String, String))
    ensures
        r.0@ == hex_of(md5_of(data@)),
        r.1@ == hex_of(sha1_of(data@)),
        r.2@ == hex_of(sha256_of(data@)),
        r.0@.len() == 32,
        r.1@.len() == 40,
        r.2@.len() == 64,
{
    let m = md5_bytes(data);
    let s1 = sha1_bytes(data);
    let s2 = sha256_bytes(data);
    proof {
        lemma_hex_of_len(md5_of(data@));
        lemma_hex_of_len(sha1_of(data@));
        lemma_hex_of_len(sha256_of(data@));
    }
    (hex_encode(m.as_slice()), hex_encode(s1.as_slice()), hex_encode(s2.as_slice()))
}

} // verus!
