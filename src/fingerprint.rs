//! Content fingerprints: the lowercase hex SHA-256 digest of a file's bytes.
use vstd::prelude::*;
use sha2::{Digest, Sha256};

verus! {

/// The SHA-256 digest of `data`.
pub uninterp spec fn sha256_of(data: Seq<u8>) -> Seq<u8>;

/// Relies on sha2's `Sha256::digest`: the 32-byte SHA-256 digest of `data`,
/// which depends on the bytes alone.
#[verifier::external_body]
fn sha256(data: &[u8]) -> (r: Vec<u8>)
    ensures
        r@ == sha256_of(data@),
        r@.len() == 32,
{
    Sha256::digest(data).to_vec()
}

/// The lowercase hex digit of `n`, for `0 <= n < 16`.
pub open spec fn hex_digit(n: u8) -> char {
    if n < 10 {
        (48 + n) as u8 as char
    } else {
        (87 + n) as u8 as char
    }
}

/// Two lowercase hex digits for each byte, high half first.
pub open spec fn hex_of(b: Seq<u8>) -> Seq<char>
    decreases b.len(),
{
    if b.len() == 0 {
        seq![]
    } else {
        seq![hex_digit(b[0] / 16), hex_digit(b[0] % 16)] + hex_of(b.drop_first())
    }
}

/// Relies on `hex::encode`: two lowercase hex digits for each byte, high half first.
#[verifier::external_body]
fn hex_encode(b: &[u8]) -> (r: String)
    ensures
        r@ == hex_of(b@),
{
    hex::encode(b)
}

/// The fingerprint of a file with content `content`; `None` for no file.
pub open spec fn fingerprint_of(content: Option<Seq<u8>>) -> Option<Seq<char>> {
    match content {
        Some(b) => Some(hex_of(sha256_of(b))),
        None => None,
    }
}

/// Fingerprints a file given its bytes, or `None` when it does not exist.
pub fn calculate_hash(content: Option<&[u8]>) -> (r: Option<String>)
    ensures
        (r is Some) == (content is Some),
        content is Some ==> r->Some_0@ == hex_of(sha256_of(content->Some_0@)),
        content is Some ==> r->Some_0@.len() == 64,
{
    match content {
        Some(b) => {
            let digest = sha256(b);
            let r = hex_encode(digest.as_slice());
            proof {
                lemma_hex_len(digest@);
            }
            Some(r)
        },
        None => None,
    }
}

/// Hex text is twice as long as its bytes.
pub proof fn lemma_hex_len(b: Seq<u8>)
    ensures
        hex_of(b).len() == 2 * b.len(),
    decreases b.len(),
{
    if b.len() > 0 {
        lemma_hex_len(b.drop_first());
    }
}

} // verus!
