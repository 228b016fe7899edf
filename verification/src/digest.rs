//! SHA-256 digests in the textual form `sha256:<hex>`.

use crate::text;
use crate::text::format_hex;
use sha2::Digest;
use vstd::prelude::*;
use vstd::string::*;
use vstd::utf8::*;

verus! {

/// The SHA-256 digest of a byte sequence.
pub uninterp spec fn sha256_digest(data: Seq<u8>) -> [u8; 32];

/// Calls `sha2::Sha256::digest`, which hashes the whole input at once. The
/// 32-byte result is a function of the input alone and is named
/// `sha256_digest`; nothing else is claimed of it.
#[verifier::external_body]
fn sha256(data: &[u8]) -> (digest: [u8; 32])
    ensures
        digest@ == sha256_digest(data@)@,
{
    sha2::Sha256::digest(data).into()
}

/// The textual digest of a byte sequence.
pub open spec fn hash_text(data: Seq<u8>) -> Seq<char> {
    "sha256:"@ + text::hex_text(sha256_digest(data)@)
}

/// Whether a text takes as many bytes as a textual digest.
pub open spec fn digest_sized(t: Seq<char>) -> bool {
    encode_utf8(t).len() == 71
}

/// Two different inputs share a digest.
pub open spec fn collide(x: Seq<u8>, y: Seq<u8>) -> bool {
    &&& x != y
    &&& sha256_digest(x)@ == sha256_digest(y)@
}

/// Writes a digest in the textual form.
pub fn format_digest(digest: &[u8; 32]) -> (hash: String)
    ensures
        hash@ == "sha256:"@ + text::hex_text(digest@),
{
    let mut hash = "sha256:".to_string();
    hash.append(format_hex(digest.as_slice()).as_str());
    hash
}

/// Hashes bytes into the textual form.
pub fn hash_bytes(data: &[u8]) -> (hash: String)
    ensures
        hash@ == hash_text(data@),
{
    let digest = sha256(data);
    format_digest(&digest)
}

/// Inputs with the same textual digest are equal, or a collision.
pub proof fn law_equal_hashes_mean_equal_inputs(x: Seq<u8>, y: Seq<u8>)
    requires
        hash_text(x) == hash_text(y),
    ensures
        x == y || collide(x, y),
{
    let p = "sha256:"@;
    let a = text::hex_text(sha256_digest(x)@);
    let b = text::hex_text(sha256_digest(y)@);
    assert(a == (p + a).skip(p.len() as int));
    assert(b == (p + b).skip(p.len() as int));
    text::lemma_hex_injective(sha256_digest(x)@, sha256_digest(y)@);
}

} // verus!
