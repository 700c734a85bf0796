//! Content hashes of assets.

use vstd::prelude::*;

verus! {

/// The SHA-256 digest of `content`, written as 64 lower-case hexadecimal digits.
pub uninterp spec fn sha256_hex(content: Seq<u8>) -> Seq<char>;

/// The hash by which the contents of an asset are recognised.
///
/// Trusted: stands for `sha2::Sha256::digest` followed by the `{:x}` format of
/// the digest. The digest is a function of the bytes alone; the contract
/// gives it the name `sha256_hex` and says nothing else of it.
#[verifier::external_body]
pub(crate) fn generate_asset_hash(content: &Vec<u8>) -> (hash: String)
    ensures
        hash@ == sha256_hex(content@),
{
    format!("{:x}", <sha2::Sha256 as sha2::Digest>::digest(content.as_slice()))
}

} // verus!
