use vstd::prelude::*;

use sha1::Digest;

verus! {

/// The lowercase hex SHA-1 digest of `data`.
pub uninterp spec fn sha1_hex(data: Seq<u8>) -> Seq<char>;

/// A lowercase hexadecimal digit.
pub open spec fn is_lower_hex(c: char) -> bool {
    ('0' <= c && c <= '9') || ('a' <= c && c <= 'f')
}

/// Relies on `sha1::Sha1` and the `LowerHex` format of its output: the
/// 160-bit digest of `data` as 40 lowercase hex digits.
#[verifier::external_body]
pub fn compute_hash(data: &[u8]) -> (r: String)
    ensures
        r@ == sha1_hex(data@),
        r@.len() == 40,
        forall|i: int| 0 <= i < 40 ==> is_lower_hex(#[trigger] r@[i]),
{
    let mut hasher = sha1::Sha1::new();
    hasher.update(data);
    format!("{:x}", hasher.finalize())
}

/// Whether `data` is the encoding of the block named `hash`: a block is
/// stored under the digest of its encoding.
pub fn block_bytes_match(hash: &String, data: &Vec<u8>) -> (r: bool)
    ensures
        r == (hash@ == sha1_hex(data@)),
{
    let h = compute_hash(data.as_slice());
    h == *hash
}

} // verus!
