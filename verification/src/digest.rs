use vstd::prelude::*;

verus! {

/// The hex SHA-256 fingerprint of a byte string. The digest has no short
/// arithmetic description, so it is only named here; the wrapper below is
/// the one place that computes it.
pub uninterp spec fn fingerprint_of(bytes: Seq<u8>) -> Seq<char>;

/// Relies on sha2::Sha256 (via the Digest trait: update, then finalize) and
/// on lower-hex formatting of the digest: the result is a function of the
/// byte content alone, and a 32-byte digest prints as 64 hex characters.
#[verifier::external_body]
pub fn content_fingerprint(bytes: &[u8]) -> (r: String)
    ensures
        r@ == fingerprint_of(bytes@),
        r@.len() == 64,
{
    let mut hasher: sha2::Sha256 = sha2::Digest::new();
    sha2::Digest::update(&mut hasher, bytes);
    format!("{:x}", sha2::Digest::finalize(hasher))
}

} // verus!
