//! The content digest: a strong 128-bit digest of a file's full byte
//! stream, used to discriminate contents within a size bucket.

use vstd::prelude::*;

use crate::engine::{EntryModel, HashedFile};

verus! {

/// The two 64-bit output words of the content digest of a byte stream.
pub uninterp spec fn sip_words_of(bytes: Seq<u8>) -> (u64, u64);

/// The 128-bit content digest of a byte stream: the two digest words side
/// by side.
pub open spec fn digest_of(bytes: Seq<u8>) -> u128 {
    ((sip_words_of(bytes).1 as u128) << 64) | (sip_words_of(bytes).0 as u128)
}

/// Relies on siphasher's `SipHasher24::hash` (SipHash-2-4 with 128-bit
/// output): with the keys fixed to zero, the two output words are a
/// function of the hashed bytes alone.
#[verifier::external_body]
fn sip_words(bytes: &[u8]) -> (r: (u64, u64))
    ensures
        r == sip_words_of(bytes@),
{
    let h = siphasher::sip128::SipHasher24::new_with_keys(0, 0).hash(bytes);
    (h.h1, h.h2)
}

/// The content digest of a byte stream.
pub fn hash_bytes(bytes: &[u8]) -> (r: u128)
    ensures
        r == digest_of(bytes@),
{
    let w = sip_words(bytes);
    ((w.1 as u128) << 64) | (w.0 as u128)
}

/// Build the merge-ready entry of a fully read candidate: its path and
/// length together with the digest of its content.
pub fn hashed_entry(path: String, length: u64, content: &[u8]) -> (e: HashedFile)
    ensures
        e@ == (EntryModel {
            path: path@,
            length: length,
            digest: Option::Some(digest_of(content@)),
        }),
{
    let digest = hash_bytes(content);
    HashedFile { file_path: path, file_length: length, full_hash: Option::Some(digest) }
}

} // verus!
