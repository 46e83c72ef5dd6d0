//! The self-contained layout of a packed artifact: the blob, then the
//! serialized manifest, then the length of the manifest as eight bytes in
//! little-endian order.

use vstd::prelude::*;
use vstd::bytes::{
    lemma_auto_spec_u64_to_from_le_bytes,
    spec_u64_from_le_bytes,
    spec_u64_to_le_bytes,
    u64_from_le_bytes,
    u64_to_le_bytes,
};

verus! {

/// The number of bytes of the length field that ends an artifact.
pub const TRAILER_LEN: usize = 8;

/// Why an artifact could not be loaded.
#[derive(Debug, Clone, Copy, PartialEq, Eq, Structural)]
pub enum LoadError {
    /// The artifact is too short to end with a length field.
    Truncated,
    /// The length field asks for more manifest bytes than stand before it.
    TrailerLength,
    /// An item of the manifest names a region that leaves the artifact.
    RegionOutOfBounds,
}

/// The artifact made of a blob and a serialized manifest.
pub open spec fn framed(blob: Seq<u8>, manifest: Seq<u8>) -> Seq<u8> {
    blob + manifest + spec_u64_to_le_bytes(manifest.len() as u64)
}

/// The manifest length that the last eight bytes of an artifact declare.
pub open spec fn declared_len(content: Seq<u8>) -> nat
    recommends
        content.len() >= TRAILER_LEN,
{
    spec_u64_from_le_bytes(content.subrange(content.len() - TRAILER_LEN, content.len() as int)) as nat
}

/// Where the serialized manifest lies in an artifact: from the first to the
/// second position returned. What stands before it is the blob.
pub fn manifest_span(content: &[u8]) -> (r: Result<(usize, usize), LoadError>)
    ensures
        match r {
            Ok((start, end)) => {
                &&& content@.len() >= TRAILER_LEN
                &&& end == content@.len() - TRAILER_LEN
                &&& start + declared_len(content@) == end
            },
            Err(e) => if content@.len() < TRAILER_LEN {
                e == LoadError::Truncated
            } else {
                e == LoadError::TrailerLength && declared_len(content@) > content@.len()
                    - TRAILER_LEN
            },
        },
{
    let len: usize = content.len();
    if len < TRAILER_LEN {
        return Err(LoadError::Truncated);
    }
    let end: usize = len - TRAILER_LEN;
    let size: u64 = u64_from_le_bytes(&content[end..len]);
    if size > end as u64 {
        return Err(LoadError::TrailerLength);
    }
    Ok((end - size as usize, end))
}

/// Completes a blob into an artifact: the serialized manifest and its length
/// are appended to it.
pub fn append_trailer(blob: &mut Vec<u8>, manifest: &[u8])
    ensures
        final(blob)@ == framed(old(blob)@, manifest@),
{
    let size = u64_to_le_bytes(manifest.len() as u64);
    blob.extend_from_slice(manifest);
    blob.extend_from_slice(size.as_slice());
    proof {
        assert(blob@ =~= framed(old(blob)@, manifest@));
    }
}

/// An artifact put together from a blob and a manifest declares the length
/// of that manifest, and the manifest stands between the blob and the length
/// field.
pub proof fn lemma_framed_span(blob: Seq<u8>, manifest: Seq<u8>)
    requires
        manifest.len() <= u64::MAX,
    ensures
        framed(blob, manifest).len() == blob.len() + manifest.len() + TRAILER_LEN,
        declared_len(framed(blob, manifest)) == manifest.len(),
        framed(blob, manifest).subrange(blob.len() as int, (blob.len() + manifest.len()) as int)
            == manifest,
        framed(blob, manifest).subrange(0, blob.len() as int) == blob,
{
    lemma_auto_spec_u64_to_from_le_bytes();
    let content = framed(blob, manifest);
    let field = spec_u64_to_le_bytes(manifest.len() as u64);
    assert(field.len() == 8);
    assert(content.subrange(content.len() - TRAILER_LEN, content.len() as int) =~= field);
    assert(content.subrange(blob.len() as int, (blob.len() + manifest.len()) as int) =~= manifest);
    assert(content.subrange(0, blob.len() as int) =~= blob);
}

} // verus!
