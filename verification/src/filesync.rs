//! The digest-gated decision for a single destination.
//!
//! A source (a file's bytes or an in-memory buffer) is compared to a
//! destination by digest: the source content is written only when the
//! destination is absent or its digest differs.  When the digests agree the
//! destination is not touched at all, which is what preserves its metadata.

use vstd::prelude::*;
use crate::hashing::ContentHasher;

verus! {

/// The byte sequences of an optional destination.
pub open spec fn content_view(dest: Option<Vec<u8>>) -> Option<Seq<u8>> {
    match dest {
        Some(bytes) => Some(bytes@),
        None => None,
    }
}

/// Whether a probe result forces a copy: the destination produced no digest,
/// or a digest different from the source's.
pub open spec fn copy_decision(source_digest: u64, dest_digest: Option<u64>) -> bool {
    dest_digest != Some(source_digest)
}

/// Whether syncing `source` onto `dest` writes, judged by the digests that
/// strategy `H` assigns to their content.
pub open spec fn sync_writes<H: ContentHasher>(source: Seq<u8>, dest: Option<Seq<u8>>) -> bool {
    match dest {
        None => true,
        Some(existing) => H::digest_spec(existing) != H::digest_spec(source),
    }
}

/// The destination content after syncing `source` onto `dest`: the source
/// content when a write happens, the untouched destination otherwise.
pub open spec fn sync_result<H: ContentHasher>(source: Seq<u8>, dest: Option<Seq<u8>>) -> Seq<u8> {
    if sync_writes::<H>(source, dest) {
        source
    } else {
        dest->0
    }
}

/// Whether a probe of the destination produced a digest equal to the
/// source's; if not, a copy is due.
pub fn copy_is_due(source_digest: u64, dest_digest: Option<u64>) -> (due: bool)
    ensures
        due == copy_decision(source_digest, dest_digest),
{
    match dest_digest {
        Some(existing) => existing != source_digest,
        None => true,
    }
}

/// An exact duplicate of a byte buffer, as a full copy writes it.
pub fn copied_bytes(source: &[u8]) -> (out: Vec<u8>)
    ensures
        out@ == source@,
{
    let mut out: Vec<u8> = Vec::new();
    let mut i: usize = 0;
    while i < source.len()
        invariant
            i <= source.len(),
            out@ =~= source@.take(i as int),
        decreases source.len() - i,
    {
        out.push(source[i]);
        proof {
            assert(out@ =~= source@.take(i as int + 1));
        }
        i = i + 1;
    }
    proof {
        assert(source@.take(source@.len() as int) =~= source@);
    }
    out
}

/// Sync an in-memory byte buffer onto an optional in-memory destination.
///
/// Both sides are digested with strategy `H`; the buffer is written over the
/// destination only when the destination is absent or the digests differ.
/// Returns whether a write happened; when it did not, the destination is the
/// very value it was, untouched.
pub fn write_on_bytes_diff<H: ContentHasher>(source: &[u8], dest: &mut Option<Vec<u8>>) -> (wrote: bool)
    ensures
        wrote == sync_writes::<H>(source@, content_view(*old(dest))),
        content_view(*final(dest)) == Some(sync_result::<H>(source@, content_view(*old(dest)))),
        !wrote ==> *final(dest) == *old(dest),
{
    let source_digest = crate::hashing::digest_of_bytes::<H>(source);
    let dest_digest: Option<u64> = match dest {
        Some(existing) => Some(crate::hashing::digest_of_bytes::<H>(existing.as_slice())),
        None => None,
    };
    if copy_is_due(source_digest, dest_digest) {
        *dest = Some(copied_bytes(source));
        true
    } else {
        false
    }
}

/// Law: metadata is preserved on equality.  A destination whose content
/// already equals the source is never written, and keeps its content.
pub proof fn lemma_equal_content_is_never_written<H: ContentHasher>(source: Seq<u8>, dest: Seq<u8>)
    requires
        dest == source,
    ensures
        !sync_writes::<H>(source, Some(dest)),
        sync_result::<H>(source, Some(dest)) == dest,
{
}

/// Law: a digest mismatch triggers the copy.  When the destination's digest
/// differs from the source's — in particular whenever the contents differ by
/// anything the digest distinguishes — the destination ends up holding
/// exactly the source content.
pub proof fn lemma_digest_mismatch_copies<H: ContentHasher>(source: Seq<u8>, dest: Seq<u8>)
    requires
        H::digest_spec(dest) != H::digest_spec(source),
    ensures
        sync_writes::<H>(source, Some(dest)),
        sync_result::<H>(source, Some(dest)) == source,
{
}

/// Law: an absent destination is created with the source content.
pub proof fn lemma_absent_dest_is_created<H: ContentHasher>(source: Seq<u8>)
    ensures
        sync_writes::<H>(source, None),
        sync_result::<H>(source, None) == source,
{
}

/// Law: the sync is idempotent.  Applying it a second time, with the content
/// the first application left behind as the destination, writes nothing and
/// leaves that content as it is.
pub proof fn lemma_sync_idempotent<H: ContentHasher>(source: Seq<u8>, dest: Option<Seq<u8>>)
    ensures
        !sync_writes::<H>(source, Some(sync_result::<H>(source, dest))),
        sync_result::<H>(source, Some(sync_result::<H>(source, dest))) == sync_result::<H>(source, dest),
{
}

} // verus!
