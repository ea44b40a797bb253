use vstd::prelude::*;
use crate::engine::MD2;
use crate::model::{md2, pad, absorb, lemma_absorb_len, lemma_compress_len};

verus! {

/// The bytes absorbed by an engine that is fed `chunks` one after another, each by one
/// call of `update`, starting from a fresh engine.
pub open spec fn fed(chunks: Seq<Seq<u8>>) -> Seq<u8>
    decreases chunks.len(),
{
    if chunks.len() == 0 {
        Seq::empty()
    } else {
        fed(chunks.drop_last()) + chunks.last()
    }
}

/// Hashing is deterministic: two well-formed engines that absorbed the same bytes, however
/// they were fed, finalize to one and the same 16-byte digest.
pub proof fn lemma_determinism(a: MD2, b: MD2)
    requires
        a.wf(),
        b.wf(),
        a@ == b@,
    ensures
        md2(a@) == md2(b@),
        md2(a@).len() == 16,
{
    lemma_digest_len(a@);
}

/// Chunking does not matter: feeding the pieces of a message by successive `update` calls
/// absorbs the whole message, so the digest is the one of a single `update` or of
/// `with_input` over the concatenation.
pub proof fn lemma_chunking_invariance(chunks: Seq<Seq<u8>>)
    ensures
        fed(chunks) == chunks.flatten(),
        md2(fed(chunks)) == md2(chunks.flatten()),
    decreases chunks.len(),
{
    if chunks.len() > 0 {
        lemma_chunking_invariance(chunks.drop_last());
        chunks.lemma_flatten_and_flatten_alt_are_equivalent();
        chunks.drop_last().lemma_flatten_and_flatten_alt_are_equivalent();
    }
}

/// Block boundaries lose and repeat nothing: an engine that absorbed `m` has compressed
/// exactly its first `m.len() / 16` blocks into the state and the checksum, and holds the
/// remaining `m.len() % 16` bytes at the front of its buffer; those blocks and those bytes
/// together are `m`.
pub proof fn lemma_block_boundary(e: MD2, m: Seq<u8>)
    requires
        e.wf(),
        e@ == m,
    ensures
        e.buffered() == m.len() % 16,
        (e.state_bytes(), e.checksum_bytes()) == absorb(m, m.len() / 16),
        m == m.subrange(0, 16 * (m.len() / 16) as int) + e.buffer_bytes().subrange(
            0,
            e.buffered() as int,
        ),
{
    e.lemma_fields();
    assert(m =~= m.subrange(0, 16 * (m.len() / 16) as int) + e.buffer_bytes().subrange(
        0,
        e.buffered() as int,
    ));
}

/// Every digest is exactly 16 bytes long, whatever the length of the message.
pub proof fn lemma_digest_len(msg: Seq<u8>)
    ensures
        md2(msg).len() == 16,
{
    let m = pad(msg);
    lemma_absorb_len(m, m.len() / 16);
    let (s, c) = absorb(m, m.len() / 16);
    lemma_compress_len(s, c);
}

} // verus!
