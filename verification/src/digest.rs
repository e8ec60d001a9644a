//! Content digests: SHA-256 over the bytes of a file, fed chunk by chunk.

use ring::digest::{Context, SHA256};
use vstd::prelude::*;

verus! {

/// The longest input that can be digested, in bytes: its length in bits
/// still fits a `u64`.
pub const MAX_DIGEST_INPUT: u64 = 0x1fff_ffff_ffff_ffff;

/// The length of a digest in bytes.
pub const DIGEST_LEN: usize = 32;

/// `ring::digest::Context`, the state of a digest that is computed in
/// steps. Its inside is not looked at.
#[verifier::external_type_specification]
#[verifier::external_body]
pub struct ExContext(Context);

/// The SHA-256 digest of a byte string: what `ring::digest::Context::finish`
/// hands back for a context that was fed that string.
pub uninterp spec fn sha256(data: Seq<u8>) -> Seq<u8>;

/// The bytes that a digest context has been fed so far, in order.
pub uninterp spec fn absorbed(context: Context) -> Seq<u8>;

/// `ring::digest::Context::new` for SHA-256: a context that has been fed
/// nothing.
#[verifier::external_body]
fn context_new() -> (context: Context)
    ensures
        absorbed(context) == Seq::<u8>::empty(),
{
    Context::new(&SHA256)
}

/// `ring::digest::Context::update`: the context has been fed `data` after
/// what it had been fed before.
#[verifier::external_body]
fn context_update(context: &mut Context, data: &[u8])
    ensures
        absorbed(*final(context)) == absorbed(*old(context)) + data@,
{
    context.update(data)
}

/// `ring::digest::Context::finish`: the SHA-256 digest of everything the
/// context has been fed, 32 bytes long. The outside function panics where
/// the length of the input in bits does not fit a `u64`, so such a context
/// is not accepted.
#[verifier::external_body]
fn context_finish(context: Context) -> (digest: Vec<u8>)
    requires
        absorbed(context).len() <= MAX_DIGEST_INPUT,
    ensures
        digest@ == sha256(absorbed(context)),
        digest@.len() == DIGEST_LEN,
{
    context.finish().as_ref().to_vec()
}

/// Digests the content of a file that is read in chunks, so that a file of
/// any size is digested in bounded memory.
pub struct ContentHasher {
    context: Context,
    /// The number of bytes fed so far.
    length: u64,
}

impl ContentHasher {
    /// The bytes fed so far.
    pub closed spec fn content(&self) -> Seq<u8> {
        absorbed(self.context)
    }

    /// The hasher has counted what it was fed, and that is not more than
    /// can be digested.
    pub closed spec fn wf(&self) -> bool {
        self.length == absorbed(self.context).len() && self.length <= MAX_DIGEST_INPUT
    }

    /// A hasher that has been fed nothing.
    pub fn new() -> (hasher: Self)
        ensures
            hasher.wf(),
            hasher.content() == Seq::<u8>::empty(),
    {
        ContentHasher { context: context_new(), length: 0 }
    }

    /// Feeds the next chunk of the content. A chunk that would take the
    /// content beyond `MAX_DIGEST_INPUT` bytes is refused, and the hasher
    /// stays as it was.
    pub fn update(&mut self, chunk: &[u8]) -> (taken: bool)
        requires
            old(self).wf(),
        ensures
            final(self).wf(),
            taken <==> old(self).content().len() + chunk@.len() <= MAX_DIGEST_INPUT,
            final(self).content() == if taken {
                old(self).content() + chunk@
            } else {
                old(self).content()
            },
    {
        let room = MAX_DIGEST_INPUT - self.length;
        if chunk.len() as u64 > room {
            return false;
        }
        context_update(&mut self.context, chunk);
        self.length = self.length + chunk.len() as u64;
        true
    }

    /// The digest of the content fed so far.
    pub fn finish(self) -> (digest: Vec<u8>)
        requires
            self.wf(),
        ensures
            digest@ == sha256(self.content()),
            digest@.len() == DIGEST_LEN,
    {
        context_finish(self.context)
    }
}

/// The chunks laid end to end.
pub open spec fn concat(chunks: Seq<Vec<u8>>) -> Seq<u8>
    decreases chunks.len(),
{
    if chunks.len() == 0 {
        Seq::empty()
    } else {
        concat(chunks.drop_last()) + chunks.last()@
    }
}

/// The SHA-256 digest of a content that is given in chunks, or `None`
/// where the content is longer than `MAX_DIGEST_INPUT` bytes. How the
/// content is cut into chunks makes no difference.
pub fn sha256_digest(chunks: &Vec<Vec<u8>>) -> (digest: Option<Vec<u8>>)
    ensures
        digest.is_some() <==> concat(chunks@).len() <= MAX_DIGEST_INPUT,
        digest matches Some(bytes) ==> bytes@ == sha256(concat(chunks@)) && bytes@.len() == DIGEST_LEN,
{
    let mut hasher = ContentHasher::new();
    let mut i: usize = 0;
    assert(chunks@.take(0) =~= Seq::<Vec<u8>>::empty());
    while i < chunks.len()
        invariant
            i <= chunks.len(),
            hasher.wf(),
            hasher.content() == concat(chunks@.take(i as int)),
        decreases chunks.len() - i,
    {
        proof {
            assert(chunks@.take(i + 1).drop_last() =~= chunks@.take(i as int));
            lemma_concat_grows(chunks@, i as int + 1);
        }
        if !hasher.update(chunks[i].as_slice()) {
            return None;
        }
        i += 1;
    }
    assert(chunks@.take(i as int) =~= chunks@);
    Some(hasher.finish())
}

/// The first chunks are together no longer than all of them.
pub proof fn lemma_concat_grows(chunks: Seq<Vec<u8>>, n: int)
    requires
        0 <= n <= chunks.len(),
    ensures
        concat(chunks.take(n)).len() <= concat(chunks).len(),
    decreases chunks.len() - n,
{
    if n < chunks.len() {
        lemma_concat_grows(chunks, n + 1);
        assert(chunks.take(n + 1).drop_last() =~= chunks.take(n));
    } else {
        assert(chunks.take(n) =~= chunks);
    }
}

} // verus!
