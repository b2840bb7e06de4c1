//! The capability a block cipher must offer so that the mode layer can drive
//! it: a fixed positive block width, a forward and an inverse one-block
//! transform, and proofs that the two transforms preserve the width and
//! invert each other.  Key schedule and key validation happen before a value
//! of an implementing type exists; the mode layer never sees a key.

use vstd::prelude::*;

verus! {

/// An initialized block cipher: a pure pair of inverse permutations on
/// blocks of a fixed positive width.
///
/// The spec functions [`BlockCipher::enc`] and [`BlockCipher::dec`] are the
/// mathematical transforms; [`BlockCipher::encrypt_block`] and
/// [`BlockCipher::decrypt_block`] are their executable forms, mutating one
/// block in place.  Both depend only on the block's bytes and the cipher
/// value itself, never on position, history, or hidden state.
pub trait BlockCipher: Sized {
    /// Width in bytes of the cipher's native transform.
    spec fn spec_block_size(&self) -> usize;

    /// The forward (encrypting) transform of one block.
    spec fn enc(&self, block: Seq<u8>) -> Seq<u8>;

    /// The inverse (decrypting) transform of one block.
    spec fn dec(&self, block: Seq<u8>) -> Seq<u8>;

    /// A block is never empty: the width is at least one byte.
    proof fn block_size_pos(&self)
        ensures
            self.spec_block_size() >= 1,
    ;

    /// Encrypting a block keeps its width.
    proof fn enc_len(&self, block: Seq<u8>)
        requires
            block.len() == self.spec_block_size(),
        ensures
            self.enc(block).len() == block.len(),
    ;

    /// Decrypting a block keeps its width.
    proof fn dec_len(&self, block: Seq<u8>)
        requires
            block.len() == self.spec_block_size(),
        ensures
            self.dec(block).len() == block.len(),
    ;

    /// Decryption inverts encryption on every block of the right width.
    proof fn dec_of_enc(&self, block: Seq<u8>)
        requires
            block.len() == self.spec_block_size(),
        ensures
            self.dec(self.enc(block)) == block,
    ;

    /// The block width, as executable code sees it.
    fn block_size(&self) -> (n: usize)
        ensures
            n == self.spec_block_size(),
    ;

    /// Encrypt one block in place.
    fn encrypt_block(&self, block: &mut Vec<u8>)
        requires
            old(block)@.len() == self.spec_block_size(),
        ensures
            final(block)@ == self.enc(old(block)@),
    ;

    /// Decrypt one block in place.
    fn decrypt_block(&self, block: &mut Vec<u8>)
        requires
            old(block)@.len() == self.spec_block_size(),
        ensures
            final(block)@ == self.dec(old(block)@),
    ;
}

/// A cipher that can report a human-readable algorithm name.  The name never
/// depends on, nor reveals, key material.
pub trait NamedCipher: BlockCipher {
    /// The algorithm name as a sequence of characters.
    spec fn spec_name(&self) -> Seq<char>;

    /// The algorithm name, as executable code sees it.
    fn name(&self) -> (r: String)
        ensures
            r@ == self.spec_name(),
    ;
}

} // verus!
