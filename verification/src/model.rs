//! The mathematical model of ECB: what encrypting or decrypting a
//! block-aligned byte sequence means.  Each block is transformed on its own;
//! the outputs stand in the order of the inputs.

use vstd::prelude::*;

use crate::block_cipher::BlockCipher;

verus! {

/// ECB encryption of `m` under `c`: the first block is encrypted on its own,
/// the rest recursively, and the results are concatenated.  On sequences
/// whose length is a positive multiple of the block width this walks the
/// message block by block; a final fragment shorter than one block (which an
/// aligned message never has) passes through unchanged.
pub open spec fn ecb_encrypt<C: BlockCipher>(c: C, m: Seq<u8>) -> Seq<u8>
    decreases m.len()
        when c.spec_block_size() >= 1
{
    let bs = c.spec_block_size() as int;
    if m.len() == 0 {
        Seq::empty()
    } else if m.len() < bs {
        m
    } else {
        c.enc(m.take(bs)) + ecb_encrypt(c, m.skip(bs))
    }
}

/// ECB decryption of `m` under `c`: the exact mirror of [`ecb_encrypt`],
/// with the inverse transform in place of the forward one.
pub open spec fn ecb_decrypt<C: BlockCipher>(c: C, m: Seq<u8>) -> Seq<u8>
    decreases m.len()
        when c.spec_block_size() >= 1
{
    let bs = c.spec_block_size() as int;
    if m.len() == 0 {
        Seq::empty()
    } else if m.len() < bs {
        m
    } else {
        c.dec(m.take(bs)) + ecb_decrypt(c, m.skip(bs))
    }
}

/// ECB encryption taken `width` blocks at a time: the shape of a batched
/// (parallel) backend, which hands the cipher groups of blocks rather than
/// one block per call.  [`crate::laws::lemma_ecb_chunked_agrees`] proves the
/// grouping invisible in the result.
pub open spec fn ecb_encrypt_chunked<C: BlockCipher>(c: C, m: Seq<u8>, width: nat) -> Seq<u8>
    decreases m.len()
{
    let chunk = width * (c.spec_block_size() as nat);
    if m.len() == 0 || chunk < 1 || m.len() <= chunk {
        ecb_encrypt(c, m)
    } else {
        ecb_encrypt(c, m.take(chunk as int)) + ecb_encrypt_chunked(c, m.skip(chunk as int), width)
    }
}

/// ECB encryption preserves the length of every sequence.
pub proof fn lemma_ecb_encrypt_len<C: BlockCipher>(c: C, m: Seq<u8>)
    requires
        c.spec_block_size() >= 1,
    ensures
        ecb_encrypt(c, m).len() == m.len(),
    decreases m.len(),
{
    let bs = c.spec_block_size() as int;
    if m.len() == 0 {
    } else if m.len() < bs {
    } else {
        c.enc_len(m.take(bs));
        lemma_ecb_encrypt_len(c, m.skip(bs));
    }
}

/// ECB decryption preserves the length of every sequence.
pub proof fn lemma_ecb_decrypt_len<C: BlockCipher>(c: C, m: Seq<u8>)
    requires
        c.spec_block_size() >= 1,
    ensures
        ecb_decrypt(c, m).len() == m.len(),
    decreases m.len(),
{
    let bs = c.spec_block_size() as int;
    if m.len() == 0 {
    } else if m.len() < bs {
    } else {
        c.dec_len(m.take(bs));
        lemma_ecb_decrypt_len(c, m.skip(bs));
    }
}

} // verus!
