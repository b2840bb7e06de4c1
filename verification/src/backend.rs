//! The forwarding backends: per-call adapters that present the two
//! block-processing operations — one block, or a parallel batch of blocks —
//! and relay every request unchanged to the cipher they borrow.  They hold
//! nothing but that borrow, buffer nothing, and exist only for the dynamic
//! extent of one mode-layer call.

use vstd::prelude::*;

use vstd::arithmetic::div_mod::lemma_mod_add_multiples_vanish;
use vstd::arithmetic::div_mod::lemma_small_mod;
use vstd::arithmetic::div_mod::lemma_sub_mod_noop;

use crate::block_cipher::BlockCipher;
use crate::bytes::copy_range;
use crate::bytes::write_range;
use crate::laws::lemma_ecb_append;
use crate::laws::lemma_ecb_decrypt_append;
use crate::laws::lemma_ecb_decrypt_single_block;
use crate::laws::lemma_ecb_single_block;
use crate::model::ecb_decrypt;
use crate::model::ecb_encrypt;
use crate::model::lemma_ecb_decrypt_len;
use crate::model::lemma_ecb_encrypt_len;

verus! {

/// Encrypting backend: forwards block-processing requests to the borrowed
/// cipher's forward transform.
pub struct EncBackend<'a, C: BlockCipher> {
    cipher: &'a C,
}

impl<'a, C: BlockCipher> EncBackend<'a, C> {
    /// The cipher this backend forwards to.
    pub closed spec fn spec_cipher(&self) -> C {
        *self.cipher
    }

    /// Wrap a borrowed cipher for the duration of one call.
    pub fn new(cipher: &'a C) -> (r: Self)
        ensures
            r.spec_cipher() == *cipher,
    {
        EncBackend { cipher }
    }

    /// Process one block: encrypt it in place.  The result depends only on
    /// the block and the cipher, never on earlier calls.
    pub fn proc_block(&self, block: &mut Vec<u8>)
        requires
            old(block)@.len() == self.spec_cipher().spec_block_size(),
        ensures
            final(block)@ == self.spec_cipher().enc(old(block)@),
    {
        self.cipher.encrypt_block(block);
    }

    /// Process a parallel batch: encrypt every contained block in place, by
    /// handing each to the single-block operation independently, in order.
    #[verifier::loop_isolation(false)]
    pub fn proc_par_blocks(&self, blocks: &mut Vec<u8>)
        requires
            old(blocks)@.len() % (self.spec_cipher().spec_block_size() as nat) == 0,
        ensures
            final(blocks)@ == ecb_encrypt(self.spec_cipher(), old(blocks)@),
    {
        let ghost c: C = self.spec_cipher();
        proof {
            c.block_size_pos();
        }
        let bs = self.cipher.block_size();
        let n = blocks.len();
        let ghost orig: Seq<u8> = blocks@;
        proof {
            assert(ecb_encrypt(c, orig.take(0)) + orig.skip(0) =~= orig);
        }
        let mut i: usize = 0;
        while i < n
            invariant
                i <= n,
                (i as int) % (bs as int) == 0,
                blocks@.len() == n,
                blocks@ == ecb_encrypt(c, orig.take(i as int)) + orig.skip(i as int),
            decreases n - i,
        {
            proof {
                lemma_sub_mod_noop(n as int, i as int, bs as int);
                lemma_small_mod(0, bs as nat);
                if n - i < bs {
                    lemma_small_mod((n - i) as nat, bs as nat);
                    assert(false);
                }
                lemma_ecb_encrypt_len(c, orig.take(i as int));
                assert(blocks@.subrange(i as int, i as int + bs as int) =~= orig.subrange(
                    i as int, i as int + bs as int));
            }
            let mut block = copy_range(blocks, i, bs);
            self.proc_block(&mut block);
            proof {
                c.enc_len(orig.subrange(i as int, i as int + bs as int));
            }
            let ghost before: Seq<u8> = blocks@;
            write_range(blocks, i, &block);
            proof {
                let sub = orig.subrange(i as int, i as int + bs as int);
                assert(before.subrange(0, i as int) =~= ecb_encrypt(c, orig.take(i as int)));
                assert(before.subrange(i as int + bs as int, n as int) =~= orig.skip(
                    (i + bs) as int));
                lemma_ecb_append(c, orig.take(i as int), sub);
                lemma_ecb_single_block(c, sub);
                assert(orig.take(i as int) + sub =~= orig.take((i + bs) as int));
                assert(blocks@ =~= ecb_encrypt(c, orig.take((i + bs) as int)) + orig.skip(
                    (i + bs) as int));
                lemma_mod_add_multiples_vanish(i as int, bs as int);
            }
            i = i + bs;
        }
        proof {
            assert(orig.take(n as int) =~= orig);
            assert(orig.skip(n as int) =~= Seq::<u8>::empty());
            assert(ecb_encrypt(c, orig.take(n as int)) + orig.skip(n as int) =~= ecb_encrypt(
                c, orig));
        }
    }
}

/// Decrypting backend: the exact mirror of [`EncBackend`], forwarding to the
/// borrowed cipher's inverse transform.
pub struct DecBackend<'a, C: BlockCipher> {
    cipher: &'a C,
}

impl<'a, C: BlockCipher> DecBackend<'a, C> {
    /// The cipher this backend forwards to.
    pub closed spec fn spec_cipher(&self) -> C {
        *self.cipher
    }

    /// Wrap a borrowed cipher for the duration of one call.
    pub fn new(cipher: &'a C) -> (r: Self)
        ensures
            r.spec_cipher() == *cipher,
    {
        DecBackend { cipher }
    }

    /// Process one block: decrypt it in place.  The result depends only on
    /// the block and the cipher, never on earlier calls.
    pub fn proc_block(&self, block: &mut Vec<u8>)
        requires
            old(block)@.len() == self.spec_cipher().spec_block_size(),
        ensures
            final(block)@ == self.spec_cipher().dec(old(block)@),
    {
        self.cipher.decrypt_block(block);
    }

    /// Process a parallel batch: decrypt every contained block in place, by
    /// handing each to the single-block operation independently, in order.
    #[verifier::loop_isolation(false)]
    pub fn proc_par_blocks(&self, blocks: &mut Vec<u8>)
        requires
            old(blocks)@.len() % (self.spec_cipher().spec_block_size() as nat) == 0,
        ensures
            final(blocks)@ == ecb_decrypt(self.spec_cipher(), old(blocks)@),
    {
        let ghost c: C = self.spec_cipher();
        proof {
            c.block_size_pos();
        }
        let bs = self.cipher.block_size();
        let n = blocks.len();
        let ghost orig: Seq<u8> = blocks@;
        proof {
            assert(ecb_decrypt(c, orig.take(0)) + orig.skip(0) =~= orig);
        }
        let mut i: usize = 0;
        while i < n
            invariant
                i <= n,
                (i as int) % (bs as int) == 0,
                blocks@.len() == n,
                blocks@ == ecb_decrypt(c, orig.take(i as int)) + orig.skip(i as int),
            decreases n - i,
        {
            proof {
                lemma_sub_mod_noop(n as int, i as int, bs as int);
                lemma_small_mod(0, bs as nat);
                if n - i < bs {
                    lemma_small_mod((n - i) as nat, bs as nat);
                    assert(false);
                }
                lemma_ecb_decrypt_len(c, orig.take(i as int));
                assert(blocks@.subrange(i as int, i as int + bs as int) =~= orig.subrange(
                    i as int, i as int + bs as int));
            }
            let mut block = copy_range(blocks, i, bs);
            self.proc_block(&mut block);
            proof {
                c.dec_len(orig.subrange(i as int, i as int + bs as int));
            }
            let ghost before: Seq<u8> = blocks@;
            write_range(blocks, i, &block);
            proof {
                let sub = orig.subrange(i as int, i as int + bs as int);
                assert(before.subrange(0, i as int) =~= ecb_decrypt(c, orig.take(i as int)));
                assert(before.subrange(i as int + bs as int, n as int) =~= orig.skip(
                    (i + bs) as int));
                lemma_ecb_decrypt_append(c, orig.take(i as int), sub);
                lemma_ecb_decrypt_single_block(c, sub);
                assert(orig.take(i as int) + sub =~= orig.take((i + bs) as int));
                assert(blocks@ =~= ecb_decrypt(c, orig.take((i + bs) as int)) + orig.skip(
                    (i + bs) as int));
                lemma_mod_add_multiples_vanish(i as int, bs as int);
            }
            i = i + bs;
        }
        proof {
            assert(orig.take(n as int) =~= orig);
            assert(orig.skip(n as int) =~= Seq::<u8>::empty());
            assert(ecb_decrypt(c, orig.take(n as int)) + orig.skip(n as int) =~= ecb_decrypt(
                c, orig));
        }
    }
}

} // verus!
