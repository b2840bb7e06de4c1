//! The laws of ECB, proved once and for all ciphers: a single block is
//! encrypted exactly by the cipher's own transform, blocks are independent
//! of their neighbours, identical blocks yield identical ciphertext,
//! decryption round-trips encryption, and batch grouping is invisible in
//! the result.

use vstd::prelude::*;

use vstd::arithmetic::div_mod::lemma_mod_multiples_basic;
use vstd::arithmetic::div_mod::lemma_mod_self_0;
use vstd::arithmetic::div_mod::lemma_mod_sub_multiples_vanish;
use vstd::arithmetic::div_mod::lemma_small_mod;

use crate::block_cipher::BlockCipher;
use crate::model::ecb_decrypt;
use crate::model::ecb_encrypt;
use crate::model::ecb_encrypt_chunked;
use crate::model::lemma_ecb_encrypt_len;

verus! {

/// On a message of exactly one block, ECB is the cipher's own transform.
pub proof fn lemma_ecb_single_block<C: BlockCipher>(c: C, b: Seq<u8>)
    requires
        b.len() == c.spec_block_size(),
    ensures
        ecb_encrypt(c, b) == c.enc(b),
{
    c.block_size_pos();
    let bs = c.spec_block_size() as int;
    assert(b.take(bs) =~= b);
    assert(b.skip(bs) =~= Seq::<u8>::empty());
    assert(c.enc(b) + ecb_encrypt(c, b.skip(bs)) =~= c.enc(b));
}

/// Block independence: encrypting a concatenation is concatenating the
/// encryptions, whenever the first part is block-aligned.  Splitting a
/// message anywhere on a block boundary, encrypting the parts separately
/// and concatenating gives the ciphertext of the whole.
pub proof fn lemma_ecb_append<C: BlockCipher>(c: C, m1: Seq<u8>, m2: Seq<u8>)
    requires
        m1.len() % (c.spec_block_size() as nat) == 0,
    ensures
        ecb_encrypt(c, m1 + m2) == ecb_encrypt(c, m1) + ecb_encrypt(c, m2),
    decreases m1.len(),
{
    c.block_size_pos();
    let bs = c.spec_block_size() as int;
    if m1.len() == 0 {
        assert(m1 + m2 =~= m2);
        assert(ecb_encrypt(c, m1) + ecb_encrypt(c, m2) =~= ecb_encrypt(c, m2));
    } else {
        if m1.len() < bs {
            lemma_small_mod(m1.len(), c.spec_block_size() as nat);
            assert(false);
        }
        assert((m1 + m2).take(bs) =~= m1.take(bs));
        assert((m1 + m2).skip(bs) =~= m1.skip(bs) + m2);
        lemma_mod_sub_multiples_vanish(m1.len() as int, bs);
        assert(m1.skip(bs).len() % (c.spec_block_size() as nat) == 0);
        lemma_ecb_append(c, m1.skip(bs), m2);
        assert(c.enc(m1.take(bs)) + (ecb_encrypt(c, m1.skip(bs)) + ecb_encrypt(c, m2)) =~= (
        c.enc(m1.take(bs)) + ecb_encrypt(c, m1.skip(bs))) + ecb_encrypt(c, m2));
    }
}

/// On a ciphertext of exactly one block, ECB decryption is the cipher's own
/// inverse transform.
pub proof fn lemma_ecb_decrypt_single_block<C: BlockCipher>(c: C, b: Seq<u8>)
    requires
        b.len() == c.spec_block_size(),
    ensures
        ecb_decrypt(c, b) == c.dec(b),
{
    c.block_size_pos();
    let bs = c.spec_block_size() as int;
    assert(b.take(bs) =~= b);
    assert(b.skip(bs) =~= Seq::<u8>::empty());
    assert(c.dec(b) + ecb_decrypt(c, b.skip(bs)) =~= c.dec(b));
}

/// Block independence on the decrypt side: decrypting a concatenation is
/// concatenating the decryptions, whenever the first part is block-aligned.
pub proof fn lemma_ecb_decrypt_append<C: BlockCipher>(c: C, m1: Seq<u8>, m2: Seq<u8>)
    requires
        m1.len() % (c.spec_block_size() as nat) == 0,
    ensures
        ecb_decrypt(c, m1 + m2) == ecb_decrypt(c, m1) + ecb_decrypt(c, m2),
    decreases m1.len(),
{
    c.block_size_pos();
    let bs = c.spec_block_size() as int;
    if m1.len() == 0 {
        assert(m1 + m2 =~= m2);
        assert(ecb_decrypt(c, m1) + ecb_decrypt(c, m2) =~= ecb_decrypt(c, m2));
    } else {
        if m1.len() < bs {
            lemma_small_mod(m1.len(), c.spec_block_size() as nat);
            assert(false);
        }
        assert((m1 + m2).take(bs) =~= m1.take(bs));
        assert((m1 + m2).skip(bs) =~= m1.skip(bs) + m2);
        lemma_mod_sub_multiples_vanish(m1.len() as int, bs);
        assert(m1.skip(bs).len() % (c.spec_block_size() as nat) == 0);
        lemma_ecb_decrypt_append(c, m1.skip(bs), m2);
        assert(c.dec(m1.take(bs)) + (ecb_decrypt(c, m1.skip(bs)) + ecb_decrypt(c, m2)) =~= (
        c.dec(m1.take(bs)) + ecb_decrypt(c, m1.skip(bs))) + ecb_decrypt(c, m2));
    }
}

/// Block independence, block by block: the `k`-th ciphertext block is the
/// cipher's transform of the `k`-th plaintext block, and of nothing else.
pub proof fn lemma_ecb_block_at<C: BlockCipher>(c: C, m: Seq<u8>, k: int)
    requires
        0 <= k,
        (k + 1) * (c.spec_block_size() as int) <= m.len(),
    ensures
        ecb_encrypt(c, m).subrange(
            k * (c.spec_block_size() as int),
            (k + 1) * (c.spec_block_size() as int),
        ) == c.enc(
            m.subrange(k * (c.spec_block_size() as int), (k + 1) * (c.spec_block_size() as int)),
        ),
{
    c.block_size_pos();
    let bs = c.spec_block_size() as int;
    let i = k * bs;
    assert((k + 1) * bs == k * bs + bs) by (nonlinear_arith);
    assert(k * bs >= 0) by (nonlinear_arith)
        requires
            k >= 0,
            bs >= 1,
    ;
    lemma_mod_multiples_basic(k, bs);
    assert(m.take(i).len() % (c.spec_block_size() as nat) == 0);
    lemma_ecb_append(c, m.take(i), m.skip(i));
    assert(m.take(i) + m.skip(i) =~= m);
    lemma_ecb_encrypt_len(c, m.take(i));
    let tail = m.skip(i);
    let sub = m.subrange(i, i + bs);
    assert(tail.take(bs) =~= sub);
    c.enc_len(sub);
    assert(ecb_encrypt(c, m).subrange(i, i + bs) =~= c.enc(sub));
}

/// Determinism and absence of chaining: two identical blocks encrypt to two
/// identical ciphertext blocks, wherever they stand.  This is ECB's defining
/// (and deliberately insecure) property.
pub proof fn lemma_ecb_identical_blocks<C: BlockCipher>(c: C, b: Seq<u8>)
    requires
        b.len() == c.spec_block_size(),
    ensures
        ecb_encrypt(c, b + b) == c.enc(b) + c.enc(b),
{
    c.block_size_pos();
    lemma_mod_self_0(c.spec_block_size() as int);
    assert(b.len() % (c.spec_block_size() as nat) == 0);
    lemma_ecb_append(c, b, b);
    lemma_ecb_single_block(c, b);
}

/// Round trip: decrypting the encryption of any block-aligned message under
/// the same cipher gives the message back.
pub proof fn lemma_ecb_round_trip<C: BlockCipher>(c: C, m: Seq<u8>)
    requires
        m.len() % (c.spec_block_size() as nat) == 0,
    ensures
        ecb_decrypt(c, ecb_encrypt(c, m)) == m,
    decreases m.len(),
{
    c.block_size_pos();
    let bs = c.spec_block_size() as int;
    if m.len() == 0 {
        assert(ecb_decrypt(c, ecb_encrypt(c, m)) =~= m);
    } else {
        if m.len() < bs {
            lemma_small_mod(m.len(), c.spec_block_size() as nat);
            assert(false);
        }
        let head = m.take(bs);
        let tail = m.skip(bs);
        let e = ecb_encrypt(c, m);
        c.enc_len(head);
        lemma_ecb_encrypt_len(c, tail);
        assert(e.take(bs) =~= c.enc(head));
        assert(e.skip(bs) =~= ecb_encrypt(c, tail));
        c.dec_of_enc(head);
        lemma_mod_sub_multiples_vanish(m.len() as int, bs);
        lemma_ecb_round_trip(c, tail);
        assert(ecb_decrypt(c, e) == head + tail);
        assert(head + tail =~= m);
    }
}

/// Batch-size invariance: handing the cipher any number of blocks at a time
/// leaves the ciphertext exactly what block-by-block processing gives, for
/// every grouping width.
pub proof fn lemma_ecb_chunked_agrees<C: BlockCipher>(c: C, m: Seq<u8>, width: nat)
    ensures
        ecb_encrypt_chunked(c, m, width) == ecb_encrypt(c, m),
    decreases m.len(),
{
    c.block_size_pos();
    let bsn = c.spec_block_size() as nat;
    let chunk = width * bsn;
    if m.len() == 0 || chunk < 1 || m.len() <= chunk {
    } else {
        lemma_mod_multiples_basic(width as int, bsn as int);
        assert(m.take(chunk as int).len() % bsn == 0);
        lemma_ecb_chunked_agrees(c, m.skip(chunk as int), width);
        lemma_ecb_append(c, m.take(chunk as int), m.skip(chunk as int));
        assert(m.take(chunk as int) + m.skip(chunk as int) =~= m);
    }
}

} // verus!
