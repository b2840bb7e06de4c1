//! The mode objects.  An [`Encryptor`] (resp. [`Decryptor`]) owns exactly
//! one initialized cipher and nothing else: no IV, no counter, no buffer.
//! Each call hands a per-call forwarding backend to the message and
//! transforms every submitted block in place; nothing is retained across
//! calls.

use vstd::prelude::*;

use vstd::arithmetic::div_mod::lemma_mod_add_multiples_vanish;
use vstd::arithmetic::div_mod::lemma_small_mod;
use vstd::arithmetic::div_mod::lemma_sub_mod_noop;
use vstd::string::StringExecFns;

use crate::backend::DecBackend;
use crate::backend::EncBackend;
use crate::block_cipher::BlockCipher;
use crate::block_cipher::NamedCipher;
use crate::bytes::copy_range;
use crate::bytes::write_range;
use crate::laws::lemma_ecb_append;
use crate::laws::lemma_ecb_decrypt_append;
use crate::model::ecb_decrypt;
use crate::model::ecb_encrypt;
use crate::model::lemma_ecb_decrypt_len;
use crate::model::lemma_ecb_encrypt_len;

verus! {

/// ECB mode encryptor: wraps an owned cipher capable of the forward
/// transform.  Cloneable exactly when the cipher is (cloning duplicates key
/// material only; there is no mutable session state to duplicate).
#[derive(Clone)]
pub struct Encryptor<C: BlockCipher> {
    cipher: C,
}

/// ECB mode decryptor: wraps an owned cipher capable of the inverse
/// transform; the exact mirror of [`Encryptor`].
#[derive(Clone)]
pub struct Decryptor<C: BlockCipher> {
    cipher: C,
}

impl<C: BlockCipher> Encryptor<C> {
    /// The wrapped cipher.
    pub closed spec fn spec_cipher(&self) -> C {
        self.cipher
    }

    /// Take ownership of an initialized cipher.  Construction transforms,
    /// inspects and logs nothing: the result merely holds the cipher, and
    /// only a later call to an encrypt operation produces output.
    pub fn new(cipher: C) -> (r: Self)
        ensures
            r.spec_cipher() == cipher,
    {
        Encryptor { cipher }
    }

    /// Encrypt a block-aligned message in place, each block independently.
    pub fn encrypt(&self, msg: &mut Vec<u8>)
        requires
            old(msg)@.len() % (self.spec_cipher().spec_block_size() as nat) == 0,
        ensures
            final(msg)@ == ecb_encrypt(self.spec_cipher(), old(msg)@),
    {
        let backend = EncBackend::new(&self.cipher);
        backend.proc_par_blocks(msg);
    }

    /// Encrypt a block-aligned message in place, handing the backend batches
    /// of up to `width` blocks at a time.  The grouping is invisible in the
    /// result: the postcondition is the very one of [`Encryptor::encrypt`],
    /// whatever the width.
    #[verifier::loop_isolation(false)]
    pub fn encrypt_batched(&self, msg: &mut Vec<u8>, width: usize)
        requires
            width >= 1,
            old(msg)@.len() % (self.spec_cipher().spec_block_size() as nat) == 0,
        ensures
            final(msg)@ == ecb_encrypt(self.spec_cipher(), old(msg)@),
    {
        let ghost c: C = self.spec_cipher();
        proof {
            c.block_size_pos();
        }
        let bs = self.cipher.block_size();
        let n = msg.len();
        let ghost orig: Seq<u8> = msg@;
        let backend = EncBackend::new(&self.cipher);
        proof {
            assert(ecb_encrypt(c, orig.take(0)) + orig.skip(0) =~= orig);
        }
        let mut i: usize = 0;
        while i < n
            invariant
                i <= n,
                (i as int) % (bs as int) == 0,
                msg@.len() == n,
                msg@ == ecb_encrypt(c, orig.take(i as int)) + orig.skip(i as int),
            decreases n - i,
        {
            proof {
                lemma_ecb_encrypt_len(c, orig.take(i as int));
            }
            let mut chunk: Vec<u8> = Vec::new();
            let mut j: usize = i;
            let mut k: usize = 0;
            while k < width && j < n
                invariant
                    i <= j <= n,
                    k <= width,
                    (j as int) % (bs as int) == 0,
                    j == i <==> k == 0,
                    chunk@ == orig.subrange(i as int, j as int),
                decreases width - k,
            {
                proof {
                    lemma_sub_mod_noop(n as int, j as int, bs as int);
                    lemma_small_mod(0, bs as nat);
                    if n - j < bs {
                        lemma_small_mod((n - j) as nat, bs as nat);
                        assert(false);
                    }
                    assert(msg@.subrange(j as int, j as int + bs as int) =~= orig.subrange(
                        j as int, j as int + bs as int));
                }
                let mut b = copy_range(msg, j, bs);
                chunk.append(&mut b);
                proof {
                    assert(chunk@ =~= orig.subrange(i as int, (j + bs) as int));
                    lemma_mod_add_multiples_vanish(j as int, bs as int);
                }
                k += 1;
                j += bs;
            }
            proof {
                if j == i {
                    assert(k == 0);
                    assert(false);
                }
                lemma_sub_mod_noop(j as int, i as int, bs as int);
                lemma_small_mod(0, bs as nat);
                assert(chunk@.len() % (c.spec_block_size() as nat) == 0);
            }
            backend.proc_par_blocks(&mut chunk);
            proof {
                lemma_ecb_encrypt_len(c, orig.subrange(i as int, j as int));
            }
            let ghost before: Seq<u8> = msg@;
            write_range(msg, i, &chunk);
            proof {
                let sub = orig.subrange(i as int, j as int);
                assert(before.subrange(0, i as int) =~= ecb_encrypt(c, orig.take(i as int)));
                assert(before.subrange(j as int, n as int) =~= orig.skip(j as int));
                lemma_ecb_append(c, orig.take(i as int), sub);
                assert(orig.take(i as int) + sub =~= orig.take(j as int));
                assert(msg@ =~= ecb_encrypt(c, orig.take(j as int)) + orig.skip(j as int));
            }
            i = j;
        }
        proof {
            assert(orig.take(n as int) =~= orig);
            assert(orig.skip(n as int) =~= Seq::<u8>::empty());
            assert(ecb_encrypt(c, orig.take(n as int)) + orig.skip(n as int) =~= ecb_encrypt(
                c, orig));
        }
    }
}

impl<C: BlockCipher> Decryptor<C> {
    /// The wrapped cipher.
    pub closed spec fn spec_cipher(&self) -> C {
        self.cipher
    }

    /// Take ownership of an initialized cipher.  Construction transforms,
    /// inspects and logs nothing: the result merely holds the cipher, and
    /// only a later call to a decrypt operation produces output.
    pub fn new(cipher: C) -> (r: Self)
        ensures
            r.spec_cipher() == cipher,
    {
        Decryptor { cipher }
    }

    /// Decrypt a block-aligned message in place, each block independently.
    pub fn decrypt(&self, msg: &mut Vec<u8>)
        requires
            old(msg)@.len() % (self.spec_cipher().spec_block_size() as nat) == 0,
        ensures
            final(msg)@ == ecb_decrypt(self.spec_cipher(), old(msg)@),
    {
        let backend = DecBackend::new(&self.cipher);
        backend.proc_par_blocks(msg);
    }

    /// Decrypt a block-aligned message in place, handing the backend batches
    /// of up to `width` blocks at a time.  The grouping is invisible in the
    /// result: the postcondition is the very one of [`Decryptor::decrypt`],
    /// whatever the width.
    #[verifier::loop_isolation(false)]
    pub fn decrypt_batched(&self, msg: &mut Vec<u8>, width: usize)
        requires
            width >= 1,
            old(msg)@.len() % (self.spec_cipher().spec_block_size() as nat) == 0,
        ensures
            final(msg)@ == ecb_decrypt(self.spec_cipher(), old(msg)@),
    {
        let ghost c: C = self.spec_cipher();
        proof {
            c.block_size_pos();
        }
        let bs = self.cipher.block_size();
        let n = msg.len();
        let ghost orig: Seq<u8> = msg@;
        let backend = DecBackend::new(&self.cipher);
        proof {
            assert(ecb_decrypt(c, orig.take(0)) + orig.skip(0) =~= orig);
        }
        let mut i: usize = 0;
        while i < n
            invariant
                i <= n,
                (i as int) % (bs as int) == 0,
                msg@.len() == n,
                msg@ == ecb_decrypt(c, orig.take(i as int)) + orig.skip(i as int),
            decreases n - i,
        {
            proof {
                lemma_ecb_decrypt_len(c, orig.take(i as int));
            }
            let mut chunk: Vec<u8> = Vec::new();
            let mut j: usize = i;
            let mut k: usize = 0;
            while k < width && j < n
                invariant
                    i <= j <= n,
                    k <= width,
                    (j as int) % (bs as int) == 0,
                    j == i <==> k == 0,
                    chunk@ == orig.subrange(i as int, j as int),
                decreases width - k,
            {
                proof {
                    lemma_sub_mod_noop(n as int, j as int, bs as int);
                    lemma_small_mod(0, bs as nat);
                    if n - j < bs {
                        lemma_small_mod((n - j) as nat, bs as nat);
                        assert(false);
                    }
                    assert(msg@.subrange(j as int, j as int + bs as int) =~= orig.subrange(
                        j as int, j as int + bs as int));
                }
                let mut b = copy_range(msg, j, bs);
                chunk.append(&mut b);
                proof {
                    assert(chunk@ =~= orig.subrange(i as int, (j + bs) as int));
                    lemma_mod_add_multiples_vanish(j as int, bs as int);
                }
                k += 1;
                j += bs;
            }
            proof {
                if j == i {
                    assert(k == 0);
                    assert(false);
                }
                lemma_sub_mod_noop(j as int, i as int, bs as int);
                lemma_small_mod(0, bs as nat);
                assert(chunk@.len() % (c.spec_block_size() as nat) == 0);
            }
            backend.proc_par_blocks(&mut chunk);
            proof {
                lemma_ecb_decrypt_len(c, orig.subrange(i as int, j as int));
            }
            let ghost before: Seq<u8> = msg@;
            write_range(msg, i, &chunk);
            proof {
                let sub = orig.subrange(i as int, j as int);
                assert(before.subrange(0, i as int) =~= ecb_decrypt(c, orig.take(i as int)));
                assert(before.subrange(j as int, n as int) =~= orig.skip(j as int));
                lemma_ecb_decrypt_append(c, orig.take(i as int), sub);
                assert(orig.take(i as int) + sub =~= orig.take(j as int));
                assert(msg@ =~= ecb_decrypt(c, orig.take(j as int)) + orig.skip(j as int));
            }
            i = j;
        }
        proof {
            assert(orig.take(n as int) =~= orig);
            assert(orig.skip(n as int) =~= Seq::<u8>::empty());
            assert(ecb_decrypt(c, orig.take(n as int)) + orig.skip(n as int) =~= ecb_decrypt(
                c, orig));
        }
    }
}

impl<C: NamedCipher> Encryptor<C> {
    /// The composed algorithm identifier: `ecb::Encryptor<` around the
    /// cipher's own name.  It never includes key bytes or block contents.
    pub fn alg_name(&self) -> (r: String)
        ensures
            r@ == "ecb::Encryptor<"@ + self.spec_cipher().spec_name() + ">"@,
    {
        let mut s = String::from_str("ecb::Encryptor<");
        let inner = self.cipher.name();
        s.append(inner.as_str());
        s.append(">");
        s
    }

    /// A debug rendering: the algorithm identifier with an opaque body
    /// marker; key material never appears.
    pub fn debug_string(&self) -> (r: String)
        ensures
            r@ == "ecb::Encryptor<"@ + self.spec_cipher().spec_name() + ">"@ + " { ... }"@,
    {
        let mut s = self.alg_name();
        s.append(" { ... }");
        s
    }
}

impl<C: NamedCipher> Decryptor<C> {
    /// The composed algorithm identifier: `ecb::Decryptor<` around the
    /// cipher's own name.  It never includes key bytes or block contents.
    pub fn alg_name(&self) -> (r: String)
        ensures
            r@ == "ecb::Decryptor<"@ + self.spec_cipher().spec_name() + ">"@,
    {
        let mut s = String::from_str("ecb::Decryptor<");
        let inner = self.cipher.name();
        s.append(inner.as_str());
        s.append(">");
        s
    }

    /// A debug rendering: the algorithm identifier with an opaque body
    /// marker; key material never appears.
    pub fn debug_string(&self) -> (r: String)
        ensures
            r@ == "ecb::Decryptor<"@ + self.spec_cipher().spec_name() + ">"@ + " { ... }"@,
    {
        let mut s = self.alg_name();
        s.append(" { ... }");
        s
    }
}

} // verus!
