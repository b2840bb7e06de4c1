//! A small concrete block cipher, enough to drive the mode layer end to end:
//! it reverses the block and masks each byte with the key.  The key's length
//! sets the block width.  This is a toy permutation, not a secure cipher;
//! the mode layer is indifferent to the distinction, and every property it
//! needs of a cipher is proved here rather than assumed.

use vstd::prelude::*;

use vstd::string::StringExecFns;

use crate::block_cipher::BlockCipher;
use crate::block_cipher::NamedCipher;

verus! {

/// Forward transform: byte `i` of the output is byte `bs - 1 - i` of the
/// input, masked with byte `i` of the key.  Its inverse reads the mask at
/// the mirrored position.
pub struct ReverseXorCipher {
    key: Vec<u8>,
}

impl ReverseXorCipher {
    #[verifier::type_invariant]
    spec fn wf(self) -> bool {
        self.key@.len() >= 1
    }

    /// The key bytes.
    pub closed spec fn spec_key(&self) -> Seq<u8> {
        self.key@
    }

    /// Build a cipher over `key`; the key's length becomes the block width,
    /// so an empty key is refused.
    pub fn new(key: Vec<u8>) -> (r: Option<Self>)
        ensures
            key@.len() >= 1 <==> r is Some,
            (r matches Some(c) ==> c.spec_key() == key@ && c.spec_block_size() == key@.len()),
    {
        if key.len() >= 1 {
            Some(ReverseXorCipher { key })
        } else {
            None
        }
    }

    /// What the forward transform computes, byte for byte, in terms of the
    /// key bytes: reversal, then the mask.
    pub proof fn lemma_enc_bytes(&self, block: Seq<u8>)
        ensures
            self.enc(block) == Seq::new(
                block.len(),
                |i: int| block[block.len() - 1 - i] ^ self.spec_key()[i],
            ),
    {
    }

    /// What the inverse transform computes, byte for byte, in terms of the
    /// key bytes: reversal, then the mask read at the mirrored position.
    pub proof fn lemma_dec_bytes(&self, block: Seq<u8>)
        ensures
            self.dec(block) == Seq::new(
                block.len(),
                |i: int| block[block.len() - 1 - i] ^ self.spec_key()[block.len() - 1 - i],
            ),
    {
    }
}

impl BlockCipher for ReverseXorCipher {
    closed spec fn spec_block_size(&self) -> usize {
        if 1 <= self.key@.len() <= usize::MAX {
            self.key@.len() as usize
        } else {
            1
        }
    }

    closed spec fn enc(&self, block: Seq<u8>) -> Seq<u8> {
        Seq::new(block.len(), |i: int| block[block.len() - 1 - i] ^ self.key@[i])
    }

    closed spec fn dec(&self, block: Seq<u8>) -> Seq<u8> {
        Seq::new(
            block.len(),
            |i: int| block[block.len() - 1 - i] ^ self.key@[block.len() - 1 - i],
        )
    }

    proof fn block_size_pos(&self) {
    }

    proof fn enc_len(&self, block: Seq<u8>) {
    }

    proof fn dec_len(&self, block: Seq<u8>) {
    }

    proof fn dec_of_enc(&self, block: Seq<u8>) {
        let bs = block.len() as int;
        assert forall|i: int| 0 <= i < bs implies self.dec(self.enc(block))[i] == block[i] by {
            let x = block[i];
            let k = self.key@[bs - 1 - i];
            assert(self.enc(block)[bs - 1 - i] == (x ^ k));
            assert((x ^ k) ^ k == x) by (bit_vector);
        };
        assert(self.dec(self.enc(block)) =~= block);
    }

    fn block_size(&self) -> (n: usize) {
        proof {
            use_type_invariant(&*self);
        }
        self.key.len()
    }

    fn encrypt_block(&self, block: &mut Vec<u8>) {
        proof {
            use_type_invariant(&*self);
        }
        let ghost orig: Seq<u8> = block@;
        let bs = self.key.len();
        let mut out: Vec<u8> = Vec::new();
        let mut i: usize = 0;
        #[verifier::loop_isolation(false)]
        while i < bs
            invariant
                i <= bs,
                out@.len() == i,
                forall|t: int| 0 <= t < i ==> out@[t] == (orig[bs - 1 - t] ^ self.key@[t]),
            decreases bs - i,
        {
            let v = block[bs - 1 - i] ^ self.key[i];
            out.push(v);
            i += 1;
        }
        *block = out;
        proof {
            assert(block@ =~= self.enc(orig));
        }
    }

    fn decrypt_block(&self, block: &mut Vec<u8>) {
        proof {
            use_type_invariant(&*self);
        }
        let ghost orig: Seq<u8> = block@;
        let bs = self.key.len();
        let mut out: Vec<u8> = Vec::new();
        let mut i: usize = 0;
        #[verifier::loop_isolation(false)]
        while i < bs
            invariant
                i <= bs,
                out@.len() == i,
                forall|t: int|
                    0 <= t < i ==> out@[t] == (orig[bs - 1 - t] ^ self.key@[bs - 1 - t]),
            decreases bs - i,
        {
            let v = block[bs - 1 - i] ^ self.key[bs - 1 - i];
            out.push(v);
            i += 1;
        }
        *block = out;
        proof {
            assert(block@ =~= self.dec(orig));
        }
    }
}

impl NamedCipher for ReverseXorCipher {
    closed spec fn spec_name(&self) -> Seq<char> {
        "ReverseXor"@
    }

    fn name(&self) -> (r: String) {
        String::from_str("ReverseXor")
    }
}

} // verus!
