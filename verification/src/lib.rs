//! ECB (Electronic Codebook) block-cipher mode.
//!
//! The mode turns an underlying fixed-width block cipher into encrypt and
//! decrypt mode objects that process arbitrary block-aligned data by applying
//! the cipher independently to each block: no chaining, no initialization
//! vector, no state carried between blocks or between calls.  The identical
//! treatment of identical blocks is ECB's defining (and deliberately insecure)
//! property, and the law lemmas exported below state it rather than hide it.

mod backend;
mod block_cipher;
mod bytes;
mod laws;
mod model;
mod mode;
mod reverse_xor;

pub use backend::DecBackend;
pub use backend::EncBackend;
pub use block_cipher::BlockCipher;
pub use block_cipher::NamedCipher;
pub use laws::lemma_ecb_append;
pub use laws::lemma_ecb_block_at;
pub use laws::lemma_ecb_chunked_agrees;
pub use laws::lemma_ecb_decrypt_append;
pub use laws::lemma_ecb_decrypt_single_block;
pub use laws::lemma_ecb_identical_blocks;
pub use laws::lemma_ecb_round_trip;
pub use laws::lemma_ecb_single_block;
pub use model::ecb_decrypt;
pub use model::ecb_encrypt;
pub use model::ecb_encrypt_chunked;
pub use model::lemma_ecb_decrypt_len;
pub use model::lemma_ecb_encrypt_len;
pub use mode::Decryptor;
pub use mode::Encryptor;
pub use reverse_xor::ReverseXorCipher;
