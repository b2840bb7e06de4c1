//! End-to-end tests of the ECB mode layer over the concrete cipher.

use ecb::BlockCipher;
use ecb::DecBackend;
use ecb::Decryptor;
use ecb::EncBackend;
use ecb::Encryptor;
use ecb::ReverseXorCipher;

fn cipher(key: &[u8]) -> ReverseXorCipher {
    ReverseXorCipher::new(key.to_vec()).expect("non-empty key")
}

#[test]
fn empty_key_is_refused() {
    assert!(ReverseXorCipher::new(Vec::new()).is_none());
    assert!(ReverseXorCipher::new(vec![7u8]).is_some());
}

#[test]
fn single_block_exact_value() {
    // key [1, 2]: encrypting [10, 20] reverses to [20, 10] and masks to
    // [20 ^ 1, 10 ^ 2].
    let enc = Encryptor::new(cipher(&[1u8, 2]));
    let mut msg = vec![10u8, 20];
    enc.encrypt(&mut msg);
    assert_eq!(msg, vec![20u8 ^ 1, 10u8 ^ 2]);
}

#[test]
fn single_block_decrypt_exact_value() {
    let dec = Decryptor::new(cipher(&[1u8, 2]));
    let mut msg = vec![20u8 ^ 1, 10u8 ^ 2];
    dec.decrypt(&mut msg);
    assert_eq!(msg, vec![10u8, 20]);
}

#[test]
fn round_trip_multi_block() {
    let key = [3u8, 1, 4, 1, 5, 9, 2, 6];
    let plain: Vec<u8> = (0u8..40).collect();
    let mut msg = plain.clone();
    Encryptor::new(cipher(&key)).encrypt(&mut msg);
    assert_ne!(msg, plain);
    Decryptor::new(cipher(&key)).decrypt(&mut msg);
    assert_eq!(msg, plain);
}

#[test]
fn empty_message_stays_empty() {
    let enc = Encryptor::new(cipher(&[9u8, 8, 7]));
    let mut msg: Vec<u8> = Vec::new();
    enc.encrypt(&mut msg);
    assert!(msg.is_empty());
    let dec = Decryptor::new(cipher(&[9u8, 8, 7]));
    dec.decrypt(&mut msg);
    assert!(msg.is_empty());
}

#[test]
fn identical_blocks_give_identical_ciphertext() {
    // ECB's defining property: B ‖ B encrypts to C ‖ C.
    let enc = Encryptor::new(cipher(&[11u8, 22, 33, 44]));
    let block = [5u8, 6, 7, 8];
    let mut msg = Vec::new();
    msg.extend_from_slice(&block);
    msg.extend_from_slice(&block);
    enc.encrypt(&mut msg);
    assert_eq!(msg[..4], msg[4..]);
}

#[test]
fn blocks_are_independent() {
    // Encrypting a three-block message equals encrypting each block on its
    // own and concatenating.
    let key = [2u8, 4, 6];
    let plain = [1u8, 2, 3, 4, 5, 6, 7, 8, 9];
    let enc = Encryptor::new(cipher(&key));
    let mut whole = plain.to_vec();
    enc.encrypt(&mut whole);
    let mut pieces = Vec::new();
    for b in plain.chunks(3) {
        let mut one = b.to_vec();
        enc.encrypt(&mut one);
        pieces.extend_from_slice(&one);
    }
    assert_eq!(whole, pieces);
}

#[test]
fn repeated_calls_are_deterministic() {
    // No chaining: the mode object carries no state from call to call.
    let enc = Encryptor::new(cipher(&[1u8, 2, 3, 4]));
    let plain = [9u8; 12];
    let mut first = plain.to_vec();
    enc.encrypt(&mut first);
    let mut second = plain.to_vec();
    enc.encrypt(&mut second);
    assert_eq!(first, second);
}

#[test]
fn construction_transforms_nothing() {
    // Building mode objects produces no output; a fresh pair behaves exactly
    // like one that was merely constructed earlier and never used.
    let plain = [42u8; 8];
    let _idle_enc = Encryptor::new(cipher(&[5u8, 6, 7, 8]));
    let _idle_dec = Decryptor::new(cipher(&[5u8, 6, 7, 8]));
    let mut msg = plain.to_vec();
    assert_eq!(msg, plain.to_vec());
    Encryptor::new(cipher(&[5u8, 6, 7, 8])).encrypt(&mut msg);
    let mut again = plain.to_vec();
    Encryptor::new(cipher(&[5u8, 6, 7, 8])).encrypt(&mut again);
    assert_eq!(msg, again);
}

#[test]
fn batch_width_does_not_change_ciphertext() {
    let key = [13u8, 17, 19, 23];
    let plain: Vec<u8> = (0u8..48).map(|b| b.wrapping_mul(37)).collect();
    let enc = Encryptor::new(cipher(&key));
    let mut sequential = plain.clone();
    enc.encrypt(&mut sequential);
    for width in [1usize, 2, 4, 5, 100] {
        let mut batched = plain.clone();
        enc.encrypt_batched(&mut batched, width);
        assert_eq!(batched, sequential, "width {width}");
    }
}

#[test]
fn batch_width_does_not_change_plaintext() {
    let key = [101u8, 103, 107];
    let mut msg: Vec<u8> = (0u8..30).collect();
    Encryptor::new(cipher(&key)).encrypt(&mut msg);
    let dec = Decryptor::new(cipher(&key));
    let mut sequential = msg.clone();
    dec.decrypt(&mut sequential);
    for width in [1usize, 4] {
        let mut batched = msg.clone();
        dec.decrypt_batched(&mut batched, width);
        assert_eq!(batched, sequential, "width {width}");
    }
}

#[test]
fn zero_key_scenario() {
    // 128-bit block, key of 16 zero bytes, 32 bytes of 0x11: the two
    // ciphertext blocks are bit-for-bit identical, and decrypting restores
    // the plaintext.
    let key = [0u8; 16];
    let plain = [0x11u8; 32];
    let mut msg = plain.to_vec();
    Encryptor::new(cipher(&key)).encrypt(&mut msg);
    assert_eq!(msg[..16], msg[16..]);
    Decryptor::new(cipher(&key)).decrypt(&mut msg);
    assert_eq!(msg, plain.to_vec());
}

#[test]
fn names_compose_and_hide_keys() {
    let enc = Encryptor::new(cipher(&[255u8; 4]));
    let dec = Decryptor::new(cipher(&[255u8; 4]));
    assert_eq!(enc.alg_name(), "ecb::Encryptor<ReverseXor>");
    assert_eq!(dec.alg_name(), "ecb::Decryptor<ReverseXor>");
    assert_eq!(enc.debug_string(), "ecb::Encryptor<ReverseXor> { ... }");
    assert_eq!(dec.debug_string(), "ecb::Decryptor<ReverseXor> { ... }");
}

#[test]
fn backends_forward_unchanged() {
    // The forwarding backends relay each request straight to the cipher:
    // one block through the backend equals one block through the cipher,
    // and a batch equals the blocks done one at a time.
    let c = cipher(&[1u8, 2, 3, 4]);
    let enc_backend = EncBackend::new(&c);
    let mut through_backend = vec![9u8, 8, 7, 6];
    enc_backend.proc_block(&mut through_backend);
    let mut through_cipher = vec![9u8, 8, 7, 6];
    c.encrypt_block(&mut through_cipher);
    assert_eq!(through_backend, through_cipher);

    let mut batch = vec![9u8, 8, 7, 6, 5, 4, 3, 2];
    enc_backend.proc_par_blocks(&mut batch);
    assert_eq!(batch[..4], through_cipher[..]);

    let dec_backend = DecBackend::new(&c);
    dec_backend.proc_par_blocks(&mut batch);
    assert_eq!(batch, vec![9u8, 8, 7, 6, 5, 4, 3, 2]);
}

#[test]
fn encryption_is_not_identity_for_this_cipher() {
    // Guards against a mode layer that forwards nothing: with a non-uniform
    // key the sample cipher must change the bytes.
    let enc = Encryptor::new(cipher(&[1u8, 2, 3, 4]));
    let plain = [0u8; 4];
    let mut msg = plain.to_vec();
    enc.encrypt(&mut msg);
    assert_ne!(msg, plain.to_vec());
    assert_eq!(msg, vec![1u8, 2, 3, 4]);
}
