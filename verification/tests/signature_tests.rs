use abi_codec::crypto::verify_signature;
use abi_codec::error::AbiError;
use base64::Engine;
use ed25519_dalek::Signer;

fn keypair() -> (String, ed25519_dalek::SigningKey) {
    let seed: [u8; 32] = [7u8; 32];
    let sk = ed25519_dalek::SigningKey::from_bytes(&seed);
    let pk_hex = hex::encode(sk.verifying_key().to_bytes());
    (pk_hex, sk)
}

#[test]
fn accepts_valid_signature() {
    let (pk_hex, sk) = keypair();
    let hash = [0x42u8; 32];
    let sig = sk.sign(&hash);
    let hash_hex = hex::encode(hash);
    let sig_b64 = base64::engine::general_purpose::STANDARD.encode(sig.to_bytes());
    assert_eq!(verify_signature(&pk_hex, &hash_hex, &sig_b64), Ok(true));
    // the hash also passes in its base64 form
    let hash_b64 = base64::engine::general_purpose::STANDARD.encode(hash);
    assert_eq!(verify_signature(&pk_hex, &hash_b64, &sig_b64), Ok(true));
    // a hex signature is itself well-formed base64, so the base64 reading
    // wins and yields 96 bytes: a length error, as when hex came first
    let sig_hex = hex::encode(sig.to_bytes());
    assert_eq!(
        verify_signature(&pk_hex, &hash_hex, &sig_hex),
        Err(AbiError::InvalidLength)
    );
}

#[test]
fn rejects_flipped_byte_as_false_not_error() {
    let (pk_hex, sk) = keypair();
    let hash = [0x42u8; 32];
    let mut sig = sk.sign(&hash).to_bytes();
    sig[10] ^= 0xFF;
    let hash_hex = hex::encode(hash);
    let sig_b64 = base64::engine::general_purpose::STANDARD.encode(sig);
    assert_eq!(verify_signature(&pk_hex, &hash_hex, &sig_b64), Ok(false));
}

#[test]
fn rejects_wrong_lengths_and_encodings() {
    let (pk_hex, sk) = keypair();
    let hash = [0x42u8; 32];
    let sig = sk.sign(&hash).to_bytes();
    let hash_hex = hex::encode(hash);

    // a 63-byte signature is a length error, not a verification failure
    let short = base64::engine::general_purpose::STANDARD.encode(&sig[..63]);
    assert_eq!(
        verify_signature(&pk_hex, &hash_hex, &short),
        Err(AbiError::InvalidLength)
    );

    // a 31-byte hash likewise
    let short_hash = hex::encode(&hash[..31]);
    let sig_b64 = base64::engine::general_purpose::STANDARD.encode(sig);
    assert_eq!(
        verify_signature(&pk_hex, &short_hash, &sig_b64),
        Err(AbiError::InvalidLength)
    );

    // material in neither encoding is an encoding error
    assert_eq!(
        verify_signature(&pk_hex, "!!not-hex-or-b64!!", &sig_b64),
        Err(AbiError::InvalidEncoding)
    );
    assert_eq!(
        verify_signature("xyz", &hash_hex, &sig_b64),
        Err(AbiError::InvalidEncoding)
    );
}
