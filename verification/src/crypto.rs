use vstd::prelude::*;
use crate::error::AbiError;

verus! {

// The signature verification adapter: key and hash material arrives as
// text, in hex or base-64; only malformed input is an error — a signature
// that does not verify is an ordinary `false`.

/// What hex decoding yields on a string: the bytes, or nothing when the
/// string is not well-formed hex. Relies on hex::decode being a function of
/// the input alone.
pub uninterp spec fn hex_bytes_of(s: Seq<char>) -> Option<Seq<u8>>;

/// What base-64 decoding yields on a string, standard alphabet with
/// padding. Relies on base64's standard engine being a function of the
/// input alone.
pub uninterp spec fn b64_bytes_of(s: Seq<char>) -> Option<Seq<u8>>;

/// The base-64 rendering of a byte string, standard alphabet with padding.
pub uninterp spec fn b64_of(b: Seq<u8>) -> Seq<char>;

/// The ed25519 verdict on (key, message, signature) bytes: absent when the
/// key bytes name no valid point, else whether the signature verifies.
/// A function of the three byte strings alone.
pub uninterp spec fn ed25519_check_of(pk: Seq<u8>, msg: Seq<u8>, sig: Seq<u8>) -> Option<bool>;

/// Relies on hex::decode: the result is a function of the input alone.
#[verifier::external_body]
pub fn hex_decode(s: &str) -> (r: Option<Vec<u8>>)
    ensures
        (match r {
            Option::Some(v) => hex_bytes_of(s@) == Option::Some(v@),
            Option::None => hex_bytes_of(s@) is None,
        }),
{
    match hex::decode(s) {
        Ok(v) => Option::Some(v),
        Err(_) => Option::None,
    }
}

/// Relies on base64's STANDARD engine decode: the result is a function of
/// the input alone.
#[verifier::external_body]
pub fn b64_decode(s: &str) -> (r: Option<Vec<u8>>)
    ensures
        (match r {
            Option::Some(v) => b64_bytes_of(s@) == Option::Some(v@),
            Option::None => b64_bytes_of(s@) is None,
        }),
{
    match base64::Engine::decode(&base64::engine::general_purpose::STANDARD, s) {
        Ok(v) => Option::Some(v),
        Err(_) => Option::None,
    }
}

/// Relies on base64's STANDARD engine encode, and on its documented promise
/// that decode inverts encode.
#[verifier::external_body]
pub fn b64_encode(b: &Vec<u8>) -> (r: String)
    ensures
        r@ == b64_of(b@),
        b64_bytes_of(r@) == Option::Some(b@),
{
    base64::Engine::encode(&base64::engine::general_purpose::STANDARD, b.as_slice())
}

/// Relies on ed25519_dalek::VerifyingKey::from_bytes and Verifier::verify:
/// the verdict is a function of the key, message and signature bytes alone.
#[verifier::external_body]
fn ed25519_check(pk: &Vec<u8>, msg: &Vec<u8>, sig: &Vec<u8>) -> (r: Option<bool>)
    requires
        pk@.len() == 32,
        sig@.len() == 64,
    ensures
        r == ed25519_check_of(pk@, msg@, sig@),
{
    let pk_arr: [u8; 32] = pk.as_slice().try_into().ok()?;
    let key = ed25519_dalek::VerifyingKey::from_bytes(&pk_arr).ok()?;
    let signature = ed25519_dalek::Signature::from_slice(sig.as_slice()).ok()?;
    Option::Some(ed25519_dalek::Verifier::verify(&key, msg.as_slice(), &signature).is_ok())
}

/// What signature verification returns for the given key, hash and
/// signature text: each piece is decoded (the hash tries hex first, the
/// signature tries base64 first), the hash must give 32 bytes and the
/// signature 64, and the ed25519 verdict settles the rest.
pub open spec fn verify_sig_spec(pk: Seq<char>, hash: Seq<char>, sig: Seq<char>) -> Result<
    bool,
    AbiError,
> {
    match hex_bytes_of(pk) {
        Option::None => Err(AbiError::InvalidEncoding),
        Option::Some(pkb) => if pkb.len() != 32 {
            Err(AbiError::InvalidLength)
        } else {
            let hb = match hex_bytes_of(hash) {
                Option::Some(h) => Option::Some(h),
                Option::None => b64_bytes_of(hash),
            };
            match hb {
                Option::None => Err(AbiError::InvalidEncoding),
                Option::Some(h) => if h.len() != 32 {
                    Err(AbiError::InvalidLength)
                } else {
                    let sb = match b64_bytes_of(sig) {
                        Option::Some(s) => Option::Some(s),
                        Option::None => hex_bytes_of(sig),
                    };
                    match sb {
                        Option::None => Err(AbiError::InvalidEncoding),
                        Option::Some(s) => if s.len() != 64 {
                            Err(AbiError::InvalidLength)
                        } else {
                            match ed25519_check_of(pkb, h, s) {
                                Option::None => Err(AbiError::InvalidEncoding),
                                Option::Some(b) => Ok(b),
                            }
                        },
                    }
                },
            }
        },
    }
}

/// Verifies an ed25519 signature over a 32-byte hash. Failure to verify is
/// an ordinary `false`; only malformed key, hash or signature material is
/// an error.
pub fn verify_signature(public_key: &str, data_hash: &str, signature: &str) -> (r: Result<
    bool,
    AbiError,
>)
    ensures
        r == verify_sig_spec(public_key@, data_hash@, signature@),
{
    let pkb = match hex_decode(public_key) {
        Option::Some(v) => v,
        Option::None => {
            return Err(AbiError::InvalidEncoding);
        },
    };
    if pkb.len() != 32 {
        return Err(AbiError::InvalidLength);
    }
    let hb = match hex_decode(data_hash) {
        Option::Some(v) => v,
        Option::None => {
            match b64_decode(data_hash) {
                Option::Some(v) => v,
                Option::None => {
                    return Err(AbiError::InvalidEncoding);
                },
            }
        },
    };
    if hb.len() != 32 {
        return Err(AbiError::InvalidLength);
    }
    let sb = match b64_decode(signature) {
        Option::Some(v) => v,
        Option::None => {
            match hex_decode(signature) {
                Option::Some(v) => v,
                Option::None => {
                    return Err(AbiError::InvalidEncoding);
                },
            }
        },
    };
    if sb.len() != 64 {
        return Err(AbiError::InvalidLength);
    }
    match ed25519_check(&pkb, &hb, &sb) {
        Option::None => Err(AbiError::InvalidEncoding),
        Option::Some(b) => Ok(b),
    }
}

} // verus!
