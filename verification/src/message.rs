use vstd::prelude::*;
use crate::abi::Function;
use crate::body::{enc_input, encode_input, header_view, Body, HeaderV};
use crate::codec::refs_view;
use crate::error::AbiError;
use crate::value::{conforms, views_of, TokenValue};

verus! {

// The message builder: computes the protocol expiration from a caller
// timeout, fills the standard headers with no signature attached, and
// assembles the unsigned external inbound message.

/// A standard address: workchain and 256-bit account id.
#[derive(Debug)]
pub struct MsgAddress {
    pub wc: i8,
    pub id: Vec<u8>,
}

/// A contract's pre-deployment image: its code and data cells.
#[derive(Debug)]
pub struct StateInit {
    pub code: Option<Vec<u8>>,
    pub data: Option<Vec<u8>>,
}

/// A ready-to-sign external inbound message: destination, optional initial
/// state, encoded body and the computed expiration. Never mutated after
/// construction.
#[derive(Debug)]
pub struct UnsignedMessage {
    pub dst: MsgAddress,
    pub state_init: Option<StateInit>,
    pub body: Body,
    pub expire_at: u32,
}

/// The protocol expiration: the clock reading plus the timeout, both in
/// milliseconds, truncated to unix seconds.
pub open spec fn expire_of(time: nat, timeout: nat) -> nat {
    (time + timeout) / 1000
}

/// Computes the expiration timestamp of a message built at `time` with the
/// given timeout.
pub fn compute_expire_at(time: u64, timeout: u32) -> (r: u32)
    requires
        expire_of(time as nat, timeout as nat) < 0x100000000,
    ensures
        r as nat == expire_of(time as nat, timeout as nat),
{
    ((time + timeout as u64) / 1000) as u32
}

/// The headers an unsigned message carries: no public key, the build time,
/// and the expiration computed from it.
pub open spec fn unsigned_headers(time: nat, timeout: nat) -> HeaderV {
    Option::Some((Option::<Seq<u8>>::None, time, expire_of(time, timeout)))
}

/// Builds the unsigned external message for a call to `f` at clock reading
/// `time`: header fields {pubkey: absent, time, expire}, an empty signature
/// slot, the selector and the encoded arguments.
pub fn build_unsigned_at(
    dst: MsgAddress,
    f: &Function,
    state_init: Option<StateInit>,
    args: &Vec<TokenValue>,
    timeout: u32,
    time: u64,
) -> (r: Result<UnsignedMessage, AbiError>)
    requires
        expire_of(time as nat, timeout as nat) < 0x100000000,
    ensures
        (match r {
            Ok(m) => {
                let e = enc_input(
                    f.input_id as nat,
                    unsigned_headers(time as nat, timeout as nat),
                    f.inputs@,
                    views_of(args@),
                );
                &&& m.expire_at as nat == expire_of(time as nat, timeout as nat)
                &&& m.body.bits@ == e.bits
                &&& refs_view(m.body.refs@) == e.refs
                &&& m.dst == dst
                &&& m.state_init == state_init
                &&& args@.len() == f.inputs@.len()
                &&& (forall|k: int|
                    0 <= k < f.inputs@.len() ==> conforms(
                        #[trigger] f.inputs@[k].ty,
                        views_of(args@)[k],
                    ))
            },
            Err(e) => {
                ||| (e == AbiError::ArgumentCountMismatch && args@.len() != f.inputs@.len())
                ||| (e == AbiError::TypeMismatch && args@.len() == f.inputs@.len() && !(
                forall|k: int|
                    0 <= k < f.inputs@.len() ==> conforms(
                        #[trigger] f.inputs@[k].ty,
                        views_of(args@)[k],
                    )))
            },
        }),
{
    let expire = compute_expire_at(time, timeout);
    let body = match encode_input(f, &Option::None, time, expire, args, false) {
        Ok(b) => b,
        Err(e) => {
            return Err(e);
        },
    };
    proof {
        assert(header_view(Option::<Vec<u8>>::None, time, expire) == (
            Option::<Seq<u8>>::None,
            time as nat,
            expire as nat,
        ));
    }
    Ok(UnsignedMessage { dst, state_init, body, expire_at: expire })
}

/// Whether `m` is the unsigned message for a call to `f` built at clock
/// reading `time`.
pub open spec fn valid_unsigned(
    f: Function,
    args: Seq<crate::value::TokenV>,
    timeout: nat,
    time: nat,
    m: UnsignedMessage,
) -> bool {
    let e = enc_input(f.input_id as nat, unsigned_headers(time, timeout), f.inputs@, args);
    &&& m.expire_at as nat == expire_of(time, timeout)
    &&& m.body.bits@ == e.bits
    &&& refs_view(m.body.refs@) == e.refs
}

/// Relies on chrono::Utc::now: a wall-clock reading in milliseconds.
/// Nothing is promised of the value.
#[verifier::external_body]
fn now_millis() -> u64 {
    let t = chrono::Utc::now().timestamp_millis();
    if t < 0 {
        0
    } else {
        t as u64
    }
}

/// Builds an unsigned external message at the present wall-clock reading:
/// headers {pubkey: absent, time: now, expire: now + timeout}, no
/// signature attached.
pub fn create_unsigned_message_without_signature(
    dst: MsgAddress,
    f: &Function,
    state_init: Option<StateInit>,
    args: &Vec<TokenValue>,
    timeout: u32,
) -> (r: Result<UnsignedMessage, AbiError>)
    ensures
        (match r {
            Ok(m) => {
                &&& (exists|time: nat| valid_unsigned(*f, views_of(args@), timeout as nat, time, m))
                &&& m.dst == dst
                &&& m.state_init == state_init
                &&& args@.len() == f.inputs@.len()
            },
            Err(e) => {
                ||| (e == AbiError::ArgumentCountMismatch && args@.len() != f.inputs@.len())
                ||| (e == AbiError::TypeMismatch && args@.len() == f.inputs@.len() && !(
                forall|k: int|
                    0 <= k < f.inputs@.len() ==> conforms(
                        #[trigger] f.inputs@[k].ty,
                        views_of(args@)[k],
                    )))
                ||| e == AbiError::InvalidEncoding
            },
        }),
{
    let time = now_millis();
    // a clock reading so late that the 32-bit expiration cannot hold it
    if time > u64::MAX - (timeout as u64) {
        return Err(AbiError::InvalidEncoding);
    }
    let sum = time + timeout as u64;
    if sum >= 4294967296000u64 {
        return Err(AbiError::InvalidEncoding);
    }
    assert(expire_of(time as nat, timeout as nat) < 0x100000000);
    let r = build_unsigned_at(dst, f, state_init, args, timeout, time);
    proof {
        match &r {
            Ok(m) => {
                assert(valid_unsigned(*f, views_of(args@), timeout as nat, time as nat, *m));
            },
            Err(_) => {},
        }
    }
    r
}

/// Wraps a base-64 code cell into an initial-state image with no data part.
pub fn code_to_tvc(code: &str) -> (r: Result<StateInit, AbiError>)
    ensures
        (match r {
            Ok(si) => {
                &&& (match si.code {
                    Option::Some(c) => crate::crypto::b64_bytes_of(code@) == Option::Some(c@),
                    Option::None => false,
                })
                &&& si.data is None
            },
            Err(e) => e == AbiError::InvalidStateInit && crate::crypto::b64_bytes_of(code@)
                is None,
        }),
{
    match crate::crypto::b64_decode(code) {
        Option::None => Err(AbiError::InvalidStateInit),
        Option::Some(bytes) => Ok(StateInit { code: Option::Some(bytes), data: Option::None }),
    }
}

/// Splits an initial-state image into its base-64 code and data parts.
pub fn split_tvc(tvc: &StateInit) -> (r: (Option<String>, Option<String>))
    ensures
        (match tvc.code {
            Option::Some(c) => r.0 is Some && r.0->Some_0@ == crate::crypto::b64_of(c@),
            Option::None => r.0 is None,
        }),
        (match tvc.data {
            Option::Some(d) => r.1 is Some && r.1->Some_0@ == crate::crypto::b64_of(d@),
            Option::None => r.1 is None,
        }),
{
    let code = match &tvc.code {
        Option::Some(c) => Option::Some(crate::crypto::b64_encode(c)),
        Option::None => Option::None,
    };
    let data = match &tvc.data {
        Option::Some(d) => Option::Some(crate::crypto::b64_encode(d)),
        Option::None => Option::None,
    };
    (code, data)
}

} // verus!
