// A binary codec and message-construction layer for a smart-contract
// ledger's call ABI: typed argument values and their bit-exact encoding,
// contract descriptors with signature-derived selectors, decoding of raw
// transaction bodies back to typed invocations and events, and assembly of
// unsigned external messages with protocol expiration headers.

pub mod abi;
pub mod address;
pub mod bits;
pub mod body;
pub mod codec;
pub mod crypto;
pub mod error;
pub mod interp;
pub mod message;
pub mod value;
