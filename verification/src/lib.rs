//! A binary codec for the Ethereum contract ABI: Solidity type descriptors,
//! the token tree between native values and wire bytes, the standard
//! head/tail word codec with a validating decoder, the non-standard packed
//! encoding, and the EIP-712 data-word hasher.
use vstd::prelude::*;

pub mod api;
pub mod decode;
pub mod eip712;
pub mod encode;
pub mod errors;
pub mod laws;
pub mod packed;
pub mod token;
pub mod token_ops;
pub mod ty;
pub mod words;

verus! {

} // verus!
