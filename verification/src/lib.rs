//! Sandbox execution host for guest modules reached through a name-dispatch
//! protocol: a caller hands `(name, payload)` to a per-call execution context,
//! the payload is decoded as a JSON array of typed arguments, the matching
//! exported function runs, and the result comes back as an encoded singleton
//! JSON array.  Compound values cross the host/guest boundary through a linear
//! memory laid out by the marshaling convention in `abi`.

pub mod value;
pub mod json;
pub mod roundtrip;
pub mod guest;
pub mod abi;
pub mod host;
pub mod batch;
