//! A verified proof-of-existence claim registry.
//!
//! An identified actor may register a claim over an opaque byte string,
//! transfer ownership of that claim, or revoke it. The registry guarantees
//! that a claim is bound to at most one owner at a time and that only the
//! current owner may revoke or transfer it. Every rejected operation leaves
//! the registry exactly as it was.

pub mod model;
pub mod registry;
