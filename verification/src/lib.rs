//! A verified codec for the DNS wire format: encoding a query message and
//! decoding an arbitrary, possibly adversarial, response buffer, including
//! the name-compression scheme, section-count bookkeeping, and bounds-safe
//! record parsing.

pub mod types;
pub mod name;
pub mod header;
pub mod records;
pub mod message;
