//! A small authoritative DNS model: canonical domain names, synthesized
//! SOA and A record sets, and a catalog that routes each query to the
//! authority with the longest matching domain suffix, falling back to a
//! forwarding authority at the root.

pub mod catalog;
pub mod laws;
pub mod name;
pub mod record;
pub mod zone;

pub use name::DNSName;
pub use name::NameFormatError;
