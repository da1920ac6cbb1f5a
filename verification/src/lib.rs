//! A DAO membership registry: an insertion-ordered mapping from participant
//! identities to arbitrary-precision voting weights, with mutation restricted
//! to a designated owner and reads open to anyone.

pub mod laws;
pub mod model;
pub mod registry;

pub use registry::MembershipRegistry;
pub use registry::Plug;
