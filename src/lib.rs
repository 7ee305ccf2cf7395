//! Package version lookup: registry response normalisation, identifier
//! validation and a total, deterministic newest-first version ordering.
pub mod version;
pub mod ordering;
pub mod ecosystem;
pub mod identifier;
pub mod registry;
pub mod response;
