//! Content-addressed static asset registry.
//!
//! Each asset's public name embeds a short digest of its content, so a
//! client may cache the asset indefinitely: any change to the content
//! changes the name. The registry is an immutable, name-sorted table of
//! asset records with binary-search lookup.

pub mod digest;
pub mod order;
pub mod registry;
pub mod synth;
