//! Certified fixpoint kernels: grounded closure, exact arithmetic,
//! positive bag recursion, dense identities, structural lenses, and the
//! file formats and publication protocol of the durable store.

pub mod grounded;
pub mod exact;
pub mod decimal;
pub mod fixpoint;
pub mod digraph;
pub mod durability;
pub mod publication;
pub mod identity;
pub mod id_sets;
pub mod manifest;
pub mod generation_names;
pub mod retained;
pub mod reachability;
pub mod frames;
pub mod lens;
pub mod migration;
pub mod streaming;
