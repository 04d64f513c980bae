//! A package manager engine for shell extension bundles: plugin identity,
//! reconciliation of desired against installed plugins, install and removal
//! bookkeeping, and the canonical form of the persisted lock state.

pub mod error;
pub mod fin;
pub mod laws;
pub mod lock;
pub mod plugin;
pub mod sorted;
pub mod text;

