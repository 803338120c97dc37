//! Core logic of a desktop activity tracker: the idle/attribution policy,
//! the concurrent aggregate store, the snapshot file codec, the historical
//! statistics, and the per-tick sampler decisions.

pub mod codec;
pub mod history;
pub mod naming;
pub mod policy;
pub mod sampler;
pub mod stats;
pub mod store;
