//! Admission and eviction policy of an in-memory cache: a TinyLFU admission
//! filter (doorkeeper plus 4-bit count-min sketch) and a sampled-LFU victim
//! selector over a cost-bounded key set.
pub mod sketch;
pub mod bloom;
pub mod tinylfu;
pub mod sampled;
pub mod policy;
