//! Entropy conditioning, experiment bookkeeping and byte-level analysis
//! primitives, with their contracts proved by Verus.

pub mod conditioning;
pub mod counting;
pub mod consciousness_ordinal;
pub mod text;
pub mod calendar;
pub mod session;
pub mod consciousness_env;
pub mod consciousness_prereg;
pub mod consciousness;
pub mod consciousness_anomaly;
pub mod consciousness_ml;
pub mod consciousness_rqa;
pub mod consciousness_surrogate;
pub mod consciousness_stats;
pub mod consciousness_retrocausal;
pub mod consciousness_topology;
pub mod consciousness_dat;
pub mod source;
pub mod metrics;
pub mod pool;
