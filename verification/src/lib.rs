//! Renormalization-group tools for multi-scale analysis of agent behaviour.
//!
//! The library keeps the discrete structure of the renormalization group
//! verified: how tick data is cut into blocks, which samples a decimation
//! keeps, how the scale factors of successive coarse-grainings accumulate,
//! how observables are recorded per name across scales, how an RG flow
//! trajectory is built step by step and when it is declared divergent, and
//! how a fixed-point search is driven. The numeric work on samples (block
//! means, Haar coefficients, beta functions, Newton steps) is supplied by
//! the caller as closures over the sample type.

pub mod agent_scale;
pub mod error;
pub mod flow;
pub mod invariants;
pub mod observable;
pub mod scale;
pub mod text;

pub use agent_scale::AgentScaleMap;
pub use error::RgError;
pub use flow::RGFlow;
pub use invariants::{find_violations, ScaleInvariant};
pub use observable::{Observable, Relevance};
pub use scale::ScaleTransform;
