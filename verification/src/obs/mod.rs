//! Observability: metrics and how they are exported, log lines, and the audit
//! chain.

pub mod audit;
pub mod json;
pub mod metrics;
pub mod otlp;
