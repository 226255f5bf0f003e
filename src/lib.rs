//! Ingestion side of a bridge relayer: scanning a chain's logs, deciding what
//! each record means, attaching a proof to deposits and framing the claim payload.
pub mod decoder;
pub mod driver;
pub mod log_source;
pub mod resolver;
pub mod wire;
