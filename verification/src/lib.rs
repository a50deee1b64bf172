//! Verified building blocks of a query engine.

pub mod aggregate_laws;
pub mod aggregate_meta;
pub mod bloom;
pub mod bloom_answers;
pub mod bloom_calls;
pub mod bloom_laws;
pub mod expression;
pub mod partition_calls;
pub mod partition_laws;
pub mod partition_model;
pub mod partition_order;
pub mod partition_parts;
pub mod partition_ports;
pub mod partition_protocol;
pub mod partition_steps;
pub mod transform_partition_bucket;
