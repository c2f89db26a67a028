//! Verified core of a chunk-metadata service.
pub mod ad_hoc;
pub mod allocator;
pub mod arith;
pub mod chunkdb_config;
pub mod conversion;
pub mod finalize;
pub mod lifecycle;
pub mod metrics;
pub mod order;
pub mod placement_rebalance;
pub mod placement_repair;
pub mod range_guard;
pub mod relocation;
pub mod repair;
pub mod routing;
pub mod selector;
pub mod service;
pub mod storage;
pub mod table;
pub mod task;
pub mod text;
pub mod topology;
pub mod types;
