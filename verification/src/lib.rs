//! The verified core of the xyzdb query engine.

pub mod aggregate;
pub mod aggregate_state;
pub mod ast;
pub mod byte_set;
pub mod bytes;
pub mod canon;
pub mod delete;
pub mod error;
pub mod fetch;
pub mod filter;
pub mod find;
pub mod float;
pub mod follow;
pub mod ghost_build;
pub mod ghost_keys;
pub mod ghost_meta;
pub mod ghost_notify;
pub mod ghost_ops;
pub mod ghost_persist;
pub mod ghost_pool;
pub mod ghost_read;
pub mod ghost_reap;
pub mod ghost_router;
pub mod ghost_spill;
pub mod ghost_store;
pub mod gravity_spec;
pub mod group_aggregate;
pub mod keyspaces;
pub mod layout;
pub mod link;
pub mod metric_order;
pub mod nearest;
pub mod placement;
pub mod planner;
pub mod pull;
pub mod put;
pub mod record;
pub mod record_cache;
pub mod reserved_keys;
pub mod rollup_merge;
pub mod satellite_spec;
pub mod scan;
pub mod scan_collect;
pub mod scan_telemetry;
pub mod selection;
pub mod set;
pub mod sort;
pub mod sorted_map;
pub mod text;
pub mod top_k;
pub mod value;
pub mod wire;
pub mod write_ops;
