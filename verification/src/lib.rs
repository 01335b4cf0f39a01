//! Product-analytics core: event capture, the durable write-ahead log, identity
//! stitching, catalogs, flags and the rules around them.
use vstd::prelude::*;

pub mod application;
pub mod auth;
pub mod auth_effects;
pub mod cache;
pub mod capture;
pub mod catalog;
pub mod catalog_effects;
pub mod cohort;
pub mod cohort_effects;
pub mod control;
pub mod control_resources;
pub mod counters;
pub mod dashboard_effects;
pub mod dashboard_store;
pub mod demo;
pub mod demo_effects;
pub mod digest;
pub mod disk_effects;
pub mod enrichment;
pub mod event_lake;
pub mod file_index;
pub mod flag_effects;
pub mod flags;
pub mod flush;
pub mod identity;
pub mod identity_effects;
pub mod import_effects;
pub mod json;
pub mod legacy_discovery;
pub mod legacy_effects;
pub mod legacy_import;
pub mod legacy_rerun;
pub mod legacy_resources;
pub mod making_effects;
pub mod metrics;
pub mod middleware;
pub mod migration;
pub mod migration_effects;
pub mod order;
pub mod pipeline;
pub mod projection_catalog;
pub mod projection_effects;
pub mod projections;
pub mod property_index;
pub mod resource_effects;
pub mod rows;
pub mod service_effects;
pub mod store_effects;
pub mod table;
pub mod text;
pub mod text_effects;
pub mod text_map;

verus! {

} // verus!
