//! Navigation catalogue, coverage authority, native symbol authority and
//! historical projection snapshots of the Pinker toolchain, with their
//! contracts proved by Verus.
pub mod text;
pub mod palette;
pub mod native_symbol;
pub mod nav;
pub mod nav_mask;
pub mod nav_scan;
pub mod nav_catalog;
pub mod nav_catalog_read;
pub mod nav_catalog_law;
pub mod jsonl;
pub mod nav_coverage;
pub mod nav_projection_snapshot;
pub mod nav_projection_recipe;
pub mod nav_projection_store;
pub mod nav_projection_lifecycle;
pub mod nav_projection_report;
pub mod nav_projection_archive;
pub mod nav_projection_rename_map;
