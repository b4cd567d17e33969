//! Partitioning of warehouse aisles into stow slots.
//!
//! Flat package-volume records are folded into a floor of clusters and
//! aisles, and the floor is cut into stow slots either against an hourly
//! throughput target or against a headcount target.

pub mod aisle;
pub mod builder;
pub mod cluster;
pub mod config;
pub mod error;
pub mod floor;
pub mod headcount;
pub mod hours;
pub mod plan;
pub mod proposal;
pub mod slot;
pub mod throughput;
pub mod zone;
