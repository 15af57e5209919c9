//! A tabletop-RPG spell aggregation library.
//!
//! Spell catalogs are fetched from several upstream sources, normalized into
//! one collection shape, merged into a per-tenant class-keyed index, and
//! served as fixed-size text pages behind a button-driven navigation session.

pub mod avrae;
pub mod cache;
pub mod data;
pub mod fiveetools;
pub mod index;
pub mod json;
pub mod jsontome;
pub mod merge;
pub mod outside;
pub mod query;
pub mod router;
pub mod schools;
pub mod session;
pub mod text;
