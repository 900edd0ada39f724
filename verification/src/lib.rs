//! Compares several bills of materials, each given as a spreadsheet of rows,
//! and reports per-item, per-field differences keyed by the item identifier.

pub mod extract;
pub mod handler;
pub mod laws;
pub mod quantity;
pub mod record;
pub mod sorting;
pub mod strutil;
pub mod viewext;
