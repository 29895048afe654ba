//! Finds the numbers of a JSON document that look like Unix times, each with
//! the path that leads to it, and arranges them for a table.

pub mod app;
pub mod arrange;
pub mod comparison;
pub mod crawl_laws;
pub mod datetime;
pub mod decimal;
pub mod json_crawl;
pub mod json_value;
pub mod offset;
pub mod order;
pub mod path_laws;
pub mod path_order;
pub mod sorting;
