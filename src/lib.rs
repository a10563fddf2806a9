//! Personal finance records: activities against monetary media, free-form
//! tags, saved date/tag filters, and the relational store that holds them.
pub mod models;
pub mod predicate;
pub mod error;
mod ids;
pub mod store;
pub mod laws;
