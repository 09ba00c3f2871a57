//! A small in-memory relational engine: typed column stores, tables with
//! insert/scan/filter/project/join/update/delete, a recursive condition
//! evaluator, a database registry, and a verified snapshot codec.

pub mod base;
pub mod codec;
pub mod db;
pub mod decimal;
pub mod errors;
pub mod num;
pub mod query;
pub mod system;
pub mod table;
pub mod text;
