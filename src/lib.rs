//! A two-table store of the screen names that accounts have used: a primary
//! table from (account id, screen name) to the dates of observation, and a
//! secondary index from the lower-cased screen name to the ids that used it.
pub mod accounts;
pub mod auth;
pub mod codec;
pub mod database;
pub mod date;
pub mod dates;
pub mod error;
pub mod import;
pub mod inclusions;
pub mod laws;
pub mod merge;
pub mod order;
pub mod screen_names;
pub mod store;
pub mod table;
pub mod topk;
