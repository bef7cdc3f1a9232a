//! Verified extraction engine for a competitive-programming organization's
//! historical results: typed models of contests, training camps and
//! international medals, parsers for the organization's loosely structured
//! result pages, a fetch plan enumerator, and an identity consolidator that
//! groups records into per-person histories.

pub mod camp;
pub mod contest;
pub mod db;
pub mod dom;
pub mod fetch;
pub mod history;
pub mod query;
pub mod records;
pub mod text;
pub mod types;
