//! Archived hash maps: tables that are planned once, written once and then
//! queried in place.
//!
//! A map is made in two steps. `map::ArchivedHashMap::serialize_from_iter`
//! serializes every key and value and plans where each entry goes;
//! `map::ArchivedHashMap::resolve_from_len` writes the table for the
//! position at which it will lie. The table can then be looked up, walked
//! and written to value by value, as it is or, once `write_to` has put it
//! down, in its bytes through `access::RawTable` and `access::write_value`.
//!
//! - `capacity`: how many slots a table gets.
//! - `probe`: which buckets a hash visits, and what a search finds.
//! - `plan`: which bucket each item gets.
//! - `table`: the table of items; `map`: the map of keys and values.
//! - `layout`: the bytes of a table; `access`: a table in its bytes.
//! - `ser`, `de`, `string`, `hash`: what keys and values bring along.
//! - `arena`, `util`: scratch memory and its cache.
//! - `attributes`: the rules of the `archive` attribute.
//! - `laws`: what holds of every table.

pub mod access;
pub mod arena;
pub mod attributes;
pub mod capacity;
pub mod de;
pub mod hash;
pub mod laws;
pub mod layout;
pub mod map;
pub mod plan;
pub mod probe;
pub mod ser;
pub mod string;
pub mod table;
pub mod util;
