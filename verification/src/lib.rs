//! Persistence and change-notification core of a small case-management
//! application.
//!
//! The library decides and computes; reading and writing files, and
//! running threads, is left to the program around it.
//!
//! - [`id_map`]: the generational arena that holds the records.
//! - [`time`], [`names`], [`backup`], [`retention`], [`codec`], [`lock`],
//!   [`database`]: the store of snapshots: how its files are named, in
//!   which order its snapshots are visited, which of them are given up,
//!   what their bytes hold, and what opening, creating and rolling back
//!   come to.
//! - [`chunked`]: the collection in a dynamic and an ancient part.
//! - [`observable`], [`hook`]: the registries of subscribers.
//! - [`date`], [`date_map`], [`expedient`], [`text`], [`filter`],
//!   [`listing`], [`hooks`], [`suggestions`], [`statistics`], [`restore`]:
//!   the records of the application and the queries on them.

pub mod backup;
pub mod chunked;
pub mod codec;
pub mod database;
pub mod date;
pub mod date_map;
pub mod error;
pub mod expedient;
pub mod filter;
pub mod hook;
pub mod hooks;
pub mod id_map;
pub mod listing;
pub mod lock;
pub mod names;
pub mod observable;
pub mod restore;
pub mod retention;
pub mod statistics;
pub mod suggestions;
pub mod text;
pub mod time;
