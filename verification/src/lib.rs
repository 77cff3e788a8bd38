//! Evaluating leaderboards: every entry of a leaderboard earns its player
//! an award that falls with the entry's rank, and the awards add up to the
//! standing of the players and, through the players, of the levels.
//!
//! * `evaluation` turns a rank into an award; `natural` holds the
//!   arithmetic that it needs.
//! * `store` keeps players, levels and entries with their aggregates;
//!   `ledger` says what a store holds, and `table` how a keyed table
//!   behaves.
//! * `ingest` takes a leaderboard into the store; `versus` pairs its
//!   players.
//! * `workshop`, `html` and `json` describe the requests to the sources
//!   and read their answers; `text` builds the names and numbers in them.
//! * `run` orders a whole run, and `schema` names the tables in which a
//!   store is kept on disk.
//!
//! Nothing here reads or writes anything: the caller sends the requests
//! that the library describes, and hands back the answers.
pub mod evaluation;
pub mod html;
pub mod ingest;
pub mod json;
pub mod ledger;
pub mod natural;
pub mod run;
pub mod schema;
pub mod store;
pub mod table;
pub mod text;
pub mod versus;
pub mod workshop;
