//! Verified core logic of the Emacs Rust tools: the hexl converter, the
//! build fingerprint patcher, the game score updater, and the bookkeeping
//! behind the dynamic loader and SQLite bridges.

pub mod bytes;
pub mod hexl;
pub mod score_entry;
pub mod score_order;
pub mod score_value;
pub mod utf8;
pub mod score_file;
pub mod score_update;
pub mod game_score;
pub mod fingerprint;
pub mod fingerprint_source;
pub mod dynlib;
pub mod sqlite;
