//! A small key-value database: a line protocol (`command`), a write-ahead
//! log with checksummed records (`wal`), and the state and decisions of the
//! database over that log (`db`).
pub mod command;
pub mod db;
pub mod wal;
