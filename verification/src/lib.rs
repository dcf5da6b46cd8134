//! A stub DNS resolver socket: it keeps a table of queries in flight, writes
//! their requests, retransmits them on a schedule, and reads the answers.

pub mod answer;
pub mod config;
pub mod error;
pub mod history;
pub mod ip;
pub mod laws;
pub mod name;
pub mod query;
pub mod result;
pub mod slots;
pub mod socket;
pub mod storage;
pub mod time;
pub mod wire;
