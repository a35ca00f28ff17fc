//! A small command-line habit tracker core: a command parser that turns one
//! line of input into a typed command, and a habit store that applies
//! create/read/delete operations to an ordered, name-unique collection of
//! habit records. The collection is encoded to and decoded from a single
//! JSON document; reading and writing that document is left to the caller.

pub mod codec;
pub mod commands;
pub mod numerals;
pub mod storage;
pub mod utils;
