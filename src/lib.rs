//! A personal phone book: names mapped to a mobile and a work number, kept
//! either in a line-oriented text file or in a single SQLite table.

pub mod book;
pub mod database;
pub mod entry;
pub mod order;
pub mod text_format;
pub mod text_store;
