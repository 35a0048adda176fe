//! A small client library for a social network command line tool: the
//! listing of user identifiers kept one per line in a text file, and a
//! client value that holds the account's credentials.
pub mod client;
pub mod lines;
pub mod text;
pub mod users;
