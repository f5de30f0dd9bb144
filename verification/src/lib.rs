//! Core of a small HTTP/1.1 server.

pub mod addr;
pub mod cgi;
pub mod chunk;
pub mod client;
pub mod config;
pub mod date;
pub mod dispatch;
pub mod entries;
pub mod handler;
pub mod headers;
pub mod http;
pub mod laws;
pub mod listing;
pub mod multipart;
pub mod number;
pub mod params;
pub mod reply;
pub mod response;
pub mod server;
pub mod session;
pub mod text;
pub mod token;
pub mod util;
pub mod wire;
