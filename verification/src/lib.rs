//! A small HTTP/1.1 server core: request parsing, response encoding,
//! routing, sessions and multipart uploads.

mod search;
pub mod strmap;
pub mod config;
pub mod http;
pub mod upload;
pub mod router;
pub mod session;
pub mod server;
pub mod cgi;
pub mod roundtrip;
pub mod conn;
pub mod util;
mod text;
