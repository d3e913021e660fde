//! The server configuration: virtual servers, their ports and routes.

use vstd::prelude::*;
use crate::strmap::StrMap;

verus! {

/// A route that answers with a redirect.
#[derive(Debug, Clone)]
pub struct Redirect {
    pub status: u16,
    pub to: String,
}

/// A route whose files with extension `ext` run through `runner`.
#[derive(Debug, Clone)]
pub struct CgiCfg {
    pub ext: String,
    pub runner: String,
}

/// One route of a server.
#[derive(Debug, Clone)]
pub struct RouteCfg {
    pub path: String,
    pub root: String,
    pub index: Vec<String>,
    pub methods: Vec<String>,
    pub dir_listing: bool,
    pub upload_enabled: bool,
    pub redirect: Option<Redirect>,
    pub cgi: Option<CgiCfg>,
}

/// One virtual server.
#[derive(Debug, Clone)]
pub struct ServerCfg {
    pub server_address: String,
    pub ports: Vec<u16>,
    pub server_name: Vec<String>,
    pub client_max_body_size: usize,
    /// Error pages by status code, written in decimal.
    pub error_pages: StrMap,
    pub routes: Vec<RouteCfg>,
}

/// The whole configuration.
#[derive(Debug, Clone)]
pub struct Config {
    pub servers: Vec<ServerCfg>,
    pub request_timeout_ms: u64,
    pub epoll_max_events: i32,
}

/// The request timeout when the configuration gives none, in milliseconds.
pub fn default_timeout() -> (t: u64)
    ensures
        t == 5000,
{
    5000
}

/// The size of the event buffer when the configuration gives none.
pub fn default_max_events() -> (n: i32)
    ensures
        n == 1024,
{
    1024
}

} // verus!
