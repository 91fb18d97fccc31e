//! porthole: a self-hosted TCP/UDP tunneling and relay service.
//!
//! The server runs on a public host and relays traffic to a client behind NAT over connections
//! the client initiates outbound.

pub mod addr;
pub mod auth;
pub mod backoff;
pub mod banner;
pub mod buffer;
pub mod cli;
pub mod client;
pub mod config;
pub mod crypto;
pub mod diagnostics;
pub mod invite;
pub mod logging;
pub mod maps;
pub mod names;
pub mod protocol;
pub mod proxy;
pub mod reassembly;
pub mod server;
pub mod service;
pub mod setup;
pub mod single;
pub mod source_pool;
pub mod text;
pub mod tls;
pub mod tui;
pub mod tunnel;
pub mod udp;
pub mod udp_client;
pub mod udp_server;
pub mod web;
