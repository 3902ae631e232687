//! Verified core of the flyo file server and its flyo-proxy front end.
pub mod text;
pub mod config;
pub mod net;
pub mod proxy_config;
pub mod guard;
pub mod auth;
pub mod fs_ops;
pub mod handlers;
pub mod ui;
pub mod proxy;
pub mod tls;
