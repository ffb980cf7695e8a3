//! Verified core of a proxy server's connection plumbing.
pub mod alpn;
pub mod client_hello;
pub mod errno;
pub mod fd_recv;
pub mod fd_send;
pub mod fds;
pub mod idle_conn;
pub mod idle_stream;
pub mod key_codec;
pub mod sweeper;
pub mod tls_settings;
