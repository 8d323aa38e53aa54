pub mod address;
pub mod client;
pub mod error;
pub mod handshake;
pub mod log;
pub mod network_stream;
pub mod ntp;
pub mod payload;
pub mod server;
