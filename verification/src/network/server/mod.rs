pub mod client_connection;
pub mod client_table;
pub mod ntp_server;
pub mod server;
