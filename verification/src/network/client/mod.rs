pub mod client;
pub mod ntp_client;
