pub mod acknowledge_mask;
pub mod disconnect_reason;
pub mod packet;
pub mod payload;

pub use self::acknowledge_mask::AcknowledgeMask;
pub use self::disconnect_reason::DisconnectionReason;
pub use self::payload::{Payload, SubPayload};
pub mod ntp_packet;

pub use self::ntp_packet::{NtpPacketHeader, NtpRequestPacket, NtpResponsePacket};
