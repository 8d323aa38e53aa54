pub mod corrected_time;
pub mod server;
pub mod times;
pub mod times_shift_register;

pub use self::corrected_time::CorrectedTime;
pub use self::server::{NtpServer, NtpServerError};
pub use self::times::Times;
pub use self::times_shift_register::TimesShiftRegister;
