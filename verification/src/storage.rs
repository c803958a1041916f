pub mod checksum;
pub mod log;
pub mod record;

pub use record::{DecodeError, Operation, Record};
