//! Driver for the 25-series SPI EEPROMs: instruction framing, the status
//! register, and linear storage with page-wise writes.

mod bits;
pub mod eeprom25x;
pub mod hardware;
pub mod plan;
pub mod register;
pub mod status;
pub mod storage;
pub mod variant;

pub use eeprom25x::{Eeprom25x, Error};
pub use hardware::{Action, Channel, Halt, Line, Op, Signal, Wiring};
pub use register::{Erase, Instruction};
pub use status::{Status, WriteProtection};
pub use storage::Storage;
pub use variant::{Model, Variant};
