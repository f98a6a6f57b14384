//! Flash-based EEPROM emulation: a log-structured key-value store for 16-bit
//! values addressed by 16-bit tags, kept crash-safe on page-erasable flash.
//!
//! The engine works against the abstract [`Flash`] interface: half-word reads
//! and programs plus page erase. [`MemFlash`] is a verified in-memory
//! implementation of that interface, suitable for tests and simulation; a
//! hardware driver can implement [`Flash`] outside this crate.

mod eeprom;
mod flash;
pub mod laws;
mod mem_flash;
pub mod model;

pub use eeprom::{EEPROMExt, EEPROM};
pub use flash::{Flash, FlashError, FlashResult, Params, ACTIVE_PAGE_MARKER, ERASED_HALF,
    ERASED_ITEM};
pub use mem_flash::MemFlash;
