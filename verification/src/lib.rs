//! A small key-value filesystem for embedded storage devices.
//!
//! Values are stored in fixed-size blocks of a storage region; a value larger
//! than one block is split over a chain of blocks.

pub mod storage;
pub mod memory_storage;
pub mod layout;
pub mod filesystem;
pub mod laws;

pub use storage::{ReadStorage, Storage};
pub use filesystem::{WeirdoFileSystem, WeirdoFileSystemError, FsView};
pub use layout::{BlockStatus, BLOCK_SIZE};
