//! Fixed-capacity strings and a byte arena that holds named values.

pub mod global_storage;
pub mod storable;
pub mod tiny_string;

pub use global_storage::{DyArray, GlobalStorage, LocalStorage, Ptr, Storage, NAME_SLOTS};
pub use storable::Storable;
pub use tiny_string::{TinyString, FIXED_CHAR_BUFFER_SIZE};
