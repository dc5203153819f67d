//! Task-side logic that is pure computation: the console's in-memory
//! file store and path handling.
pub mod keyboard;
